//! Lowering of a small C-like language's syntax tree to x86-64 assembly text
//! in AT&T syntax.
//!
//! [`generate`] holds the lowering itself, from a tree ([`ast`]) to text.
//! What the text is, line by line, is stated in [`lower`] over the lines of
//! [`code`]; [`laws`] and [`unique`] state what holds of every lowering.
//! [`machine`] models the machine that runs such lines and [`meaning`] says
//! what a tree means; [`correct`], [`behaviour`] and [`total`] prove that
//! the emitted lines do what the tree means.

pub mod ast;
pub mod behaviour;
pub mod code;
pub mod correct;
pub mod error;
pub mod frame;
pub mod generate;
pub mod label;
pub mod laws;
pub mod lower;
pub mod machine;
pub mod meaning;
pub mod numeral;
pub mod total;
pub mod unique;

pub use crate::ast::{NodeType, ParseNode, StmtType, TokType};
pub use crate::error::GenError;
pub use crate::frame::{FrameMap, ScopeSet};
pub use crate::generate::{
    gen_block, gen_declare, gen_fn, gen_fn_epilogue, gen_fn_prologue, gen_prog, gen_stmt,
    lowering_fits, returns_on_every_path,
};
pub use crate::label::LabelAllocator;
