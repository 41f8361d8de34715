//! The syntax tree that the lowering consumes.

use vstd::prelude::*;

verus! {

/// Operator tokens that a unary or binary expression node may carry.
#[derive(Clone, Copy, Debug, PartialEq, Eq, Structural)]
pub enum TokType {
    Plus,
    Minus,
    Multi,
    Splash,
    Tilde,
    Exclamation,
    Lt,
    Gt,
    LessEqual,
    GreaterEqual,
    Equal,
    NotEqual,
    And,
    Or,
    Assign,
    QuestionMark,
    Colon,
}

/// The kinds of statement.
#[derive(Clone, Copy, Debug, PartialEq, Eq, Structural)]
pub enum StmtType {
    Return,
    Exp,
    Conditional,
    Compound,
}

/// What a node is, with its payload.
#[derive(Debug)]
pub enum NodeType {
    /// A whole program; the payload is the source file's name.
    Prog(String),
    /// A function definition; the payload is the function's name and the
    /// children are the items of its body.
    Fn(String),
    /// A statement.
    Stmt(StmtType),
    /// A declaration of the named variable; one child if it is initialised.
    Declare(String),
    /// An assignment to the named variable; the child is the value.
    AssignNode(String),
    /// A unary operator applied to the one child.
    UnExp(TokType),
    /// A binary operator applied to the two children.
    BinExp(TokType),
    /// An integer literal.
    Const(i64),
    /// A use of the named variable.
    Var(String),
    /// One child, or a condition and two branches.
    ConditionalExp,
    Exp,
    LogicalOrExp,
    LogicalAndExp,
    EqualityExp,
    RelationalExp,
    AdditiveExp,
    Term,
    Factor,
    Block,
}

/// A node of the tree: its kind and its children, in source order.
#[derive(Debug)]
pub struct ParseNode {
    pub entry: NodeType,
    pub child: Vec<ParseNode>,
}

} // verus!
