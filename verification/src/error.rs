//! The ways in which lowering fails.

use vstd::prelude::*;
use vstd::string::*;

verus! {

/// Why a tree could not be lowered. Every failure abandons the whole run.
#[derive(Debug, PartialEq, Eq)]
pub enum GenError {
    /// The named variable is declared twice in one block.
    RedeclarationError(String),
    /// The named variable is read or assigned without a declaration in sight.
    UndeclaredVariableError(String),
    /// A node kind or operator for which no lowering is defined here.
    UnsupportedConstructError,
    /// A node lacks a child that its kind calls for.
    StructuralError,
}

/// A failure as a plain value.
pub enum Failure {
    RedeclarationError(Seq<char>),
    UndeclaredVariableError(Seq<char>),
    UnsupportedConstructError,
    StructuralError,
}

impl View for GenError {
    type V = Failure;

    open spec fn view(&self) -> Failure {
        match *self {
            GenError::RedeclarationError(name) => Failure::RedeclarationError(name@),
            GenError::UndeclaredVariableError(name) => Failure::UndeclaredVariableError(name@),
            GenError::UnsupportedConstructError => Failure::UnsupportedConstructError,
            GenError::StructuralError => Failure::StructuralError,
        }
    }
}

/// The message of a failure: what went wrong, and with which variable.
pub open spec fn message_text(f: Failure) -> Seq<char> {
    match f {
        Failure::RedeclarationError(name) => "redeclaration of variable `"@ + name
            + "` in the same scope"@,
        Failure::UndeclaredVariableError(name) => "use of undeclared variable `"@ + name + "`"@,
        Failure::UnsupportedConstructError => "construct without a lowering"@,
        Failure::StructuralError => "node with a wrong number of children"@,
    }
}

impl GenError {
    /// A message that names the failure and the variable it is about.
    pub fn message(&self) -> (text: String)
        ensures
            text@ == message_text(self@),
    {
        match self {
            GenError::RedeclarationError(name) => {
                let mut text = String::from_str("redeclaration of variable `");
                text.append(name.as_str());
                text.append("` in the same scope");
                text
            },
            GenError::UndeclaredVariableError(name) => {
                let mut text = String::from_str("use of undeclared variable `");
                text.append(name.as_str());
                text.append("`");
                text
            },
            GenError::UnsupportedConstructError => String::from_str("construct without a lowering"),
            GenError::StructuralError => String::from_str("node with a wrong number of children"),
        }
    }
}

} // verus!
