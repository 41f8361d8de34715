//! What the nodes of a tree mean: the value that a node leaves in the
//! result register and what it does to the stack, or the value that it
//! returns from the function.

use crate::ast::{NodeType, ParseNode, StmtType, TokType};
use crate::lower::{always_returns, comparison, declarations_from, right_first, unary_tail};
use crate::machine::{divide, holds, slot_index, truth, wrap64};
use vstd::prelude::*;

verus! {

/// How a node ends.
pub enum Flow {
    /// It runs to its end, with this value in the result register and this
    /// stack.
    Value(int, Seq<int>),
    /// It returns this value from the function.
    Returned(int),
}

/// The value of a unary operator applied to `v`.
pub open spec fn unary_value(op: TokType, v: int) -> int {
    match op {
        TokType::Minus => wrap64(-v),
        TokType::Tilde => -v - 1,
        _ => truth(v == 0),
    }
}

/// The value of an arithmetic, relational or equality operator, where
/// `kept` is the operand in the result register and `pushed` the operand
/// that was lowered first and saved on the stack. Addition, multiplication
/// and the comparisons save the left operand; subtraction and division save
/// the right one, so that `kept` is the left operand. A division has no
/// value when it traps.
pub open spec fn binary_value(op: TokType, kept: int, pushed: int) -> Option<int> {
    match op {
        TokType::Plus => Some(wrap64(kept + pushed)),
        TokType::Minus => Some(wrap64(kept - pushed)),
        TokType::Multi => Some(wrap64(kept * pushed)),
        TokType::Splash => match divide(0, kept, pushed) {
            Some((quotient, _)) => Some(quotient),
            None => None,
        },
        _ => match comparison(op) {
            Some(c) => Some(truth(holds(c, pushed, kept))),
            None => None,
        },
    }
}

/// What a statement or an expression means, from the result register `rax`
/// and the stack `stack` of a frame with `base` words at and below its
/// base. There is no meaning where the machine would fault.
pub open spec fn meaning(
    tree: ParseNode,
    map: Map<Seq<char>, int>,
    idx: int,
    rax: int,
    stack: Seq<int>,
    base: int,
) -> Option<Flow>
    decreases tree, 2nat, 0nat,
{
    let n = tree.child.len();
    match tree.entry {
        NodeType::Const(value) => Some(Flow::Value(value as int, stack)),
        NodeType::Var(name) => if map.contains_key(name@) {
            match slot_index(base, stack.len(), map[name@]) {
                Some(i) => Some(Flow::Value(stack[i], stack)),
                None => None,
            }
        } else {
            None
        },
        NodeType::AssignNode(name) => if map.contains_key(name@) && n == 1 {
            match meaning(tree.child[0], map, idx, rax, stack, base) {
                Some(Flow::Value(v, s)) => match slot_index(base, s.len(), map[name@]) {
                    Some(i) => Some(Flow::Value(v, s.update(i, v))),
                    None => None,
                },
                other => other,
            }
        } else {
            None
        },
        NodeType::UnExp(op) => if unary_tail(op) is Some && n == 1 {
            match meaning(tree.child[0], map, idx, rax, stack, base) {
                Some(Flow::Value(v, s)) => Some(Flow::Value(unary_value(op, v), s)),
                other => other,
            }
        } else {
            None
        },
        NodeType::BinExp(op) => if n != 2 {
            None
        } else if op is Or || op is And {
            match meaning(tree.child[0], map, idx, rax, stack, base) {
                Some(Flow::Value(left, s)) => if (left != 0) == (op is Or) {
                    Some(Flow::Value(truth(op is Or), s))
                } else {
                    match meaning(tree.child[1], map, idx, left, s, base) {
                        Some(Flow::Value(right, after)) => Some(
                            Flow::Value(truth(right != 0), after),
                        ),
                        other => other,
                    }
                },
                other => other,
            }
        } else {
            let first: int = if right_first(op) { 1 } else { 0 };
            match meaning(tree.child[first], map, idx, rax, stack, base) {
                Some(Flow::Value(pushed, s)) => match meaning(
                    tree.child[1 - first],
                    map,
                    idx,
                    pushed,
                    s.push(pushed),
                    base,
                ) {
                    Some(Flow::Value(kept, after)) => if after.len() > 0 {
                        match binary_value(op, kept, after.last()) {
                            Some(v) => Some(Flow::Value(v, after.drop_last())),
                            None => None,
                        }
                    } else {
                        None
                    },
                    other => other,
                },
                other => other,
            }
        },
        NodeType::ConditionalExp => if n == 1 {
            meaning(tree.child[0], map, idx, rax, stack, base)
        } else if n == 3 {
            match meaning(tree.child[0], map, idx, rax, stack, base) {
                Some(Flow::Value(c, s)) => if c != 0 {
                    meaning(tree.child[1], map, idx, c, s, base)
                } else {
                    meaning(tree.child[2], map, idx, c, s, base)
                },
                other => other,
            }
        } else {
            None
        },
        NodeType::Stmt(StmtType::Return) => if n == 1 {
            match meaning(tree.child[0], map, idx, rax, stack, base) {
                Some(Flow::Value(v, s)) => if 1 <= base <= s.len() {
                    Some(Flow::Returned(v))
                } else {
                    None
                },
                other => other,
            }
        } else {
            None
        },
        NodeType::Stmt(StmtType::Exp) => if n == 1 {
            meaning(tree.child[0], map, idx, rax, stack, base)
        } else {
            None
        },
        NodeType::Stmt(StmtType::Conditional) => if n == 2 || n == 3 {
            match meaning(tree.child[0], map, idx, rax, stack, base) {
                Some(Flow::Value(c, s)) => if c != 0 {
                    meaning(tree.child[1], map, idx, c, s, base)
                } else if n == 3 {
                    meaning(tree.child[2], map, idx, c, s, base)
                } else {
                    Some(Flow::Value(c, s))
                },
                other => other,
            }
        } else {
            None
        },
        NodeType::Stmt(StmtType::Compound) => meaning_block(tree, map, idx, rax, stack, base),
        NodeType::Prog(_) | NodeType::Fn(_) | NodeType::Declare(_) => None,
        _ => if n == 1 {
            meaning(tree.child[0], map, idx, rax, stack, base)
        } else {
            None
        },
    }
}

/// What the items of a block mean from the `i`-th on. A declaration pushes
/// its value (0 without an initialiser) as the variable's slot.
pub open spec fn meaning_items(
    tree: ParseNode,
    i: int,
    map: Map<Seq<char>, int>,
    idx: int,
    rax: int,
    stack: Seq<int>,
    base: int,
) -> Option<Flow>
    decreases tree, 0nat, tree.child.len() - i,
{
    if i < 0 || i >= tree.child.len() {
        Some(Flow::Value(rax, stack))
    } else {
        let item = tree.child[i];
        match item.entry {
            NodeType::Declare(name) => {
                let slot = idx - 8;
                let new_map = map.insert(name@, slot);
                match (if item.child.len() == 0 {
                    Some(Flow::Value(0, stack))
                } else if item.child.len() == 1 {
                    meaning(item.child[0], new_map, slot, rax, stack, base)
                } else {
                    None
                }) {
                    Some(Flow::Value(v, s)) => meaning_items(
                        tree,
                        i + 1,
                        new_map,
                        slot,
                        v,
                        s.push(v),
                        base,
                    ),
                    other => other,
                }
            },
            NodeType::Stmt(StmtType::Compound) => match meaning_block(
                item,
                map,
                idx,
                rax,
                stack,
                base,
            ) {
                Some(Flow::Value(v, s)) => meaning_items(tree, i + 1, map, idx, v, s, base),
                other => other,
            },
            _ => match meaning(item, map, idx, rax, stack, base) {
                Some(Flow::Value(v, s)) => meaning_items(tree, i + 1, map, idx, v, s, base),
                other => other,
            },
        }
    }
}

/// What a block means: its items, and then the release of one word for
/// each variable that the block has declared.
pub open spec fn meaning_block(
    tree: ParseNode,
    map: Map<Seq<char>, int>,
    idx: int,
    rax: int,
    stack: Seq<int>,
    base: int,
) -> Option<Flow>
    decreases tree, 1nat, 0nat,
{
    match meaning_items(tree, 0, map, idx, rax, stack, base) {
        Some(Flow::Value(v, s)) => if declarations_from(tree, 0) <= s.len() {
            Some(Flow::Value(v, s.take(s.len() - declarations_from(tree, 0))))
        } else {
            None
        },
        other => other,
    }
}

/// The value that a function returns when it is entered with the stack
/// `stack` and the caller's frame base `base`: what its body returns, or 0
/// when the body runs to its end.
pub open spec fn function_value(tree: ParseNode, rax: int, stack: Seq<int>, base: int) -> Option<
    int,
> {
    let framed = stack.push(base);
    match meaning_block(tree, Map::empty(), 0, rax, framed, framed.len() as int) {
        Some(Flow::Returned(v)) => Some(v),
        Some(Flow::Value(_, s)) => if !always_returns(tree) && framed.len() <= s.len() {
            Some(0)
        } else {
            None
        },
        None => None,
    }
}

} // verus!
