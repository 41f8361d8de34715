//! What the lowering of a tree is: the lines emitted for every kind of
//! node, and the failures.

use crate::ast::{NodeType, ParseNode, StmtType, TokType};
use crate::code::{Cond, Instr};
use crate::error::Failure;
use crate::label::label_text;
use vstd::prelude::*;

verus! {

/// The lines of a lowered tree and the number of the next free label.
pub struct Lowered {
    pub lines: Seq<Instr>,
    pub next: nat,
}

/// What a declaration leaves behind: the new frame map, scope set and
/// cursor, the lines, and the number of the next free label.
pub struct Declared {
    pub map: Map<Seq<char>, int>,
    pub scope: Set<Seq<char>>,
    pub idx: int,
    pub lines: Seq<Instr>,
    pub next: nat,
}

/// The lines of a run of block items, the names that the block has declared
/// by its end, and the number of the next free label.
pub struct Items {
    pub lines: Seq<Instr>,
    pub scope: Set<Seq<char>>,
    pub next: nat,
}

/// The lines that open a function: directives, the entry point, a label, and
/// the saving of the caller's frame base.
pub open spec fn prologue(name: Seq<char>, label: Seq<char>) -> Seq<Instr> {
    seq![
        Instr::Global(name),
        Instr::TypeFunction(name),
        Instr::Entry(name),
        Instr::Label(label),
        Instr::CfiStart,
        Instr::PushBase,
        Instr::CfiFrameOffset,
        Instr::CfiSavedBase,
        Instr::SetBase,
        Instr::CfiFrameRegister,
    ]
}

/// The lines that drop the frame and restore the caller's frame base.
pub open spec fn epilogue() -> Seq<Instr> {
    seq![Instr::RestoreStack, Instr::PopBase, Instr::CfiRestore]
}

/// The lines that return 0 from a function whose body may run to its end.
pub open spec fn fallback() -> Seq<Instr> {
    seq![Instr::MovImm(0)] + epilogue() + seq![Instr::Ret]
}

/// The lines that apply a unary operator to the result register, if the
/// operator is one.
pub open spec fn unary_tail(op: TokType) -> Option<Seq<Instr>> {
    match op {
        TokType::Minus => Some(seq![Instr::Neg]),
        TokType::Tilde => Some(seq![Instr::Not]),
        TokType::Exclamation => Some(
            seq![Instr::TestZeroShort, Instr::MovImm(0), Instr::SetIf(Cond::Equal)],
        ),
        _ => None,
    }
}

/// The condition that a relational or equality operator tests.
pub open spec fn comparison(op: TokType) -> Option<Cond> {
    match op {
        TokType::Equal => Some(Cond::Equal),
        TokType::NotEqual => Some(Cond::NotEqual),
        TokType::Lt => Some(Cond::Less),
        TokType::LessEqual => Some(Cond::LessEqual),
        TokType::Gt => Some(Cond::Greater),
        TokType::GreaterEqual => Some(Cond::GreaterEqual),
        _ => None,
    }
}

/// The lines that combine the operand popped into the second register with
/// the operand in the result register, for an arithmetic, relational or
/// equality operator.
pub open spec fn binary_tail(op: TokType) -> Option<Seq<Instr>> {
    match op {
        TokType::Plus => Some(seq![Instr::Add]),
        TokType::Minus => Some(seq![Instr::Sub]),
        TokType::Multi => Some(seq![Instr::Mul]),
        TokType::Splash => Some(seq![Instr::ClearHigh, Instr::Div]),
        _ => match comparison(op) {
            Some(c) => Some(seq![Instr::Compare, Instr::ClearResult, Instr::SetIf(c)]),
            None => None,
        },
    }
}

/// Whether the right operand is lowered first, so that the left operand ends
/// in the result register: subtraction and division take the second register
/// from the result register.
pub open spec fn right_first(op: TokType) -> bool {
    op is Minus || op is Splash
}

/// The lines between the operands of a short-circuit operator: for `||` a
/// nonzero left operand gives 1, for `&&` a zero left operand gives 0, and
/// either jumps to `end` past the right operand, which starts at `clause`.
pub open spec fn short_circuit_head(op: TokType, clause: Seq<char>, end: Seq<char>) -> Seq<Instr> {
    if op is Or {
        seq![
            Instr::TestZero,
            Instr::Je(clause),
            Instr::MovImm(1),
            Instr::Jmp(end),
            Instr::Label(clause),
        ]
    } else {
        seq![Instr::TestZero, Instr::Jne(clause), Instr::Jmp(end), Instr::Label(clause)]
    }
}

/// The lines after the right operand of a short-circuit operator: the
/// operand is made 0 or 1, and the operator ends at `end`.
pub open spec fn short_circuit_tail(end: Seq<char>) -> Seq<Instr> {
    seq![
        Instr::TestZero,
        Instr::MovImm(0),
        Instr::SetIf(Cond::NotEqual),
        Instr::LabelClauseEnd(end),
    ]
}

/// The lines of a two-way branch on the result register: `on_true` runs
/// when it is nonzero, `on_false` (after the label `other`) when it is zero,
/// and both end at the label `end`.
pub open spec fn branch(
    cond: Seq<Instr>,
    on_true: Seq<Instr>,
    on_false: Seq<Instr>,
    other: Seq<char>,
    end: Seq<char>,
) -> Seq<Instr> {
    cond + seq![Instr::TestZero, Instr::Je(other)] + on_true + seq![
        Instr::Jmp(end),
        Instr::Label(other),
    ] + on_false + seq![Instr::Label(end)]
}

/// The lowering of a statement or an expression.
///
/// `map` gives the variables in sight, `idx` is the frame cursor (which only
/// a block inside the node uses), and `next` is the number of the next free
/// label. An expression's lines leave its value in the result register.
pub open spec fn lower_stmt(tree: ParseNode, map: Map<Seq<char>, int>, idx: int, next: nat) -> Result<
    Lowered,
    Failure,
>
    decreases tree, 2nat, 0nat,
{
    let n = tree.child.len();
    match tree.entry {
        NodeType::Const(value) => if n != 0 {
            Err(Failure::StructuralError)
        } else {
            Ok(Lowered { lines: seq![Instr::MovImm(value as int)], next })
        },
        NodeType::Var(name) => if !map.contains_key(name@) {
            Err(Failure::UndeclaredVariableError(name@))
        } else if n != 0 {
            Err(Failure::StructuralError)
        } else {
            Ok(Lowered { lines: seq![Instr::Load(map[name@])], next })
        },
        NodeType::AssignNode(name) => if !map.contains_key(name@) {
            Err(Failure::UndeclaredVariableError(name@))
        } else if n != 1 {
            Err(Failure::StructuralError)
        } else {
            match lower_stmt(tree.child[0], map, idx, next) {
                Err(e) => Err(e),
                Ok(value) => Ok(
                    Lowered { lines: value.lines.push(Instr::Store(map[name@])), next: value.next },
                ),
            }
        },
        NodeType::UnExp(op) => match unary_tail(op) {
            None => Err(Failure::UnsupportedConstructError),
            Some(tail) => if n != 1 {
                Err(Failure::StructuralError)
            } else {
                match lower_stmt(tree.child[0], map, idx, next) {
                    Err(e) => Err(e),
                    Ok(operand) => Ok(Lowered { lines: operand.lines + tail, next: operand.next }),
                }
            },
        },
        NodeType::BinExp(op) => if op is Or || op is And {
            if n != 2 {
                Err(Failure::StructuralError)
            } else {
                let clause = label_text(if op is Or { "CLAUSE"@ } else { "clause"@ }, next);
                let end = label_text(if op is Or { "END"@ } else { "end"@ }, next + 1);
                match lower_stmt(tree.child[0], map, idx, next + 2) {
                    Err(e) => Err(e),
                    Ok(left) => match lower_stmt(tree.child[1], map, idx, left.next) {
                        Err(e) => Err(e),
                        Ok(right) => Ok(
                            Lowered {
                                lines: left.lines + short_circuit_head(op, clause, end)
                                    + right.lines + short_circuit_tail(end),
                                next: right.next,
                            },
                        ),
                    },
                }
            }
        } else {
            match binary_tail(op) {
                None => Err(Failure::UnsupportedConstructError),
                Some(tail) => if n != 2 {
                    Err(Failure::StructuralError)
                } else {
                    let first: int = if right_first(op) { 1 } else { 0 };
                    match lower_stmt(tree.child[first], map, idx, next) {
                        Err(e) => Err(e),
                        Ok(pushed) => match lower_stmt(tree.child[1 - first], map, idx, pushed.next) {
                            Err(e) => Err(e),
                            Ok(kept) => Ok(
                                Lowered {
                                    lines: pushed.lines + seq![Instr::Push] + kept.lines + seq![
                                        Instr::Pop,
                                    ] + tail,
                                    next: kept.next,
                                },
                            ),
                        },
                    }
                },
            }
        },
        NodeType::ConditionalExp => if n == 1 {
            lower_stmt(tree.child[0], map, idx, next)
        } else if n == 3 {
            match lower_stmt(tree.child[0], map, idx, next) {
                Err(e) => Err(e),
                Ok(cond) => match lower_stmt(tree.child[1], map, idx, cond.next) {
                    Err(e) => Err(e),
                    Ok(on_true) => match lower_stmt(tree.child[2], map, idx, on_true.next) {
                        Err(e) => Err(e),
                        Ok(on_false) => Ok(
                            Lowered {
                                lines: branch(
                                    cond.lines,
                                    on_true.lines,
                                    on_false.lines,
                                    label_text("E3"@, on_false.next),
                                    label_text("ENDCOND"@, on_false.next + 1),
                                ),
                                next: on_false.next + 2,
                            },
                        ),
                    },
                },
            }
        } else {
            Err(Failure::StructuralError)
        },
        NodeType::Stmt(StmtType::Return) => if n != 1 {
            Err(Failure::StructuralError)
        } else {
            match lower_stmt(tree.child[0], map, idx, next) {
                Err(e) => Err(e),
                Ok(value) => Ok(
                    Lowered {
                        lines: value.lines + epilogue() + seq![Instr::Ret],
                        next: value.next,
                    },
                ),
            }
        },
        NodeType::Stmt(StmtType::Exp) => if n != 1 {
            Err(Failure::StructuralError)
        } else {
            lower_stmt(tree.child[0], map, idx, next)
        },
        NodeType::Stmt(StmtType::Conditional) => if n != 2 && n != 3 {
            Err(Failure::StructuralError)
        } else {
            match lower_stmt(tree.child[0], map, idx, next) {
                Err(e) => Err(e),
                Ok(cond) => match lower_stmt(tree.child[1], map, idx, cond.next) {
                    Err(e) => Err(e),
                    Ok(on_true) => match (if n == 3 {
                        lower_stmt(tree.child[2], map, idx, on_true.next)
                    } else {
                        Ok(Lowered { lines: Seq::empty(), next: on_true.next })
                    }) {
                        Err(e) => Err(e),
                        Ok(on_false) => Ok(
                            Lowered {
                                lines: branch(
                                    cond.lines,
                                    on_true.lines,
                                    on_false.lines,
                                    label_text("S2"@, on_false.next),
                                    label_text("ENDIF"@, on_false.next + 1),
                                ),
                                next: on_false.next + 2,
                            },
                        ),
                    },
                },
            }
        },
        NodeType::Stmt(StmtType::Compound) => lower_block(tree, map, idx, next),
        NodeType::Prog(_) | NodeType::Fn(_) | NodeType::Declare(_) => Err(
            Failure::UnsupportedConstructError,
        ),
        _ => if n != 1 {
            Err(Failure::UnsupportedConstructError)
        } else {
            lower_stmt(tree.child[0], map, idx, next)
        },
    }
}

/// The lowering of a declaration in a block whose scope set is `scope`.
///
/// The variable's slot is the next eight bytes below the cursor. The value
/// (0 without an initialiser) is pushed, and the push is the allocation.
pub open spec fn lower_declare(
    tree: ParseNode,
    map: Map<Seq<char>, int>,
    scope: Set<Seq<char>>,
    idx: int,
    next: nat,
) -> Result<Declared, Failure>
    decreases tree, 2nat, 0nat,
{
    match tree.entry {
        NodeType::Declare(name) => if scope.contains(name@) {
            Err(Failure::RedeclarationError(name@))
        } else if tree.child.len() > 1 {
            Err(Failure::StructuralError)
        } else {
            let slot = idx - 8;
            let new_map = map.insert(name@, slot);
            let new_scope = scope.insert(name@);
            if tree.child.len() == 0 {
                Ok(
                    Declared {
                        map: new_map,
                        scope: new_scope,
                        idx: slot,
                        lines: seq![Instr::MovImm(0), Instr::Push],
                        next,
                    },
                )
            } else {
                match lower_stmt(tree.child[0], new_map, slot, next) {
                    Err(e) => Err(e),
                    Ok(value) => Ok(
                        Declared {
                            map: new_map,
                            scope: new_scope,
                            idx: slot,
                            lines: value.lines.push(Instr::Push),
                            next: value.next,
                        },
                    ),
                }
            }
        },
        _ => Err(Failure::UnsupportedConstructError),
    }
}

/// The lowering of the items of a block from the `i`-th on, where the items
/// before have left `map`, `scope`, `idx` and `next`.
pub open spec fn lower_items(
    tree: ParseNode,
    i: int,
    map: Map<Seq<char>, int>,
    scope: Set<Seq<char>>,
    idx: int,
    next: nat,
) -> Result<Items, Failure>
    decreases tree, 0nat, tree.child.len() - i,
{
    if i < 0 || i >= tree.child.len() {
        Ok(Items { lines: Seq::empty(), scope, next })
    } else {
        let item = tree.child[i];
        match item.entry {
            NodeType::Declare(_) => match lower_declare(item, map, scope, idx, next) {
                Err(e) => Err(e),
                Ok(d) => match lower_items(tree, i + 1, d.map, d.scope, d.idx, d.next) {
                    Err(e) => Err(e),
                    Ok(rest) => Ok(
                        Items { lines: d.lines + rest.lines, scope: rest.scope, next: rest.next },
                    ),
                },
            },
            NodeType::Stmt(StmtType::Compound) => match lower_block(item, map, idx, next) {
                Err(e) => Err(e),
                Ok(b) => match lower_items(tree, i + 1, map, scope, idx, b.next) {
                    Err(e) => Err(e),
                    Ok(rest) => Ok(
                        Items { lines: b.lines + rest.lines, scope: rest.scope, next: rest.next },
                    ),
                },
            },
            _ => match lower_stmt(item, map, idx, next) {
                Err(e) => Err(e),
                Ok(s) => match lower_items(tree, i + 1, map, scope, idx, s.next) {
                    Err(e) => Err(e),
                    Ok(rest) => Ok(
                        Items { lines: s.lines + rest.lines, scope: rest.scope, next: rest.next },
                    ),
                },
            },
        }
    }
}

/// The lowering of a block: its items in order, each declaration moving the
/// cursor down by one slot, and at the end the release of the slots that
/// the block itself has declared.
pub open spec fn lower_block(tree: ParseNode, map: Map<Seq<char>, int>, idx: int, next: nat) -> Result<
    Lowered,
    Failure,
>
    decreases tree, 1nat, 0nat,
{
    match lower_items(tree, 0, map, Set::empty(), idx, next) {
        Err(e) => Err(e),
        Ok(items) => Ok(
            Lowered {
                lines: items.lines.push(Instr::Release(8 * items.scope.len())),
                next: items.next,
            },
        ),
    }
}

/// How many of the items from the `i`-th on are declarations.
pub open spec fn declarations_from(tree: ParseNode, i: int) -> nat
    decreases tree.child.len() - i,
{
    if i < 0 || i >= tree.child.len() {
        0
    } else if tree.child[i].entry is Declare {
        1 + declarations_from(tree, i + 1)
    } else {
        declarations_from(tree, i + 1)
    }
}

/// Whether every path through the statement ends in a `return`.
pub open spec fn always_returns(tree: ParseNode) -> bool
    decreases tree, 1nat, 0nat,
{
    match tree.entry {
        NodeType::Stmt(StmtType::Return) => true,
        NodeType::Stmt(StmtType::Conditional) => tree.child.len() == 3 && always_returns(
            tree.child[1],
        ) && always_returns(tree.child[2]),
        NodeType::Stmt(StmtType::Compound) | NodeType::Fn(_) => some_item_returns(tree, 0),
        NodeType::Block => tree.child.len() == 1 && always_returns(tree.child[0]),
        _ => false,
    }
}

/// Whether one of the items from the `i`-th on always returns: what follows
/// it is never reached.
pub open spec fn some_item_returns(tree: ParseNode, i: int) -> bool
    decreases tree, 0nat, tree.child.len() - i,
{
    0 <= i < tree.child.len() && (always_returns(tree.child[i]) || some_item_returns(tree, i + 1))
}

/// The lowering of a function definition: prologue, body, a return of 0
/// unless the body always returns, epilogue, and the closing directives.
pub open spec fn lower_function(tree: ParseNode, next: nat) -> Result<Lowered, Failure> {
    match tree.entry {
        NodeType::Fn(name) => match lower_block(tree, Map::empty(), 0, next + 1) {
            Err(e) => Err(e),
            Ok(body) => Ok(
                Lowered {
                    lines: prologue(name@, label_text("FB"@, next)) + body.lines + (
                    if always_returns(tree) {
                        Seq::empty()
                    } else {
                        fallback()
                    }) + epilogue() + seq![
                        Instr::CfiEnd,
                        Instr::Label(label_text("FE"@, body.next)),
                        Instr::Size(name@),
                    ],
                    next: body.next + 1,
                },
            ),
        },
        _ => Err(Failure::UnsupportedConstructError),
    }
}

/// The lowering of the functions of a program from the `i`-th on.
pub open spec fn lower_functions(tree: ParseNode, i: int, next: nat) -> Result<Lowered, Failure>
    decreases tree.child.len() - i,
{
    if i < 0 || i >= tree.child.len() {
        Ok(Lowered { lines: Seq::empty(), next })
    } else {
        match lower_function(tree.child[i], next) {
            Err(e) => Err(e),
            Ok(f) => match lower_functions(tree, i + 1, f.next) {
                Err(e) => Err(e),
                Ok(rest) => Ok(Lowered { lines: f.lines + rest.lines, next: rest.next }),
            },
        }
    }
}

/// The lowering of a program: the file's name, the functions in source
/// order, and the closing directives.
pub open spec fn lower_program(tree: ParseNode, next: nat) -> Result<Lowered, Failure> {
    match lower_functions(tree, 0, next) {
        Err(e) => Err(e),
        Ok(functions) => match tree.entry {
            NodeType::Prog(name) => Ok(
                Lowered {
                    lines: seq![Instr::File(name@)] + functions.lines + seq![
                        Instr::Ident,
                        Instr::NoExecStack,
                    ],
                    next: functions.next,
                },
            ),
            _ => Err(Failure::UnsupportedConstructError),
        },
    }
}

/// The sum of `own` over the nodes of a tree.
pub open spec fn tree_sum(tree: ParseNode, own: spec_fn(ParseNode) -> nat) -> nat
    decreases tree, 1nat, 0nat,
{
    own(tree) + children_sum(tree, own, 0)
}

/// The sum of `own` over the nodes below the children from the `i`-th on.
pub open spec fn children_sum(tree: ParseNode, own: spec_fn(ParseNode) -> nat, i: int) -> nat
    decreases tree, 0nat, tree.child.len() - i,
{
    if i < 0 || i >= tree.child.len() {
        0
    } else {
        tree_sum(tree.child[i], own) + children_sum(tree, own, i + 1)
    }
}

/// How many labels the node itself takes.
pub open spec fn own_labels(tree: ParseNode) -> nat {
    match tree.entry {
        NodeType::ConditionalExp => if tree.child.len() == 3 {
            2
        } else {
            0
        },
        NodeType::Stmt(StmtType::Conditional) => 2,
        NodeType::BinExp(op) => if op is Or || op is And {
            2
        } else {
            0
        },
        NodeType::Fn(_) => 2,
        _ => 0,
    }
}

/// How many slots the node itself takes.
pub open spec fn own_slots(tree: ParseNode) -> nat {
    if tree.entry is Declare {
        1
    } else {
        0
    }
}

/// The labels of each node, as a weight.
pub open spec fn label_weight() -> spec_fn(ParseNode) -> nat {
    |t: ParseNode| own_labels(t)
}

/// The slots of each node, as a weight.
pub open spec fn slot_weight() -> spec_fn(ParseNode) -> nat {
    |t: ParseNode| own_slots(t)
}

/// How many labels the lowering of a tree takes at most, and exactly when
/// it succeeds.
pub open spec fn label_need(tree: ParseNode) -> nat {
    tree_sum(tree, label_weight())
}

/// How many declarations a tree holds.
pub open spec fn slot_count(tree: ParseNode) -> nat {
    tree_sum(tree, slot_weight())
}

/// Whether the machine's integers can hold what the lowering of the items
/// of `tree` counts.
pub open spec fn items_fit(tree: ParseNode, idx: int, issued: nat) -> bool {
    &&& issued + children_sum(tree, label_weight(), 0) <= u64::MAX
    &&& idx - 8 * children_sum(tree, slot_weight(), 0) >= isize::MIN
}

/// A tree's sum is its own weight and the sums of its children.
pub proof fn lemma_sum_unfold(tree: ParseNode, own: spec_fn(ParseNode) -> nat)
    ensures
        tree_sum(tree, own) == own(tree) + children_sum(tree, own, 0),
        tree.child.len() >= 1 ==> children_sum(tree, own, 0) == tree_sum(tree.child[0], own)
            + children_sum(tree, own, 1),
        tree.child.len() >= 2 ==> children_sum(tree, own, 1) == tree_sum(tree.child[1], own)
            + children_sum(tree, own, 2),
        tree.child.len() >= 3 ==> children_sum(tree, own, 2) == tree_sum(tree.child[2], own)
            + children_sum(tree, own, 3),
{
}

/// The sum from a child on is that child's sum and the sum from the next.
pub proof fn lemma_children_sum_step(tree: ParseNode, own: spec_fn(ParseNode) -> nat, i: int)
    requires
        0 <= i < tree.child.len(),
    ensures
        children_sum(tree, own, i) == tree_sum(tree.child[i], own) + children_sum(tree, own, i + 1),
{
}

/// Whether the machine's integers can hold what the lowering of `tree`
/// counts: the labels after the `issued` ones, and a cursor that starts at
/// `idx` and moves down by eight bytes for each declaration.
pub open spec fn fits(tree: ParseNode, idx: int, issued: nat) -> bool {
    &&& issued + label_need(tree) <= u64::MAX
    &&& idx - 8 * slot_count(tree) >= isize::MIN
}

} // verus!
