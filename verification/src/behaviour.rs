//! What holds of the meaning of every tree, and so of the emitted lines:
//! the stack is left as it was found, a body that always returns never runs
//! to its end, and a function gives its value to the caller.

use crate::ast::{NodeType, ParseNode, StmtType, TokType};
use crate::code::Instr;
use crate::correct::{
    arrives, lemma_block_runs, lemma_line, lemma_next, lemma_placed_split, lemma_stmt_runs,
    lemma_then, placed, ready,
};
use crate::label::label_text;
use crate::lower::{
    always_returns, comparison, declarations_from, epilogue, fallback, lower_block,
    lower_function, lower_functions, lower_program, lower_stmt, prologue, right_first,
    some_item_returns,
};
use crate::unique::law_program_labels_unique;
use crate::machine::{
    divide, fits64, labels_unique, run, slot_index, step, wrap64, Machine, Outcome,
};
use crate::meaning::{function_value, meaning, meaning_block, meaning_items, Flow};
use vstd::prelude::*;

verus! {

/// A statement or an expression that runs to its end leaves as many words
/// on the stack as it found.
pub proof fn lemma_balanced(
    tree: ParseNode,
    map: Map<Seq<char>, int>,
    idx: int,
    rax: int,
    stack: Seq<int>,
    base: int,
)
    requires
        meaning(tree, map, idx, rax, stack, base) matches Some(Flow::Value(_, _)),
    ensures
        meaning(tree, map, idx, rax, stack, base) matches Some(Flow::Value(_, s)) && s.len()
            == stack.len(),
    decreases tree, 2nat, 0nat,
{
    let n = tree.child.len();
    match tree.entry {
        NodeType::Const(_) | NodeType::Var(_) => {},
        NodeType::Prog(_) | NodeType::Fn(_) | NodeType::Declare(_) => {},
        NodeType::BinExp(op) => {
            if op is Or || op is And {
                lemma_balanced(tree.child[0], map, idx, rax, stack, base);
                match meaning(tree.child[0], map, idx, rax, stack, base) {
                    Some(Flow::Value(left, s)) => {
                        if (left != 0) != (op is Or) {
                            lemma_balanced(tree.child[1], map, idx, left, s, base);
                        }
                    },
                    _ => {},
                }
            } else {
                let first: int = if right_first(op) { 1 } else { 0 };
                lemma_balanced(tree.child[first], map, idx, rax, stack, base);
                match meaning(tree.child[first], map, idx, rax, stack, base) {
                    Some(Flow::Value(pushed, s)) => {
                        lemma_balanced(tree.child[1 - first], map, idx, pushed, s.push(pushed), base);
                    },
                    _ => {},
                }
            }
        },
        NodeType::ConditionalExp | NodeType::Stmt(StmtType::Conditional) => {
            if n == 1 {
                lemma_balanced(tree.child[0], map, idx, rax, stack, base);
            } else {
                lemma_balanced(tree.child[0], map, idx, rax, stack, base);
                match meaning(tree.child[0], map, idx, rax, stack, base) {
                    Some(Flow::Value(c, s)) => {
                        if c != 0 {
                            lemma_balanced(tree.child[1], map, idx, c, s, base);
                        } else if n == 3 {
                            lemma_balanced(tree.child[2], map, idx, c, s, base);
                        }
                    },
                    _ => {},
                }
            }
        },
        NodeType::Stmt(StmtType::Compound) => {
            lemma_block_balanced(tree, map, idx, rax, stack, base);
        },
        _ => {
            lemma_balanced(tree.child[0], map, idx, rax, stack, base);
        },
    }
}

/// The items of a block that run to their end leave one word more on the
/// stack for each declaration among them.
pub proof fn lemma_items_balanced(
    tree: ParseNode,
    i: int,
    map: Map<Seq<char>, int>,
    idx: int,
    rax: int,
    stack: Seq<int>,
    base: int,
)
    requires
        0 <= i,
        meaning_items(tree, i, map, idx, rax, stack, base) matches Some(Flow::Value(_, _)),
    ensures
        meaning_items(tree, i, map, idx, rax, stack, base) matches Some(Flow::Value(_, s))
            && s.len() == stack.len() + declarations_from(tree, i),
    decreases tree, 0nat, tree.child.len() - i,
{
    if i < tree.child.len() {
        let item = tree.child[i];
        match item.entry {
            NodeType::Declare(name) => {
                let slot = idx - 8;
                let new_map = map.insert(name@, slot);
                if item.child.len() == 0 {
                    lemma_items_balanced(tree, i + 1, new_map, slot, 0, stack.push(0), base);
                } else {
                    lemma_balanced(item.child[0], new_map, slot, rax, stack, base);
                    match meaning(item.child[0], new_map, slot, rax, stack, base) {
                        Some(Flow::Value(v, s)) => {
                            lemma_items_balanced(tree, i + 1, new_map, slot, v, s.push(v), base);
                        },
                        _ => {},
                    }
                }
            },
            NodeType::Stmt(StmtType::Compound) => {
                lemma_block_balanced(item, map, idx, rax, stack, base);
                match meaning_block(item, map, idx, rax, stack, base) {
                    Some(Flow::Value(v, s)) => {
                        lemma_items_balanced(tree, i + 1, map, idx, v, s, base);
                    },
                    _ => {},
                }
            },
            _ => {
                lemma_balanced(item, map, idx, rax, stack, base);
                match meaning(item, map, idx, rax, stack, base) {
                    Some(Flow::Value(v, s)) => {
                        lemma_items_balanced(tree, i + 1, map, idx, v, s, base);
                    },
                    _ => {},
                }
            },
        }
    }
}

/// A block that runs to its end leaves as many words on the stack as it
/// found: it releases what its declarations have pushed.
pub proof fn lemma_block_balanced(
    tree: ParseNode,
    map: Map<Seq<char>, int>,
    idx: int,
    rax: int,
    stack: Seq<int>,
    base: int,
)
    requires
        meaning_block(tree, map, idx, rax, stack, base) matches Some(Flow::Value(_, _)),
    ensures
        meaning_block(tree, map, idx, rax, stack, base) matches Some(Flow::Value(_, s)) && s.len()
            == stack.len(),
    decreases tree, 1nat, 0nat,
{
    lemma_items_balanced(tree, 0, map, idx, rax, stack, base);
}

/// A statement that returns on every path does not run to its end.
pub proof fn lemma_always_returns(
    tree: ParseNode,
    map: Map<Seq<char>, int>,
    idx: int,
    rax: int,
    stack: Seq<int>,
    base: int,
)
    requires
        always_returns(tree),
    ensures
        !(meaning(tree, map, idx, rax, stack, base) matches Some(Flow::Value(_, _))),
    decreases tree, 2nat, 0nat,
{
    match tree.entry {
        NodeType::Stmt(StmtType::Conditional) => {
            match meaning(tree.child[0], map, idx, rax, stack, base) {
                Some(Flow::Value(c, s)) => {
                    if c != 0 {
                        lemma_always_returns(tree.child[1], map, idx, c, s, base);
                    } else {
                        lemma_always_returns(tree.child[2], map, idx, c, s, base);
                    }
                },
                _ => {},
            }
        },
        NodeType::Stmt(StmtType::Compound) => {
            lemma_block_always_returns(tree, map, idx, rax, stack, base);
        },
        NodeType::Block => {
            lemma_always_returns(tree.child[0], map, idx, rax, stack, base);
        },
        _ => {},
    }
}

/// Items of which one returns on every path do not run to their end.
pub proof fn lemma_items_always_return(
    tree: ParseNode,
    i: int,
    map: Map<Seq<char>, int>,
    idx: int,
    rax: int,
    stack: Seq<int>,
    base: int,
)
    requires
        some_item_returns(tree, i),
    ensures
        !(meaning_items(tree, i, map, idx, rax, stack, base) matches Some(Flow::Value(_, _))),
    decreases tree, 0nat, tree.child.len() - i,
{
    let item = tree.child[i];
    match item.entry {
        NodeType::Declare(name) => {
            let slot = idx - 8;
            let new_map = map.insert(name@, slot);
            assert(!always_returns(item));
            if item.child.len() == 0 {
                lemma_items_always_return(tree, i + 1, new_map, slot, 0, stack.push(0), base);
            } else if item.child.len() == 1 {
                match meaning(item.child[0], new_map, slot, rax, stack, base) {
                    Some(Flow::Value(v, s)) => {
                        lemma_items_always_return(tree, i + 1, new_map, slot, v, s.push(v), base);
                    },
                    _ => {},
                }
            }
        },
        NodeType::Stmt(StmtType::Compound) => {
            if always_returns(item) {
                lemma_block_always_returns(item, map, idx, rax, stack, base);
            } else {
                match meaning_block(item, map, idx, rax, stack, base) {
                    Some(Flow::Value(v, s)) => {
                        lemma_items_always_return(tree, i + 1, map, idx, v, s, base);
                    },
                    _ => {},
                }
            }
        },
        _ => {
            if always_returns(item) {
                lemma_always_returns(item, map, idx, rax, stack, base);
            } else {
                match meaning(item, map, idx, rax, stack, base) {
                    Some(Flow::Value(v, s)) => {
                        lemma_items_always_return(tree, i + 1, map, idx, v, s, base);
                    },
                    _ => {},
                }
            }
        },
    }
}

/// A block of which one item returns on every path does not run to its
/// end.
pub proof fn lemma_block_always_returns(
    tree: ParseNode,
    map: Map<Seq<char>, int>,
    idx: int,
    rax: int,
    stack: Seq<int>,
    base: int,
)
    requires
        some_item_returns(tree, 0),
    ensures
        !(meaning_block(tree, map, idx, rax, stack, base) matches Some(Flow::Value(_, _))),
    decreases tree, 1nat, 0nat,
{
    lemma_items_always_return(tree, 0, map, idx, rax, stack, base);
}

/// A function whose body has a meaning returns a value: what the body
/// returns, or 0 where the body runs to its end.
pub proof fn law_function_returns(tree: ParseNode, rax: int, stack: Seq<int>, base: int)
    requires
        tree.entry is Fn,
        meaning_block(
            tree,
            Map::empty(),
            0,
            rax,
            stack.push(base),
            stack.len() as int + 1,
        ) is Some,
    ensures
        function_value(tree, rax, stack, base) == Some(
            match meaning_block(tree, Map::empty(), 0, rax, stack.push(base), stack.len() as int + 1)->0 {
                Flow::Returned(v) => v,
                Flow::Value(_, _) => 0,
            },
        ),
{
    let framed = stack.push(base);
    match meaning_block(tree, Map::empty(), 0, rax, framed, framed.len() as int)->0 {
        Flow::Returned(_) => {},
        Flow::Value(_, _) => {
            lemma_block_balanced(tree, Map::empty(), 0, rax, framed, framed.len() as int);
            if always_returns(tree) {
                lemma_block_always_returns(tree, Map::empty(), 0, rax, framed, framed.len() as int);
            }
        },
    }
}

/// The prologue saves the caller's frame base and opens a frame.
pub proof fn lemma_prologue_runs(
    code: Seq<Instr>,
    p: int,
    name: Seq<char>,
    label: Seq<char>,
    m: Machine,
)
    requires
        placed(code, p, prologue(name, label)),
        m.pc == p,
    ensures
        arrives(run(code, m, 10), p + 10, m.rax, m.stack.push(m.base), m.stack.len() as int + 1),
{
    let lines = prologue(name, label);
    reveal(step);
    lemma_line(code, p, lines, 0);
    lemma_line(code, p, lines, 1);
    lemma_line(code, p, lines, 2);
    lemma_line(code, p, lines, 3);
    lemma_line(code, p, lines, 4);
    lemma_line(code, p, lines, 5);
    lemma_line(code, p, lines, 6);
    lemma_line(code, p, lines, 7);
    lemma_line(code, p, lines, 8);
    lemma_line(code, p, lines, 9);
    lemma_next(code, m, 0, m);
    let m1 = step(code, m)->Running_0;
    lemma_next(code, m, 1, m1);
    let m2 = step(code, m1)->Running_0;
    lemma_next(code, m, 2, m2);
    let m3 = step(code, m2)->Running_0;
    lemma_next(code, m, 3, m3);
    let m4 = step(code, m3)->Running_0;
    lemma_next(code, m, 4, m4);
    let m5 = step(code, m4)->Running_0;
    lemma_next(code, m, 5, m5);
    let m6 = step(code, m5)->Running_0;
    lemma_next(code, m, 6, m6);
    let m7 = step(code, m6)->Running_0;
    lemma_next(code, m, 7, m7);
    let m8 = step(code, m7)->Running_0;
    lemma_next(code, m, 8, m8);
    let m9 = step(code, m8)->Running_0;
    lemma_next(code, m, 9, m9);
}

/// The lines after a body that runs to its end return 0.
pub proof fn lemma_fallback_runs(code: Seq<Instr>, p: int, m: Machine)
    requires
        placed(code, p, fallback()),
        m.pc == p,
        1 <= m.base <= m.stack.len(),
    ensures
        run(code, m, 5) == Outcome::Exit(0),
{
    let lines = fallback();
    reveal(step);
    lemma_line(code, p, lines, 0);
    lemma_line(code, p, lines, 1);
    lemma_line(code, p, lines, 2);
    lemma_line(code, p, lines, 3);
    lemma_line(code, p, lines, 4);
    lemma_next(code, m, 0, m);
    let m1 = step(code, m)->Running_0;
    lemma_next(code, m, 1, m1);
    let m2 = step(code, m1)->Running_0;
    lemma_next(code, m, 2, m2);
    let m3 = step(code, m2)->Running_0;
    lemma_next(code, m, 3, m3);
    let m4 = step(code, m3)->Running_0;
    lemma_next(code, m, 4, m4);
}

/// Run on the machine from its first line, a function's lines return the
/// function's value.
pub proof fn lemma_function_runs(code: Seq<Instr>, p: int, tree: ParseNode, next: nat, m: Machine) -> (fuel:
    nat)
    requires
        labels_unique(code),
        lower_function(tree, next) is Ok,
        placed(code, p, lower_function(tree, next)->Ok_0.lines),
        m.pc == p,
        function_value(tree, m.rax, m.stack, m.base) is Some,
    ensures
        run(code, m, fuel) == Outcome::Exit(function_value(tree, m.rax, m.stack, m.base)->0),
{
    match tree.entry {
        NodeType::Fn(name) => {
            let body = lower_block(tree, Map::empty(), 0, next + 1)->Ok_0;
            let open = prologue(name@, label_text("FB"@, next));
            let falls = if always_returns(tree) {
                Seq::<Instr>::empty()
            } else {
                fallback()
            };
            let close = seq![
                Instr::CfiEnd,
                Instr::Label(label_text("FE"@, body.next)),
                Instr::Size(name@),
            ];
            lemma_placed_split(code, p, open + body.lines + falls + epilogue(), close);
            lemma_placed_split(code, p, open + body.lines + falls, epilogue());
            lemma_placed_split(code, p, open + body.lines, falls);
            lemma_placed_split(code, p, open, body.lines);
            lemma_prologue_runs(code, p, name@, label_text("FB"@, next), m);
            let m1 = run(code, m, 10)->Running_0;
            let f1 = lemma_block_runs(code, p + 10, tree, Map::empty(), 0, next + 1, m1);
            lemma_then(code, m, 10, m1, f1);
            match meaning_block(tree, Map::empty(), 0, m1.rax, m1.stack, m1.base)->0 {
                Flow::Returned(_) => 10 + f1,
                Flow::Value(_, _) => {
                    let m2 = run(code, m1, f1)->Running_0;
                    lemma_fallback_runs(code, p + 10 + body.lines.len(), m2);
                    lemma_then(code, m, 10 + f1, m2, 5);
                    10 + f1 + 5
                },
            }
        },
        _ => 0,
    }
}

/// Whether the node is a relational, equality or logical operator.
pub open spec fn is_truth_valued(tree: ParseNode) -> bool {
    match tree.entry {
        NodeType::BinExp(op) => comparison(op) is Some || op is Or || op is And,
        NodeType::UnExp(op) => op is Exclamation,
        _ => false,
    }
}

/// The value of a relational, equality or logical operator is 0 or 1.
pub proof fn law_truth_values(
    tree: ParseNode,
    map: Map<Seq<char>, int>,
    idx: int,
    rax: int,
    stack: Seq<int>,
    base: int,
)
    requires
        is_truth_valued(tree),
        meaning(tree, map, idx, rax, stack, base) matches Some(Flow::Value(_, _)),
    ensures
        meaning(tree, map, idx, rax, stack, base) matches Some(Flow::Value(v, _)) && (v == 0 || v
            == 1),
{
}

/// Run on the machine, the lines of a relational, equality or logical
/// operator that run to their end leave 0 or 1 in the result register.
pub proof fn law_boolean_normalisation(
    code: Seq<Instr>,
    p: int,
    tree: ParseNode,
    map: Map<Seq<char>, int>,
    idx: int,
    next: nat,
    m: Machine,
) -> (fuel: nat)
    requires
        ready(code, p, tree, map, idx, next, m),
        is_truth_valued(tree),
        meaning(tree, map, idx, m.rax, m.stack, m.base) matches Some(Flow::Value(_, _)),
    ensures
        run(code, m, fuel) matches Outcome::Running(after) && after.pc == p + lower_stmt(
            tree,
            map,
            idx,
            next,
        )->Ok_0.lines.len() && (after.rax == 0 || after.rax == 1),
{
    law_truth_values(tree, map, idx, m.rax, m.stack, m.base);
    lemma_stmt_runs(code, p, tree, map, idx, next, m)
}

/// Where the left operand of `&&` is 0, the lines of the operator leave 0
/// and the stack of the left operand, whatever the right operand is: its
/// lines are not run, so that it cannot trap.
pub proof fn law_and_skips_right_operand(
    code: Seq<Instr>,
    p: int,
    tree: ParseNode,
    map: Map<Seq<char>, int>,
    idx: int,
    next: nat,
    m: Machine,
) -> (fuel: nat)
    requires
        labels_unique(code),
        tree.entry == NodeType::BinExp(TokType::And),
        lower_stmt(tree, map, idx, next) is Ok,
        placed(code, p, lower_stmt(tree, map, idx, next)->Ok_0.lines),
        m.pc == p,
        meaning(tree.child[0], map, idx, m.rax, m.stack, m.base) matches Some(Flow::Value(v, _))
            && v == 0,
    ensures
        meaning(tree, map, idx, m.rax, m.stack, m.base) == meaning(
            tree.child[0],
            map,
            idx,
            m.rax,
            m.stack,
            m.base,
        ),
        arrives(
            run(code, m, fuel),
            p + lower_stmt(tree, map, idx, next)->Ok_0.lines.len(),
            0,
            meaning(tree.child[0], map, idx, m.rax, m.stack, m.base)->0->Value_1,
            m.base,
        ),
{
    lemma_stmt_runs(code, p, tree, map, idx, next, m)
}

/// Where the left operand of `||` is not 0, the lines of the operator leave
/// 1 and the stack of the left operand, whatever the right operand is: its
/// lines are not run, so that it cannot trap.
pub proof fn law_or_skips_right_operand(
    code: Seq<Instr>,
    p: int,
    tree: ParseNode,
    map: Map<Seq<char>, int>,
    idx: int,
    next: nat,
    m: Machine,
) -> (fuel: nat)
    requires
        labels_unique(code),
        tree.entry == NodeType::BinExp(TokType::Or),
        lower_stmt(tree, map, idx, next) is Ok,
        placed(code, p, lower_stmt(tree, map, idx, next)->Ok_0.lines),
        m.pc == p,
        meaning(tree.child[0], map, idx, m.rax, m.stack, m.base) matches Some(Flow::Value(v, _))
            && v != 0,
    ensures
        arrives(
            run(code, m, fuel),
            p + lower_stmt(tree, map, idx, next)->Ok_0.lines.len(),
            1,
            meaning(tree.child[0], map, idx, m.rax, m.stack, m.base)->0->Value_1,
            m.base,
        ),
{
    lemma_stmt_runs(code, p, tree, map, idx, next, m)
}

/// Whether the tree is an expression: no statement, declaration, function
/// or program is in it.
pub open spec fn is_expression(tree: ParseNode) -> bool
    decreases tree, 1nat, 0nat,
{
    !(tree.entry is Stmt || tree.entry is Declare || tree.entry is Fn || tree.entry is Prog)
        && all_expressions(tree, 0)
}

/// Whether the children from the `i`-th on are expressions.
pub open spec fn all_expressions(tree: ParseNode, i: int) -> bool
    decreases tree, 0nat, tree.child.len() - i,
{
    i < 0 || i >= tree.child.len() || (is_expression(tree.child[i]) && all_expressions(tree, i + 1))
}

/// The children of an expression are expressions.
pub proof fn lemma_child_expression(tree: ParseNode, i: int, k: int)
    requires
        all_expressions(tree, i),
        0 <= i <= k < tree.child.len(),
    ensures
        is_expression(tree.child[k]),
    decreases k - i,
{
    if i < k {
        lemma_child_expression(tree, i + 1, k);
    }
}

/// Whether every slot that the map names lies below the stack index
/// `limit`.
pub open spec fn map_below(map: Map<Seq<char>, int>, base: int, limit: int) -> bool {
    forall|name: Seq<char>| #[trigger]
        map.contains_key(name) && map[name] < 0 && map[name] % 8 == 0 ==> base + (-map[name]) / 8
            - 1 < limit
}

/// An expression runs to its end, and leaves the stack as long as it was
/// and the words from `limit` on as they were, where its variables lie
/// below `limit`.
pub proof fn lemma_expression_keeps(
    tree: ParseNode,
    map: Map<Seq<char>, int>,
    idx: int,
    rax: int,
    stack: Seq<int>,
    base: int,
    limit: int,
)
    requires
        is_expression(tree),
        map_below(map, base, limit),
        0 <= limit <= stack.len(),
        meaning(tree, map, idx, rax, stack, base) is Some,
    ensures
        meaning(tree, map, idx, rax, stack, base) matches Some(Flow::Value(_, s)) && s.len()
            == stack.len() && (forall|i: int| limit <= i < stack.len() ==> s[i] == stack[i]),
    decreases tree, 2nat, 0nat,
{
    let n = tree.child.len();
    if n >= 1 {
        lemma_child_expression(tree, 0, 0);
    }
    if n >= 2 {
        lemma_child_expression(tree, 0, 1);
    }
    if n >= 3 {
        lemma_child_expression(tree, 0, 2);
    }
    match tree.entry {
        NodeType::Const(_) | NodeType::Var(_) => {},
        NodeType::BinExp(op) => {
            if op is Or || op is And {
                lemma_expression_keeps(tree.child[0], map, idx, rax, stack, base, limit);
                match meaning(tree.child[0], map, idx, rax, stack, base) {
                    Some(Flow::Value(left, s)) => {
                        if (left != 0) != (op is Or) {
                            lemma_expression_keeps(tree.child[1], map, idx, left, s, base, limit);
                        }
                    },
                    _ => {},
                }
            } else {
                let first: int = if right_first(op) { 1 } else { 0 };
                lemma_expression_keeps(tree.child[first], map, idx, rax, stack, base, limit);
                match meaning(tree.child[first], map, idx, rax, stack, base) {
                    Some(Flow::Value(pushed, s)) => {
                        lemma_expression_keeps(
                            tree.child[1 - first],
                            map,
                            idx,
                            pushed,
                            s.push(pushed),
                            base,
                            limit,
                        );
                    },
                    _ => {},
                }
            }
        },
        NodeType::ConditionalExp => {
            lemma_expression_keeps(tree.child[0], map, idx, rax, stack, base, limit);
            if n == 3 {
                match meaning(tree.child[0], map, idx, rax, stack, base) {
                    Some(Flow::Value(c, s)) => {
                        if c != 0 {
                            lemma_expression_keeps(tree.child[1], map, idx, c, s, base, limit);
                        } else {
                            lemma_expression_keeps(tree.child[2], map, idx, c, s, base, limit);
                        }
                    },
                    _ => {},
                }
            }
        },
        _ => {
            lemma_expression_keeps(tree.child[0], map, idx, rax, stack, base, limit);
        },
    }
}

/// The lines of `left - right` subtract the right operand from the left
/// one: the right operand is lowered first and saved, and the left operand
/// is in the result register when the second register is taken from it.
pub proof fn law_subtraction_operands(
    tree: ParseNode,
    map: Map<Seq<char>, int>,
    idx: int,
    rax: int,
    stack: Seq<int>,
    base: int,
)
    requires
        tree.entry == NodeType::BinExp(TokType::Minus),
        tree.child.len() == 2,
        is_expression(tree.child[0]),
        is_expression(tree.child[1]),
        map_below(map, base, stack.len() as int),
        meaning(tree.child[1], map, idx, rax, stack, base) matches Some(Flow::Value(right, s))
            && meaning(tree.child[0], map, idx, right, s.push(right), base) is Some,
    ensures
        ({
            let right = meaning(tree.child[1], map, idx, rax, stack, base)->0->Value_0;
            let s = meaning(tree.child[1], map, idx, rax, stack, base)->0->Value_1;
            let left = meaning(tree.child[0], map, idx, right, s.push(right), base)->0->Value_0;
            let after = meaning(tree.child[0], map, idx, right, s.push(right), base)->0->Value_1;
            meaning(tree, map, idx, rax, stack, base) == Some(
                Flow::Value(wrap64(left - right), after.drop_last()),
            )
        }),
{
    let stack_limit = stack.len() as int;
    lemma_expression_keeps(tree.child[1], map, idx, rax, stack, base, stack_limit);
    let right = meaning(tree.child[1], map, idx, rax, stack, base)->0->Value_0;
    let s = meaning(tree.child[1], map, idx, rax, stack, base)->0->Value_1;
    lemma_expression_keeps(tree.child[0], map, idx, right, s.push(right), base, stack_limit);
}

/// The quotient of a dividend that is not negative, rounded towards zero.
pub open spec fn quotient_towards_zero(dividend: int, divisor: int) -> int {
    if divisor > 0 {
        dividend / divisor
    } else {
        -(dividend / (-divisor))
    }
}

/// The division of a 64-bit dividend that is not negative by a divisor that
/// is not zero gives the quotient rounded towards zero.
pub proof fn lemma_divide_nonnegative(dividend: int, divisor: int)
    requires
        0 <= dividend,
        fits64(dividend),
        divisor != 0,
    ensures
        divide(0, dividend, divisor) matches Some((q, _)) && q == quotient_towards_zero(
            dividend,
            divisor,
        ),
{
    let d = if divisor < 0 {
        -divisor
    } else {
        divisor
    };
    assert(0 <= dividend / d <= dividend) by (nonlinear_arith)
        requires
            0 <= dividend,
            d >= 1,
    ;
}

/// The lines of `left / right` divide the left operand by the right one:
/// the right operand is lowered first and saved, and the left operand is the
/// dividend. For a left operand that is not negative the value is the
/// quotient rounded towards zero; a right operand of 0 has no value.
pub proof fn law_division_operands(
    tree: ParseNode,
    map: Map<Seq<char>, int>,
    idx: int,
    rax: int,
    stack: Seq<int>,
    base: int,
)
    requires
        tree.entry == NodeType::BinExp(TokType::Splash),
        tree.child.len() == 2,
        is_expression(tree.child[0]),
        is_expression(tree.child[1]),
        map_below(map, base, stack.len() as int),
        meaning(tree.child[1], map, idx, rax, stack, base) matches Some(Flow::Value(right, s))
            && meaning(tree.child[0], map, idx, right, s.push(right), base) is Some,
    ensures
        ({
            let right = meaning(tree.child[1], map, idx, rax, stack, base)->0->Value_0;
            let s = meaning(tree.child[1], map, idx, rax, stack, base)->0->Value_1;
            let left = meaning(tree.child[0], map, idx, right, s.push(right), base)->0->Value_0;
            let after = meaning(tree.child[0], map, idx, right, s.push(right), base)->0->Value_1;
            &&& meaning(tree, map, idx, rax, stack, base) == (match divide(0, left, right) {
                Some((q, _)) => Some(Flow::Value(q, after.drop_last())),
                None => None,
            })
            &&& right == 0 ==> meaning(tree, map, idx, rax, stack, base) is None
            &&& 0 <= left && fits64(left) && right != 0 ==> meaning(tree, map, idx, rax, stack, base)
                == Some(Flow::Value(quotient_towards_zero(left, right), after.drop_last()))
        }),
{
    let stack_limit = stack.len() as int;
    lemma_expression_keeps(tree.child[1], map, idx, rax, stack, base, stack_limit);
    let right = meaning(tree.child[1], map, idx, rax, stack, base)->0->Value_0;
    let s = meaning(tree.child[1], map, idx, rax, stack, base)->0->Value_1;
    lemma_expression_keeps(tree.child[0], map, idx, right, s.push(right), base, stack_limit);
    let left = meaning(tree.child[0], map, idx, right, s.push(right), base)->0->Value_0;
    if 0 <= left && fits64(left) && right != 0 {
        lemma_divide_nonnegative(left, right);
    }
}

/// Lines that stand in a run of lines stand in it when other lines are put
/// before and after.
pub proof fn lemma_placed_within(
    before: Seq<Instr>,
    code: Seq<Instr>,
    after: Seq<Instr>,
    p: int,
    lines: Seq<Instr>,
)
    requires
        placed(code, p, lines),
    ensures
        placed(before + code + after, before.len() + p, lines),
{
    let whole = before + code + after;
    assert forall|k: int| 0 <= k < lines.len() implies whole[before.len() + p + k]
        == #[trigger] lines[k] by {
        lemma_line(code, p, lines, k);
        assert(whole[before.len() + p + k] == code[p + k]);
    }
}

/// Where the lines of the `k`-th function start among the lines of the
/// functions from the `i`-th on, and the number of the next free label
/// there, when the labels before the `i`-th function end at `next`.
pub open spec fn function_start(tree: ParseNode, i: int, next: nat, k: int) -> (int, nat)
    decreases k - i,
{
    if i >= k {
        (0, next)
    } else {
        let f = lower_function(tree.child[i], next)->Ok_0;
        let (offset, n) = function_start(tree, i + 1, f.next, k);
        (f.lines.len() + offset, n)
    }
}

/// The lines of the `k`-th function stand among the lines of the functions
/// where `function_start` says.
pub proof fn lemma_function_placed(tree: ParseNode, i: int, next: nat, k: int)
    requires
        0 <= i <= k < tree.child.len(),
        lower_functions(tree, i, next) is Ok,
    ensures
        ({
            let (offset, n) = function_start(tree, i, next, k);
            &&& lower_function(tree.child[k], n) is Ok
            &&& placed(
                lower_functions(tree, i, next)->Ok_0.lines,
                offset,
                lower_function(tree.child[k], n)->Ok_0.lines,
            )
        }),
    decreases k - i,
{
    let f = lower_function(tree.child[i], next)->Ok_0;
    let rest = lower_functions(tree, i + 1, f.next)->Ok_0;
    let none = Seq::<Instr>::empty();
    if i == k {
        assert(placed(f.lines, 0, f.lines));
        lemma_placed_within(none, f.lines, rest.lines, 0, f.lines);
        assert(none + f.lines + rest.lines =~= f.lines + rest.lines);
    } else {
        lemma_function_placed(tree, i + 1, f.next, k);
        let (offset, n) = function_start(tree, i + 1, f.next, k);
        lemma_placed_within(f.lines, rest.lines, none, offset, lower_function(tree.child[k], n)->Ok_0.lines);
        assert(f.lines + rest.lines + none =~= f.lines + rest.lines);
    }
}

/// The lines of a lowered program do what its functions mean: entered at
/// the first line of its `k`-th function, the machine returns the
/// function's value to the caller.
pub proof fn theorem_program_runs(tree: ParseNode, next: nat, k: int, m: Machine) -> (fuel: nat)
    requires
        lower_program(tree, next) is Ok,
        0 <= k < tree.child.len(),
        m.pc == 1 + function_start(tree, 0, next, k).0,
        function_value(tree.child[k], m.rax, m.stack, m.base) is Some,
    ensures
        run(lower_program(tree, next)->Ok_0.lines, m, fuel) == Outcome::Exit(
            function_value(tree.child[k], m.rax, m.stack, m.base)->0,
        ),
{
    match tree.entry {
        NodeType::Prog(name) => {
            let code = lower_program(tree, next)->Ok_0.lines;
            let functions = lower_functions(tree, 0, next)->Ok_0;
            let (offset, n) = function_start(tree, 0, next, k);
            law_program_labels_unique(tree, next);
            lemma_function_placed(tree, 0, next, k);
            lemma_placed_within(
                seq![Instr::File(name@)],
                functions.lines,
                seq![Instr::Ident, Instr::NoExecStack],
                offset,
                lower_function(tree.child[k], n)->Ok_0.lines,
            );
            lemma_function_runs(code, 1 + offset, tree.child[k], n, m)
        },
        _ => 0,
    }
}

/// Whether the cursor stands at the top of the stack: the frame holds as
/// many words above its base as the cursor is slots below it.
pub open spec fn cursor_at_top(idx: int, len: nat, base: int) -> bool {
    0 <= base <= len && idx == -8 * (len - base)
}

/// The push of a declaration is the allocation of its variable: where the
/// cursor stands at the top of the stack, the slot that the new frame map
/// gives the variable is the word that the declaration pushes, it holds the
/// initial value, and the cursor stands at the top again.
pub proof fn law_declaration_allocates(
    tree: ParseNode,
    map: Map<Seq<char>, int>,
    idx: int,
    rax: int,
    stack: Seq<int>,
    base: int,
)
    requires
        tree.entry is Declare,
        tree.child.len() <= 1,
        cursor_at_top(idx, stack.len(), base),
        tree.child.len() == 1 ==> meaning(
            tree.child[0],
            map.insert(tree.entry->Declare_0@, idx - 8),
            idx - 8,
            rax,
            stack,
            base,
        ) matches Some(Flow::Value(_, _)),
    ensures
        ({
            let name = tree.entry->Declare_0@;
            let new_map = map.insert(name, idx - 8);
            let initial = if tree.child.len() == 0 {
                Flow::Value(0, stack)
            } else {
                meaning(tree.child[0], new_map, idx - 8, rax, stack, base)->0
            };
            let pushed = initial->Value_1.push(initial->Value_0);
            &&& pushed.len() == stack.len() + 1
            &&& cursor_at_top(idx - 8, pushed.len(), base)
            &&& slot_index(base, pushed.len(), new_map[name]) == Some(stack.len() as int)
            &&& pushed[stack.len() as int] == initial->Value_0
        }),
{
    if tree.child.len() == 1 {
        lemma_balanced(
            tree.child[0],
            map.insert(tree.entry->Declare_0@, idx - 8),
            idx - 8,
            rax,
            stack,
            base,
        );
    }
}

} // verus!
