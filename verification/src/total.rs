//! A tree that lowers, holds no division and initialises no variable from
//! itself has a meaning: its lines run to their end or to a return, and
//! never fault.

use crate::ast::{NodeType, ParseNode, StmtType, TokType};
use crate::behaviour::{
    function_start, is_expression, lemma_balanced, lemma_block_balanced, lemma_child_expression,
    lemma_function_placed, lemma_items_balanced, theorem_program_runs,
};
use crate::lower::{
    lower_block, lower_declare, lower_function, lower_items, lower_program, lower_stmt,
    right_first,
};
use crate::machine::{run, slot_index, Machine, Outcome};
use crate::meaning::{function_value, meaning, meaning_block, meaning_items, Flow};
use vstd::prelude::*;

verus! {

/// Whether no node of the tree is a division.
pub open spec fn division_free(tree: ParseNode) -> bool
    decreases tree, 1nat, 0nat,
{
    tree.entry != NodeType::BinExp(TokType::Splash) && children_division_free(tree, 0)
}

/// Whether no node below the children from the `i`-th on is a division.
pub open spec fn children_division_free(tree: ParseNode, i: int) -> bool
    decreases tree, 0nat, tree.child.len() - i,
{
    i < 0 || i >= tree.child.len() || (division_free(tree.child[i]) && children_division_free(
        tree,
        i + 1,
    ))
}

/// A child of a tree without a division holds none.
pub proof fn lemma_child_division_free(tree: ParseNode, i: int, k: int)
    requires
        children_division_free(tree, i),
        0 <= i <= k < tree.child.len(),
    ensures
        division_free(tree.child[k]),
        children_division_free(tree, k),
    decreases k - i,
{
    if i < k {
        lemma_child_division_free(tree, i + 1, k);
    }
}

/// Whether a node of the tree reads or assigns the variable `name`.
pub open spec fn mentions(tree: ParseNode, name: Seq<char>) -> bool
    decreases tree, 1nat, 0nat,
{
    ||| tree.entry matches NodeType::Var(n) && n@ == name
    ||| tree.entry matches NodeType::AssignNode(n) && n@ == name
    ||| children_mention(tree, 0, name)
}

/// Whether a node below the children from the `i`-th on reads or assigns
/// the variable `name`.
pub open spec fn children_mention(tree: ParseNode, i: int, name: Seq<char>) -> bool
    decreases tree, 0nat, tree.child.len() - i,
{
    0 <= i < tree.child.len() && (mentions(tree.child[i], name) || children_mention(
        tree,
        i + 1,
        name,
    ))
}

/// A variable that a child mentions is mentioned by the tree.
pub proof fn lemma_child_mentions(tree: ParseNode, i: int, k: int, name: Seq<char>)
    requires
        0 <= i <= k < tree.child.len(),
        mentions(tree.child[k], name),
    ensures
        children_mention(tree, i, name),
    decreases k - i,
{
    if i < k {
        lemma_child_mentions(tree, i + 1, k, name);
    }
}

/// Whether every initialiser in the tree is an expression that does not
/// mention the variable that it initialises.
pub open spec fn initialisers_sound(tree: ParseNode) -> bool
    decreases tree, 1nat, 0nat,
{
    &&& match tree.entry {
        NodeType::Declare(name) => tree.child.len() == 1 ==> is_expression(tree.child[0])
            && !mentions(tree.child[0], name@),
        _ => true,
    }
    &&& children_sound(tree, 0)
}

/// Whether the initialisers below the children from the `i`-th on are sound.
pub open spec fn children_sound(tree: ParseNode, i: int) -> bool
    decreases tree, 0nat, tree.child.len() - i,
{
    i < 0 || i >= tree.child.len() || (initialisers_sound(tree.child[i]) && children_sound(
        tree,
        i + 1,
    ))
}

/// The initialisers of a child of a tree with sound initialisers are sound.
pub proof fn lemma_child_sound(tree: ParseNode, i: int, k: int)
    requires
        children_sound(tree, i),
        0 <= i <= k < tree.child.len(),
    ensures
        initialisers_sound(tree.child[k]),
        children_sound(tree, k),
    decreases k - i,
{
    if i < k {
        lemma_child_sound(tree, i + 1, k);
    }
}

/// Whether every variable of the map but `pending` has a slot on a stack of
/// `len` words.
pub open spec fn readable(map: Map<Seq<char>, int>, pending: Seq<char>, len: nat, base: int) -> bool {
    forall|name: Seq<char>| #[trigger]
        map.contains_key(name) && name != pending ==> slot_index(base, len, map[name]) is Some
}

/// Variables that have a slot keep it when the stack grows.
pub proof fn lemma_readable_grows(
    map: Map<Seq<char>, int>,
    pending: Seq<char>,
    len: nat,
    more: nat,
    base: int,
)
    requires
        readable(map, pending, len, base),
        len <= more,
    ensures
        readable(map, pending, more, base),
{
    assert forall|name: Seq<char>| #[trigger]
        map.contains_key(name) && name != pending implies slot_index(base, more, map[name]) is Some by {
        assert(slot_index(base, len, map[name]) is Some);
    }
}

/// In a frame that can hold its variables, every variable has a slot.
pub proof fn lemma_frame_readable(map: Map<Seq<char>, int>, idx: int, len: nat, base: int, name: Seq<char>)
    requires
        frame_ok(map, idx, len, base),
        map.contains_key(name),
    ensures
        slot_index(base, len, map[name]) is Some,
{
    let off = map[name];
    assert((-off) / 8 <= (-idx) / 8);
}

/// A declaration keeps the frame able to hold its variables once its word
/// is pushed; before that, every variable but the new one has a slot.
pub proof fn lemma_frame_declare(
    map: Map<Seq<char>, int>,
    idx: int,
    len: nat,
    base: int,
    name: Seq<char>,
)
    requires
        frame_ok(map, idx, len, base),
    ensures
        frame_ok(map.insert(name, idx - 8), idx - 8, len + 1, base),
        readable(map.insert(name, idx - 8), name, len, base),
{
    let new_map = map.insert(name, idx - 8);
    assert((-(idx - 8)) / 8 == (-idx) / 8 + 1);
    assert forall|n: Seq<char>| #[trigger] new_map.contains_key(n) && n != name implies slot_index(
        base,
        len,
        new_map[n],
    ) is Some by {
        assert(map.contains_key(n));
        lemma_frame_readable(map, idx, len, base, n);
    }
    assert forall|n: Seq<char>| #[trigger] new_map.contains_key(n) implies idx - 8 <= new_map[n] < 0
        && new_map[n] % 8 == 0 by {
        if n != name {
            assert(map.contains_key(n));
        }
    }
}

/// An expression that lowers and holds no division has a value wherever
/// the variables that it may mention have slots.
#[verifier::rlimit(40)]
pub proof fn lemma_expression_total(
    tree: ParseNode,
    map: Map<Seq<char>, int>,
    idx: int,
    next: nat,
    rax: int,
    stack: Seq<int>,
    base: int,
    pending: Seq<char>,
)
    requires
        lower_stmt(tree, map, idx, next) is Ok,
        division_free(tree),
        is_expression(tree),
        !mentions(tree, pending),
        readable(map, pending, stack.len(), base),
    ensures
        meaning(tree, map, idx, rax, stack, base) matches Some(Flow::Value(_, s)) && s.len()
            == stack.len(),
    decreases tree, 2nat, 0nat,
{
    let n = tree.child.len();
    if n >= 1 {
        lemma_child_division_free(tree, 0, 0);
        lemma_child_expression(tree, 0, 0);
        if mentions(tree.child[0], pending) {
            lemma_child_mentions(tree, 0, 0, pending);
        }
    }
    if n >= 2 {
        lemma_child_division_free(tree, 0, 1);
        lemma_child_expression(tree, 0, 1);
        if mentions(tree.child[1], pending) {
            lemma_child_mentions(tree, 0, 1, pending);
        }
    }
    if n >= 3 {
        lemma_child_division_free(tree, 0, 2);
        lemma_child_expression(tree, 0, 2);
        if mentions(tree.child[2], pending) {
            lemma_child_mentions(tree, 0, 2, pending);
        }
    }
    match tree.entry {
        NodeType::Const(_) | NodeType::Var(_) => {},
        NodeType::BinExp(op) => {
            if op is Or || op is And {
                let left = lower_stmt(tree.child[0], map, idx, next + 2)->Ok_0;
                lemma_expression_total(tree.child[0], map, idx, next + 2, rax, stack, base, pending);
                match meaning(tree.child[0], map, idx, rax, stack, base) {
                    Some(Flow::Value(v, s)) => {
                        lemma_expression_total(
                            tree.child[1],
                            map,
                            idx,
                            left.next,
                            v,
                            s,
                            base,
                            pending,
                        );
                    },
                    _ => {},
                }
            } else {
                let first: int = if right_first(op) { 1 } else { 0 };
                let pushed = lower_stmt(tree.child[first], map, idx, next)->Ok_0;
                lemma_expression_total(tree.child[first], map, idx, next, rax, stack, base, pending);
                match meaning(tree.child[first], map, idx, rax, stack, base) {
                    Some(Flow::Value(v, s)) => {
                        lemma_readable_grows(map, pending, stack.len(), s.push(v).len(), base);
                        lemma_expression_total(
                            tree.child[1 - first],
                            map,
                            idx,
                            pushed.next,
                            v,
                            s.push(v),
                            base,
                            pending,
                        );
                    },
                    _ => {},
                }
            }
        },
        NodeType::ConditionalExp => {
            lemma_expression_total(tree.child[0], map, idx, next, rax, stack, base, pending);
            if n == 3 {
                let cond = lower_stmt(tree.child[0], map, idx, next)->Ok_0;
                let on_true = lower_stmt(tree.child[1], map, idx, cond.next)->Ok_0;
                match meaning(tree.child[0], map, idx, rax, stack, base) {
                    Some(Flow::Value(v, s)) => {
                        lemma_expression_total(
                            tree.child[1],
                            map,
                            idx,
                            cond.next,
                            v,
                            s,
                            base,
                            pending,
                        );
                        lemma_expression_total(
                            tree.child[2],
                            map,
                            idx,
                            on_true.next,
                            v,
                            s,
                            base,
                            pending,
                        );
                    },
                    _ => {},
                }
            }
        },
        _ => {
            lemma_expression_total(tree.child[0], map, idx, next, rax, stack, base, pending);
        },
    }
}

/// Whether the frame can hold what the map and the cursor name: the frame
/// has a base, the cursor is a slot boundary at or above the stack top, and
/// every variable has a slot at or above the cursor.
pub open spec fn frame_ok(map: Map<Seq<char>, int>, idx: int, len: nat, base: int) -> bool {
    &&& base >= 1
    &&& idx <= 0
    &&& idx % 8 == 0
    &&& base + (-idx) / 8 <= len
    &&& forall|name: Seq<char>| #[trigger]
        map.contains_key(name) ==> idx <= map[name] < 0 && map[name] % 8 == 0
}

/// A statement or an expression that lowers and holds no division has a
/// meaning in every frame that can hold its variables.
#[verifier::rlimit(40)]
pub proof fn lemma_total(
    tree: ParseNode,
    map: Map<Seq<char>, int>,
    idx: int,
    next: nat,
    rax: int,
    stack: Seq<int>,
    base: int,
)
    requires
        lower_stmt(tree, map, idx, next) is Ok,
        division_free(tree),
        initialisers_sound(tree),
        frame_ok(map, idx, stack.len(), base),
    ensures
        meaning(tree, map, idx, rax, stack, base) is Some,
    decreases tree, 2nat, 0nat,
{
    let n = tree.child.len();
    if n >= 1 {
        lemma_child_division_free(tree, 0, 0);
        lemma_child_sound(tree, 0, 0);
    }
    if n >= 2 {
        lemma_child_division_free(tree, 0, 1);
        lemma_child_sound(tree, 0, 1);
    }
    if n >= 3 {
        lemma_child_division_free(tree, 0, 2);
        lemma_child_sound(tree, 0, 2);
    }
    match tree.entry {
        NodeType::Const(_) => {},
        NodeType::Var(name) => {
            lemma_frame_readable(map, idx, stack.len(), base, name@);
        },
        NodeType::Prog(_) | NodeType::Fn(_) | NodeType::Declare(_) => {},
        NodeType::AssignNode(name) => {
            lemma_total(tree.child[0], map, idx, next, rax, stack, base);
            if meaning(tree.child[0], map, idx, rax, stack, base) matches Some(Flow::Value(_, _)) {
                lemma_balanced(tree.child[0], map, idx, rax, stack, base);
                lemma_frame_readable(map, idx, stack.len(), base, name@);
            }
        },
        NodeType::Stmt(StmtType::Return) => {
            lemma_total(tree.child[0], map, idx, next, rax, stack, base);
            if meaning(tree.child[0], map, idx, rax, stack, base) matches Some(Flow::Value(_, _)) {
                lemma_balanced(tree.child[0], map, idx, rax, stack, base);
            }
        },
        NodeType::BinExp(op) => {
            if op is Or || op is And {
                let left = lower_stmt(tree.child[0], map, idx, next + 2)->Ok_0;
                lemma_total(tree.child[0], map, idx, next + 2, rax, stack, base);
                match meaning(tree.child[0], map, idx, rax, stack, base) {
                    Some(Flow::Value(v, s)) => {
                        lemma_balanced(tree.child[0], map, idx, rax, stack, base);
                        lemma_total(tree.child[1], map, idx, left.next, v, s, base);
                    },
                    _ => {},
                }
            } else {
                let first: int = if right_first(op) { 1 } else { 0 };
                let pushed = lower_stmt(tree.child[first], map, idx, next)->Ok_0;
                lemma_total(tree.child[first], map, idx, next, rax, stack, base);
                match meaning(tree.child[first], map, idx, rax, stack, base) {
                    Some(Flow::Value(v, s)) => {
                        lemma_balanced(tree.child[first], map, idx, rax, stack, base);
                        lemma_total(
                            tree.child[1 - first],
                            map,
                            idx,
                            pushed.next,
                            v,
                            s.push(v),
                            base,
                        );
                        if meaning(tree.child[1 - first], map, idx, v, s.push(v), base) matches Some(
                            Flow::Value(_, _),
                        ) {
                            lemma_balanced(tree.child[1 - first], map, idx, v, s.push(v), base);
                        }
                    },
                    _ => {},
                }
            }
        },
        NodeType::ConditionalExp | NodeType::Stmt(StmtType::Conditional) => {
            lemma_total(tree.child[0], map, idx, next, rax, stack, base);
            if n >= 2 {
                let cond = lower_stmt(tree.child[0], map, idx, next)->Ok_0;
                let on_true = lower_stmt(tree.child[1], map, idx, cond.next)->Ok_0;
                match meaning(tree.child[0], map, idx, rax, stack, base) {
                    Some(Flow::Value(v, s)) => {
                        lemma_balanced(tree.child[0], map, idx, rax, stack, base);
                        lemma_total(tree.child[1], map, idx, cond.next, v, s, base);
                        if n == 3 {
                            lemma_total(tree.child[2], map, idx, on_true.next, v, s, base);
                        }
                    },
                    _ => {},
                }
            }
        },
        NodeType::Stmt(StmtType::Compound) => {
            lemma_block_total(tree, map, idx, next, rax, stack, base);
        },
        _ => {
            lemma_total(tree.child[0], map, idx, next, rax, stack, base);
        },
    }
}

/// The items of a block that lower and hold no division have a meaning.
#[verifier::rlimit(40)]
pub proof fn lemma_items_total(
    tree: ParseNode,
    i: int,
    map: Map<Seq<char>, int>,
    scope: Set<Seq<char>>,
    idx: int,
    next: nat,
    rax: int,
    stack: Seq<int>,
    base: int,
)
    requires
        0 <= i,
        lower_items(tree, i, map, scope, idx, next) is Ok,
        children_division_free(tree, i),
        children_sound(tree, i),
        frame_ok(map, idx, stack.len(), base),
    ensures
        meaning_items(tree, i, map, idx, rax, stack, base) is Some,
    decreases tree, 0nat, tree.child.len() - i,
{
    if i < tree.child.len() {
        let item = tree.child[i];
        lemma_child_division_free(tree, i, i);
        lemma_child_sound(tree, i, i);
        match item.entry {
            NodeType::Declare(name) => {
                let d = lower_declare(item, map, scope, idx, next)->Ok_0;
                lemma_frame_declare(map, idx, stack.len(), base, name@);
                if item.child.len() == 0 {
                    lemma_items_total(
                        tree,
                        i + 1,
                        d.map,
                        d.scope,
                        d.idx,
                        d.next,
                        0,
                        stack.push(0),
                        base,
                    );
                } else {
                    lemma_child_division_free(item, 0, 0);
                    lemma_expression_total(
                        item.child[0],
                        d.map,
                        d.idx,
                        next,
                        rax,
                        stack,
                        base,
                        name@,
                    );
                    match meaning(item.child[0], d.map, d.idx, rax, stack, base) {
                        Some(Flow::Value(v, s)) => {
                            lemma_items_total(
                                tree,
                                i + 1,
                                d.map,
                                d.scope,
                                d.idx,
                                d.next,
                                v,
                                s.push(v),
                                base,
                            );
                        },
                        _ => {},
                    }
                }
            },
            NodeType::Stmt(StmtType::Compound) => {
                let b = lower_block(item, map, idx, next)->Ok_0;
                lemma_block_total(item, map, idx, next, rax, stack, base);
                match meaning_block(item, map, idx, rax, stack, base) {
                    Some(Flow::Value(v, s)) => {
                        lemma_block_balanced(item, map, idx, rax, stack, base);
                        lemma_items_total(tree, i + 1, map, scope, idx, b.next, v, s, base);
                    },
                    _ => {},
                }
            },
            _ => {
                let l = lower_stmt(item, map, idx, next)->Ok_0;
                lemma_total(item, map, idx, next, rax, stack, base);
                match meaning(item, map, idx, rax, stack, base) {
                    Some(Flow::Value(v, s)) => {
                        lemma_balanced(item, map, idx, rax, stack, base);
                        lemma_items_total(tree, i + 1, map, scope, idx, l.next, v, s, base);
                    },
                    _ => {},
                }
            },
        }
    }
}

/// A block that lowers and holds no division has a meaning.
pub proof fn lemma_block_total(
    tree: ParseNode,
    map: Map<Seq<char>, int>,
    idx: int,
    next: nat,
    rax: int,
    stack: Seq<int>,
    base: int,
)
    requires
        lower_block(tree, map, idx, next) is Ok,
        division_free(tree),
        initialisers_sound(tree),
        frame_ok(map, idx, stack.len(), base),
    ensures
        meaning_block(tree, map, idx, rax, stack, base) is Some,
    decreases tree, 1nat, 0nat,
{
    lemma_items_total(tree, 0, map, Set::empty(), idx, next, rax, stack, base);
    if meaning_items(tree, 0, map, idx, rax, stack, base) matches Some(Flow::Value(_, _)) {
        lemma_items_balanced(tree, 0, map, idx, rax, stack, base);
    }
}

/// A function that lowers, holds no division and has sound initialisers
/// returns a value, whatever stack it is entered with.
pub proof fn law_division_free_function_returns(
    tree: ParseNode,
    next: nat,
    rax: int,
    stack: Seq<int>,
    base: int,
)
    requires
        lower_function(tree, next) is Ok,
        division_free(tree),
        initialisers_sound(tree),
    ensures
        function_value(tree, rax, stack, base) is Some,
{
    let framed = stack.push(base);
    lemma_block_total(tree, Map::empty(), 0, next + 1, rax, framed, framed.len() as int);
    if meaning_block(tree, Map::empty(), 0, rax, framed, framed.len() as int) matches Some(
        Flow::Value(_, _),
    ) {
        crate::behaviour::law_function_returns(tree, rax, stack, base);
    }
}

/// Entered at the first line of a function without a division and with
/// sound initialisers, the lines of a lowered program return to the caller,
/// with the function's value in the result register: they neither fault nor
/// run on for ever.
pub proof fn theorem_division_free_program_returns(
    tree: ParseNode,
    next: nat,
    k: int,
    m: Machine,
) -> (fuel: nat)
    requires
        lower_program(tree, next) is Ok,
        0 <= k < tree.child.len(),
        division_free(tree.child[k]),
        initialisers_sound(tree.child[k]),
        m.pc == 1 + function_start(tree, 0, next, k).0,
    ensures
        function_value(tree.child[k], m.rax, m.stack, m.base) is Some,
        run(lower_program(tree, next)->Ok_0.lines, m, fuel) == Outcome::Exit(
            function_value(tree.child[k], m.rax, m.stack, m.base)->0,
        ),
{
    lemma_function_placed(tree, 0, next, k);
    let n = function_start(tree, 0, next, k).1;
    law_division_free_function_returns(tree.child[k], n, m.rax, m.stack, m.base);
    theorem_program_runs(tree, next, k, m)
}

} // verus!
