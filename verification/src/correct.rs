//! The emitted lines do what the tree means: run on the machine, the lines
//! of a node leave the value and the stack that the node's meaning gives.

use crate::ast::{NodeType, ParseNode, StmtType, TokType};
use crate::code::Instr;
use crate::label::label_text;
use crate::laws::lemma_items_scope;
use crate::lower::{
    binary_tail, branch, comparison, declarations_from, epilogue, lower_block, lower_declare,
    lower_items, lower_stmt, right_first, short_circuit_head, short_circuit_tail, unary_tail,
    Lowered,
};
use crate::machine::{
    fits64, labels_unique, lemma_run_split, lemma_target, run, step, truth, Machine, Outcome,
};
use crate::meaning::{
    binary_value, meaning, meaning_block, meaning_items, unary_value, Flow,
};
use vstd::prelude::*;

verus! {

/// Whether `lines` stand in `code` from index `p` on.
pub open spec fn placed(code: Seq<Instr>, p: int, lines: Seq<Instr>) -> bool {
    &&& 0 <= p
    &&& p + lines.len() <= code.len()
    &&& forall|k: int| 0 <= k < lines.len() ==> code[p + k] == #[trigger] lines[k]
}

/// Whether the machine is still running, at line `pc`, with the given
/// result register, stack and frame base.
pub open spec fn arrives(o: Outcome, pc: int, rax: int, stack: Seq<int>, base: int) -> bool {
    o matches Outcome::Running(after) && after.pc == pc && after.rax == rax && after.stack == stack
        && after.base == base
}

/// Whether `fuel` steps from `m` end as `flow` says: at line `end` with the
/// value and the stack of the flow, or with the function's return.
pub open spec fn reaches(code: Seq<Instr>, m: Machine, fuel: nat, end: int, flow: Flow) -> bool {
    match flow {
        Flow::Value(v, s) => arrives(run(code, m, fuel), end, v, s, m.base),
        Flow::Returned(v) => run(code, m, fuel) == Outcome::Exit(v),
    }
}

/// Lines that stand in the code are its lines.
pub proof fn lemma_line(code: Seq<Instr>, p: int, lines: Seq<Instr>, k: int)
    requires
        placed(code, p, lines),
        0 <= k < lines.len(),
    ensures
        0 <= p + k < code.len(),
        code[p + k] == lines[k],
{
}

/// Where two runs of lines stand joined, each stands.
pub proof fn lemma_placed_split(code: Seq<Instr>, p: int, a: Seq<Instr>, b: Seq<Instr>)
    requires
        placed(code, p, a + b),
    ensures
        placed(code, p, a),
        placed(code, p + a.len(), b),
{
    assert forall|k: int| 0 <= k < a.len() implies code[p + k] == #[trigger] a[k] by {
        assert((a + b)[k] == a[k]);
    }
    assert forall|k: int| 0 <= k < b.len() implies code[p + a.len() + k] == #[trigger] b[k] by {
        assert((a + b)[a.len() + k] == b[k]);
    }
}

/// After `f` steps to `mid`, `g` more steps are `g` steps from `mid`.
pub proof fn lemma_then(code: Seq<Instr>, m: Machine, f: nat, mid: Machine, g: nat)
    requires
        run(code, m, f) == Outcome::Running(mid),
    ensures
        run(code, m, f + g) == run(code, mid, g),
{
    lemma_run_split(code, m, f, g);
}

/// After `f` steps to `mid`, one more step is the step from `mid`.
pub proof fn lemma_next(code: Seq<Instr>, m: Machine, f: nat, mid: Machine)
    requires
        run(code, m, f) == Outcome::Running(mid),
    ensures
        run(code, m, f + 1) == step(code, mid),
{
    lemma_run_split(code, m, f, 1);
    reveal_with_fuel(run, 2);
}

/// A line that loads a constant leaves it in the result register.
pub proof fn lemma_const_runs(code: Seq<Instr>, p: int, value: int, m: Machine)
    requires
        placed(code, p, seq![Instr::MovImm(value)]),
        m.pc == p,
        fits64(value),
    ensures
        arrives(run(code, m, 1), p + 1, value, m.stack, m.base),
{
    reveal(step);
    reveal_with_fuel(run, 2);
    lemma_line(code, p, seq![Instr::MovImm(value)], 0);
}

/// A line that loads a slot leaves the slot's word in the result register.
pub proof fn lemma_load_runs(code: Seq<Instr>, p: int, offset: int, m: Machine)
    requires
        placed(code, p, seq![Instr::Load(offset)]),
        m.pc == p,
        m.slot(offset) is Some,
    ensures
        arrives(run(code, m, 1), p + 1, m.stack[m.slot(offset)->0], m.stack, m.base),
{
    reveal(step);
    reveal_with_fuel(run, 2);
    lemma_line(code, p, seq![Instr::Load(offset)], 0);
}

/// A line that stores to a slot puts the result register there.
pub proof fn lemma_store_runs(code: Seq<Instr>, p: int, offset: int, m: Machine)
    requires
        placed(code, p, seq![Instr::Store(offset)]),
        m.pc == p,
        m.slot(offset) is Some,
    ensures
        arrives(
            run(code, m, 1),
            p + 1,
            m.rax,
            m.stack.update(m.slot(offset)->0, m.rax),
            m.base,
        ),
{
    reveal(step);
    reveal_with_fuel(run, 2);
    lemma_line(code, p, seq![Instr::Store(offset)], 0);
}

/// A push puts the result register on the stack.
pub proof fn lemma_push_runs(code: Seq<Instr>, p: int, m: Machine)
    requires
        placed(code, p, seq![Instr::Push]),
        m.pc == p,
    ensures
        arrives(run(code, m, 1), p + 1, m.rax, m.stack.push(m.rax), m.base),
{
    reveal(step);
    reveal_with_fuel(run, 2);
    lemma_line(code, p, seq![Instr::Push], 0);
}

/// The lines of a declaration without an initialiser push 0.
pub proof fn lemma_zero_push_runs(code: Seq<Instr>, p: int, m: Machine)
    requires
        placed(code, p, seq![Instr::MovImm(0), Instr::Push]),
        m.pc == p,
    ensures
        arrives(run(code, m, 2), p + 2, 0, m.stack.push(0), m.base),
{
    reveal(step);
    reveal_with_fuel(run, 3);
    lemma_line(code, p, seq![Instr::MovImm(0), Instr::Push], 0);
    lemma_line(code, p, seq![Instr::MovImm(0), Instr::Push], 1);
}

/// A release of `words` slots takes that many words off the stack.
pub proof fn lemma_release_runs(code: Seq<Instr>, p: int, words: nat, m: Machine)
    requires
        placed(code, p, seq![Instr::Release(8 * words)]),
        m.pc == p,
        words <= m.stack.len(),
    ensures
        arrives(run(code, m, 1), p + 1, m.rax, m.stack.take(m.stack.len() - words), m.base),
{
    reveal(step);
    reveal_with_fuel(run, 2);
    lemma_line(code, p, seq![Instr::Release(8 * words)], 0);
}

/// A label does nothing.
pub proof fn lemma_label_runs(code: Seq<Instr>, name: Seq<char>, m: Machine)
    requires
        0 <= m.pc < code.len(),
        code[m.pc] == Instr::Label(name),
    ensures
        arrives(run(code, m, 1), m.pc + 1, m.rax, m.stack, m.base),
{
    reveal(step);
    reveal_with_fuel(run, 2);
}

/// The lines of a unary operator leave the operator's value.
pub proof fn lemma_unary_tail_runs(code: Seq<Instr>, p: int, op: TokType, m: Machine) -> (fuel: nat)
    requires
        unary_tail(op) is Some,
        placed(code, p, unary_tail(op)->0),
        m.pc == p,
    ensures
        arrives(
            run(code, m, fuel),
            p + unary_tail(op)->0.len(),
            unary_value(op, m.rax),
            m.stack,
            m.base,
        ),
{
    let lines = unary_tail(op)->0;
    reveal(step);
    lemma_line(code, p, lines, 0);
    lemma_next(code, m, 0, m);
    if op is Exclamation {
        lemma_line(code, p, lines, 1);
        lemma_line(code, p, lines, 2);
        let m1 = step(code, m)->Running_0;
        lemma_next(code, m, 1, m1);
        let m2 = step(code, m1)->Running_0;
        lemma_next(code, m, 2, m2);
        3
    } else {
        1
    }
}

/// The lines that follow the second operand of an arithmetic, relational or
/// equality operator pop the first operand and leave the operator's value.
pub proof fn lemma_binary_tail_runs(code: Seq<Instr>, p: int, op: TokType, m: Machine) -> (fuel:
    nat)
    requires
        binary_tail(op) is Some,
        placed(code, p, seq![Instr::Pop] + binary_tail(op)->0),
        m.pc == p,
        m.stack.len() > 0,
        binary_value(op, m.rax, m.stack.last()) is Some,
    ensures
        arrives(
            run(code, m, fuel),
            p + 1 + binary_tail(op)->0.len(),
            binary_value(op, m.rax, m.stack.last())->0,
            m.stack.drop_last(),
            m.base,
        ),
{
    let lines = seq![Instr::Pop] + binary_tail(op)->0;
    reveal(step);
    lemma_line(code, p, lines, 0);
    lemma_line(code, p, lines, 1);
    lemma_next(code, m, 0, m);
    let m1 = step(code, m)->Running_0;
    lemma_next(code, m, 1, m1);
    if op is Splash {
        lemma_line(code, p, lines, 2);
        let m2 = step(code, m1)->Running_0;
        lemma_next(code, m, 2, m2);
        3
    } else if comparison(op) is Some {
        lemma_line(code, p, lines, 2);
        lemma_line(code, p, lines, 3);
        let m2 = step(code, m1)->Running_0;
        lemma_next(code, m, 2, m2);
        let m3 = step(code, m2)->Running_0;
        lemma_next(code, m, 3, m3);
        4
    } else {
        2
    }
}

/// The epilogue and the return give the result register to the caller.
pub proof fn lemma_return_runs(code: Seq<Instr>, p: int, m: Machine)
    requires
        placed(code, p, epilogue() + seq![Instr::Ret]),
        m.pc == p,
        1 <= m.base <= m.stack.len(),
    ensures
        run(code, m, 4) == Outcome::Exit(m.rax),
{
    let lines = epilogue() + seq![Instr::Ret];
    reveal(step);
    lemma_line(code, p, lines, 0);
    lemma_line(code, p, lines, 1);
    lemma_line(code, p, lines, 2);
    lemma_line(code, p, lines, 3);
    lemma_next(code, m, 0, m);
    let m1 = step(code, m)->Running_0;
    lemma_next(code, m, 1, m1);
    let m2 = step(code, m1)->Running_0;
    lemma_next(code, m, 2, m2);
    let m3 = step(code, m2)->Running_0;
    lemma_next(code, m, 3, m3);
}

/// The lines between the operands of a short-circuit operator: where the
/// left operand decides, they leave 1 (for `||`) or 0 (for `&&`) and go
/// past the line `done_at` that ends the operator; else they go on to the
/// right operand.
pub proof fn lemma_short_circuit_head_runs(
    code: Seq<Instr>,
    p: int,
    op: TokType,
    clause: Seq<char>,
    end: Seq<char>,
    done_at: int,
    m: Machine,
) -> (fuel: nat)
    requires
        labels_unique(code),
        op is Or || op is And,
        placed(code, p, short_circuit_head(op, clause, end)),
        m.pc == p,
        0 <= done_at < code.len(),
        code[done_at] == Instr::LabelClauseEnd(end),
    ensures
        if (m.rax != 0) == (op is Or) {
            arrives(run(code, m, fuel), done_at + 1, truth(op is Or), m.stack, m.base)
        } else {
            arrives(
                run(code, m, fuel),
                p + short_circuit_head(op, clause, end).len(),
                m.rax,
                m.stack,
                m.base,
            )
        },
{
    let head = short_circuit_head(op, clause, end);
    reveal(step);
    lemma_line(code, p, head, 0);
    lemma_line(code, p, head, 1);
    lemma_line(code, p, head, 2);
    lemma_line(code, p, head, 3);
    if op is Or {
        lemma_line(code, p, head, 4);
    }
    lemma_target(code, end, done_at);
    lemma_target(code, clause, p + head.len() - 1);
    lemma_next(code, m, 0, m);
    let m1 = step(code, m)->Running_0;
    lemma_next(code, m, 1, m1);
    let m2 = step(code, m1)->Running_0;
    lemma_next(code, m, 2, m2);
    let m3 = step(code, m2)->Running_0;
    if (m.rax != 0) == (op is Or) {
        lemma_next(code, m, 3, m3);
        if op is Or {
            let m4 = step(code, m3)->Running_0;
            lemma_next(code, m, 4, m4);
            5
        } else {
            4
        }
    } else {
        3
    }
}

/// The lines after the right operand of a short-circuit operator make it 0
/// or 1.
pub proof fn lemma_short_circuit_tail_runs(code: Seq<Instr>, p: int, end: Seq<char>, m: Machine)
    requires
        placed(code, p, short_circuit_tail(end)),
        m.pc == p,
    ensures
        arrives(run(code, m, 4), p + 4, truth(m.rax != 0), m.stack, m.base),
{
    let tail = short_circuit_tail(end);
    reveal(step);
    lemma_line(code, p, tail, 0);
    lemma_line(code, p, tail, 1);
    lemma_line(code, p, tail, 2);
    lemma_line(code, p, tail, 3);
    lemma_next(code, m, 0, m);
    let m1 = step(code, m)->Running_0;
    lemma_next(code, m, 1, m1);
    let m2 = step(code, m1)->Running_0;
    lemma_next(code, m, 2, m2);
    let m3 = step(code, m2)->Running_0;
    lemma_next(code, m, 3, m3);
}

/// The test of a branch goes on where the result register is nonzero, and
/// past the line `else_at` where it is zero.
pub proof fn lemma_branch_test_runs(
    code: Seq<Instr>,
    p: int,
    other: Seq<char>,
    else_at: int,
    m: Machine,
) -> (fuel: nat)
    requires
        labels_unique(code),
        placed(code, p, seq![Instr::TestZero, Instr::Je(other)]),
        m.pc == p,
        0 <= else_at < code.len(),
        code[else_at] == Instr::Label(other),
    ensures
        arrives(
            run(code, m, fuel),
            if m.rax != 0 {
                p + 2
            } else {
                else_at + 1
            },
            m.rax,
            m.stack,
            m.base,
        ),
{
    let test = seq![Instr::TestZero, Instr::Je(other)];
    reveal(step);
    lemma_line(code, p, test, 0);
    lemma_line(code, p, test, 1);
    lemma_target(code, other, else_at);
    lemma_next(code, m, 0, m);
    let m1 = step(code, m)->Running_0;
    lemma_next(code, m, 1, m1);
    if m.rax != 0 {
        2
    } else {
        let m2 = step(code, m1)->Running_0;
        lemma_next(code, m, 2, m2);
        3
    }
}

/// The jump at the end of a branch goes past the line `end_at`.
pub proof fn lemma_branch_leave_runs(code: Seq<Instr>, end: Seq<char>, end_at: int, m: Machine)
    requires
        labels_unique(code),
        0 <= m.pc < code.len(),
        code[m.pc] == Instr::Jmp(end),
        0 <= end_at < code.len(),
        code[end_at] == Instr::Label(end),
    ensures
        arrives(run(code, m, 2), end_at + 1, m.rax, m.stack, m.base),
{
    reveal(step);
    lemma_target(code, end, end_at);
    lemma_next(code, m, 0, m);
    let m1 = step(code, m)->Running_0;
    lemma_next(code, m, 1, m1);
}

/// Whether the lines of the statement or expression `tree` stand in `code`
/// from `p` on, the machine is about to run them, and the tree has a
/// meaning there.
pub open spec fn ready(
    code: Seq<Instr>,
    p: int,
    tree: ParseNode,
    map: Map<Seq<char>, int>,
    idx: int,
    next: nat,
    m: Machine,
) -> bool {
    &&& labels_unique(code)
    &&& lower_stmt(tree, map, idx, next) is Ok
    &&& placed(code, p, lower_stmt(tree, map, idx, next)->Ok_0.lines)
    &&& m.pc == p
    &&& meaning(tree, map, idx, m.rax, m.stack, m.base) is Some
}

/// Whether `fuel` steps run the lines of `tree` as its meaning says.
pub open spec fn done(
    code: Seq<Instr>,
    p: int,
    tree: ParseNode,
    map: Map<Seq<char>, int>,
    idx: int,
    next: nat,
    m: Machine,
    fuel: nat,
) -> bool {
    reaches(
        code,
        m,
        fuel,
        p + lower_stmt(tree, map, idx, next)->Ok_0.lines.len(),
        meaning(tree, map, idx, m.rax, m.stack, m.base)->0,
    )
}

/// The lines of a unary operator and its operand run as the node means.
proof fn lemma_unary_runs(
    code: Seq<Instr>,
    p: int,
    tree: ParseNode,
    map: Map<Seq<char>, int>,
    idx: int,
    next: nat,
    m: Machine,
) -> (fuel: nat)
    requires
        ready(code, p, tree, map, idx, next, m),
        tree.entry is UnExp,
    ensures
        done(code, p, tree, map, idx, next, m, fuel),
    decreases tree, 1nat, 0nat,
{
    match tree.entry {
        NodeType::UnExp(op) => {
            let operand = lower_stmt(tree.child[0], map, idx, next)->Ok_0;
            lemma_placed_split(code, p, operand.lines, unary_tail(op)->0);
            let f1 = lemma_stmt_runs(code, p, tree.child[0], map, idx, next, m);
            match meaning(tree.child[0], map, idx, m.rax, m.stack, m.base)->0 {
                Flow::Returned(_) => f1,
                Flow::Value(_, _) => {
                    let m1 = run(code, m, f1)->Running_0;
                    let f2 = lemma_unary_tail_runs(code, p + operand.lines.len(), op, m1);
                    lemma_then(code, m, f1, m1, f2);
                    f1 + f2
                },
            }
        },
        _ => 0,
    }
}

/// The lines of an arithmetic, relational or equality operator and its
/// operands run as the node means.
#[verifier::rlimit(40)]
proof fn lemma_binary_runs(
    code: Seq<Instr>,
    p: int,
    tree: ParseNode,
    map: Map<Seq<char>, int>,
    idx: int,
    next: nat,
    m: Machine,
) -> (fuel: nat)
    requires
        ready(code, p, tree, map, idx, next, m),
        tree.entry matches NodeType::BinExp(op) && !(op is Or || op is And),
    ensures
        done(code, p, tree, map, idx, next, m, fuel),
    decreases tree, 1nat, 0nat,
{
    match tree.entry {
        NodeType::BinExp(op) => {
            let first: int = if right_first(op) { 1 } else { 0 };
            let pushed = lower_stmt(tree.child[first], map, idx, next)->Ok_0;
            let kept = lower_stmt(tree.child[1 - first], map, idx, pushed.next)->Ok_0;
            let tail = binary_tail(op)->0;
            let front = pushed.lines + seq![Instr::Push] + kept.lines;
            let back = seq![Instr::Pop] + tail;
            assert(lower_stmt(tree, map, idx, next)->Ok_0.lines =~= front + back);
            lemma_placed_split(code, p, front, back);
            lemma_placed_split(code, p, pushed.lines + seq![Instr::Push], kept.lines);
            lemma_placed_split(code, p, pushed.lines, seq![Instr::Push]);
            let q = p + pushed.lines.len();
            let f1 = lemma_stmt_runs(code, p, tree.child[first], map, idx, next, m);
            match meaning(tree.child[first], map, idx, m.rax, m.stack, m.base)->0 {
                Flow::Returned(_) => f1,
                Flow::Value(a, s) => {
                    let m1 = run(code, m, f1)->Running_0;
                    lemma_push_runs(code, q, m1);
                    let m2 = run(code, m1, 1)->Running_0;
                    lemma_then(code, m, f1, m1, 1);
                    let f2 = lemma_stmt_runs(
                        code,
                        q + 1,
                        tree.child[1 - first],
                        map,
                        idx,
                        pushed.next,
                        m2,
                    );
                    lemma_then(code, m, f1 + 1, m2, f2);
                    match meaning(tree.child[1 - first], map, idx, a, s.push(a), m.base)->0 {
                        Flow::Returned(_) => f1 + 1 + f2,
                        Flow::Value(_, _) => {
                            let m3 = run(code, m2, f2)->Running_0;
                            let f3 = lemma_binary_tail_runs(
                                code,
                                q + 1 + kept.lines.len(),
                                op,
                                m3,
                            );
                            lemma_then(code, m, f1 + 1 + f2, m3, f3);
                            f1 + 1 + f2 + f3
                        },
                    }
                },
            }
        },
        _ => 0,
    }
}

/// The lines of `&&` or `||` and its operands run as the node means.
#[verifier::rlimit(40)]
proof fn lemma_short_circuit_runs(
    code: Seq<Instr>,
    p: int,
    tree: ParseNode,
    map: Map<Seq<char>, int>,
    idx: int,
    next: nat,
    m: Machine,
) -> (fuel: nat)
    requires
        ready(code, p, tree, map, idx, next, m),
        tree.entry matches NodeType::BinExp(op) && (op is Or || op is And),
    ensures
        done(code, p, tree, map, idx, next, m, fuel),
    decreases tree, 1nat, 0nat,
{
    match tree.entry {
        NodeType::BinExp(op) => {
            let clause = label_text(if op is Or { "CLAUSE"@ } else { "clause"@ }, next);
            let end = label_text(if op is Or { "END"@ } else { "end"@ }, next + 1);
            let left = lower_stmt(tree.child[0], map, idx, next + 2)->Ok_0;
            let right = lower_stmt(tree.child[1], map, idx, left.next)->Ok_0;
            let head = short_circuit_head(op, clause, end);
            let tail = short_circuit_tail(end);
            lemma_placed_split(code, p, left.lines + head + right.lines, tail);
            lemma_placed_split(code, p, left.lines + head, right.lines);
            lemma_placed_split(code, p, left.lines, head);
            let h = p + left.lines.len();
            let r = h + head.len();
            let t = r + right.lines.len();
            lemma_line(code, t, tail, 3);
            let f1 = lemma_stmt_runs(code, p, tree.child[0], map, idx, next + 2, m);
            match meaning(tree.child[0], map, idx, m.rax, m.stack, m.base)->0 {
                Flow::Returned(_) => f1,
                Flow::Value(lv, s) => {
                    let m1 = run(code, m, f1)->Running_0;
                    let g = lemma_short_circuit_head_runs(code, h, op, clause, end, t + 3, m1);
                    lemma_then(code, m, f1, m1, g);
                    if (lv != 0) == (op is Or) {
                        f1 + g
                    } else {
                        let m2 = run(code, m1, g)->Running_0;
                        let f2 = lemma_stmt_runs(code, r, tree.child[1], map, idx, left.next, m2);
                        lemma_then(code, m, f1 + g, m2, f2);
                        match meaning(tree.child[1], map, idx, lv, s, m.base)->0 {
                            Flow::Returned(_) => f1 + g + f2,
                            Flow::Value(_, _) => {
                                let m3 = run(code, m2, f2)->Running_0;
                                lemma_short_circuit_tail_runs(code, t, end, m3);
                                lemma_then(code, m, f1 + g + f2, m3, 4);
                                f1 + g + f2 + 4
                            },
                        }
                    }
                },
            }
        },
        _ => 0,
    }
}

/// The lines of a ternary expression or an `if` statement run as the node
/// means.
#[verifier::rlimit(40)]
proof fn lemma_choice_runs(
    code: Seq<Instr>,
    p: int,
    tree: ParseNode,
    map: Map<Seq<char>, int>,
    idx: int,
    next: nat,
    m: Machine,
) -> (fuel: nat)
    requires
        ready(code, p, tree, map, idx, next, m),
        (tree.entry is ConditionalExp && tree.child.len() == 3) || tree.entry == NodeType::Stmt(
            StmtType::Conditional,
        ),
    ensures
        done(code, p, tree, map, idx, next, m, fuel),
    decreases tree, 1nat, 0nat,
{
    let n = tree.child.len();
    let ternary = tree.entry is ConditionalExp;
    let cond = lower_stmt(tree.child[0], map, idx, next)->Ok_0;
    let on_true = lower_stmt(tree.child[1], map, idx, cond.next)->Ok_0;
    let on_false = if n == 3 {
        lower_stmt(tree.child[2], map, idx, on_true.next)->Ok_0
    } else {
        Lowered { lines: Seq::empty(), next: on_true.next }
    };
    let other = label_text(if ternary { "E3"@ } else { "S2"@ }, on_false.next);
    let end = label_text(if ternary { "ENDCOND"@ } else { "ENDIF"@ }, on_false.next + 1);
    let test = seq![Instr::TestZero, Instr::Je(other)];
    let middle = seq![Instr::Jmp(end), Instr::Label(other)];
    let last = seq![Instr::Label(end)];
    assert(lower_stmt(tree, map, idx, next)->Ok_0.lines == branch(
        cond.lines,
        on_true.lines,
        on_false.lines,
        other,
        end,
    ));
    lemma_placed_split(code, p, cond.lines + test + on_true.lines + middle + on_false.lines, last);
    lemma_placed_split(code, p, cond.lines + test + on_true.lines + middle, on_false.lines);
    lemma_placed_split(code, p, cond.lines + test + on_true.lines, middle);
    lemma_placed_split(code, p, cond.lines + test, on_true.lines);
    lemma_placed_split(code, p, cond.lines, test);
    let a = p + cond.lines.len();
    let t = a + 2;
    let b = t + on_true.lines.len();
    let f = b + 2;
    let c = f + on_false.lines.len();
    lemma_line(code, b, middle, 0);
    lemma_line(code, b, middle, 1);
    lemma_line(code, c, last, 0);
    let f1 = lemma_stmt_runs(code, p, tree.child[0], map, idx, next, m);
    match meaning(tree.child[0], map, idx, m.rax, m.stack, m.base)->0 {
        Flow::Returned(_) => f1,
        Flow::Value(cv, s) => {
            let m1 = run(code, m, f1)->Running_0;
            let g = lemma_branch_test_runs(code, a, other, b + 1, m1);
            let m2 = run(code, m1, g)->Running_0;
            lemma_then(code, m, f1, m1, g);
            if cv != 0 {
                let f2 = lemma_stmt_runs(code, t, tree.child[1], map, idx, cond.next, m2);
                lemma_then(code, m, f1 + g, m2, f2);
                match meaning(tree.child[1], map, idx, cv, s, m.base)->0 {
                    Flow::Returned(_) => f1 + g + f2,
                    Flow::Value(_, _) => {
                        let m3 = run(code, m2, f2)->Running_0;
                        lemma_branch_leave_runs(code, end, c, m3);
                        lemma_then(code, m, f1 + g + f2, m3, 2);
                        f1 + g + f2 + 2
                    },
                }
            } else if n == 3 {
                let f2 = lemma_stmt_runs(code, f, tree.child[2], map, idx, on_true.next, m2);
                lemma_then(code, m, f1 + g, m2, f2);
                match meaning(tree.child[2], map, idx, cv, s, m.base)->0 {
                    Flow::Returned(_) => f1 + g + f2,
                    Flow::Value(_, _) => {
                        let m3 = run(code, m2, f2)->Running_0;
                        lemma_label_runs(code, end, m3);
                        lemma_then(code, m, f1 + g + f2, m3, 1);
                        f1 + g + f2 + 1
                    },
                }
            } else {
                lemma_label_runs(code, end, m2);
                lemma_then(code, m, f1 + g, m2, 1);
                f1 + g + 1
            }
        },
    }
}

/// Run on the machine, the lines of a statement or an expression end as the
/// tree's meaning says: with its value in the result register and its stack,
/// at the line after them, or with the function's return.
#[verifier::rlimit(40)]
pub proof fn lemma_stmt_runs(
    code: Seq<Instr>,
    p: int,
    tree: ParseNode,
    map: Map<Seq<char>, int>,
    idx: int,
    next: nat,
    m: Machine,
) -> (fuel: nat)
    requires
        ready(code, p, tree, map, idx, next, m),
    ensures
        done(code, p, tree, map, idx, next, m, fuel),
    decreases tree, 2nat, 0nat,
{
    let n = tree.child.len();
    let lines = lower_stmt(tree, map, idx, next)->Ok_0.lines;
    match tree.entry {
        NodeType::Const(value) => {
            lemma_const_runs(code, p, value as int, m);
            1
        },
        NodeType::Var(name) => {
            lemma_load_runs(code, p, map[name@], m);
            1
        },
        NodeType::AssignNode(name) => {
            let value = lower_stmt(tree.child[0], map, idx, next)->Ok_0;
            let store = seq![Instr::Store(map[name@])];
            assert(lines =~= value.lines + store);
            lemma_placed_split(code, p, value.lines, store);
            let f1 = lemma_stmt_runs(code, p, tree.child[0], map, idx, next, m);
            match meaning(tree.child[0], map, idx, m.rax, m.stack, m.base)->0 {
                Flow::Returned(_) => f1,
                Flow::Value(_, _) => {
                    let m1 = run(code, m, f1)->Running_0;
                    lemma_store_runs(code, p + value.lines.len(), map[name@], m1);
                    lemma_then(code, m, f1, m1, 1);
                    f1 + 1
                },
            }
        },
        NodeType::UnExp(_) => lemma_unary_runs(code, p, tree, map, idx, next, m),
        NodeType::BinExp(op) => if op is Or || op is And {
            lemma_short_circuit_runs(code, p, tree, map, idx, next, m)
        } else {
            lemma_binary_runs(code, p, tree, map, idx, next, m)
        },
        NodeType::ConditionalExp => if n == 1 {
            lemma_stmt_runs(code, p, tree.child[0], map, idx, next, m)
        } else {
            lemma_choice_runs(code, p, tree, map, idx, next, m)
        },
        NodeType::Stmt(StmtType::Conditional) => lemma_choice_runs(
            code,
            p,
            tree,
            map,
            idx,
            next,
            m,
        ),
        NodeType::Stmt(StmtType::Return) => {
            let value = lower_stmt(tree.child[0], map, idx, next)->Ok_0;
            let leave = epilogue() + seq![Instr::Ret];
            assert(lines =~= value.lines + leave);
            lemma_placed_split(code, p, value.lines, leave);
            let f1 = lemma_stmt_runs(code, p, tree.child[0], map, idx, next, m);
            match meaning(tree.child[0], map, idx, m.rax, m.stack, m.base)->0 {
                Flow::Returned(_) => f1,
                Flow::Value(_, _) => {
                    let m1 = run(code, m, f1)->Running_0;
                    lemma_return_runs(code, p + value.lines.len(), m1);
                    lemma_then(code, m, f1, m1, 4);
                    f1 + 4
                },
            }
        },
        NodeType::Stmt(StmtType::Exp) => lemma_stmt_runs(
            code,
            p,
            tree.child[0],
            map,
            idx,
            next,
            m,
        ),
        NodeType::Stmt(StmtType::Compound) => lemma_block_runs(code, p, tree, map, idx, next, m),
        NodeType::Prog(_) | NodeType::Fn(_) | NodeType::Declare(_) => 0,
        _ => lemma_stmt_runs(code, p, tree.child[0], map, idx, next, m),
    }
}

/// Run on the machine, the lines of the items of a block from the `i`-th on
/// end as their meaning says.
#[verifier::rlimit(40)]
pub proof fn lemma_items_run(
    code: Seq<Instr>,
    p: int,
    tree: ParseNode,
    i: int,
    map: Map<Seq<char>, int>,
    scope: Set<Seq<char>>,
    idx: int,
    next: nat,
    m: Machine,
) -> (fuel: nat)
    requires
        labels_unique(code),
        0 <= i,
        lower_items(tree, i, map, scope, idx, next) is Ok,
        placed(code, p, lower_items(tree, i, map, scope, idx, next)->Ok_0.lines),
        m.pc == p,
        meaning_items(tree, i, map, idx, m.rax, m.stack, m.base) is Some,
    ensures
        reaches(
            code,
            m,
            fuel,
            p + lower_items(tree, i, map, scope, idx, next)->Ok_0.lines.len(),
            meaning_items(tree, i, map, idx, m.rax, m.stack, m.base)->0,
        ),
    decreases tree, 0nat, tree.child.len() - i,
{
    if i >= tree.child.len() {
        0
    } else {
        let item = tree.child[i];
        match item.entry {
            NodeType::Declare(name) => {
                let d = lower_declare(item, map, scope, idx, next)->Ok_0;
                let rest = lower_items(tree, i + 1, d.map, d.scope, d.idx, d.next)->Ok_0;
                lemma_placed_split(code, p, d.lines, rest.lines);
                let q = p + d.lines.len();
                if item.child.len() == 0 {
                    lemma_zero_push_runs(code, p, m);
                    let m1 = run(code, m, 2)->Running_0;
                    let f2 = lemma_items_run(
                        code,
                        q,
                        tree,
                        i + 1,
                        d.map,
                        d.scope,
                        d.idx,
                        d.next,
                        m1,
                    );
                    lemma_then(code, m, 2, m1, f2);
                    2 + f2
                } else {
                    let value = lower_stmt(item.child[0], d.map, d.idx, next)->Ok_0;
                    let push = seq![Instr::Push];
                    assert(d.lines =~= value.lines + push);
                    lemma_placed_split(code, p, value.lines, push);
                    let f1 = lemma_stmt_runs(code, p, item.child[0], d.map, d.idx, next, m);
                    match meaning(item.child[0], d.map, d.idx, m.rax, m.stack, m.base)->0 {
                        Flow::Returned(_) => f1,
                        Flow::Value(_, _) => {
                            let m1 = run(code, m, f1)->Running_0;
                            lemma_push_runs(code, p + value.lines.len(), m1);
                            let m2 = run(code, m1, 1)->Running_0;
                            lemma_then(code, m, f1, m1, 1);
                            let f2 = lemma_items_run(
                                code,
                                q,
                                tree,
                                i + 1,
                                d.map,
                                d.scope,
                                d.idx,
                                d.next,
                                m2,
                            );
                            lemma_then(code, m, f1 + 1, m2, f2);
                            f1 + 1 + f2
                        },
                    }
                }
            },
            NodeType::Stmt(StmtType::Compound) => {
                let b = lower_block(item, map, idx, next)->Ok_0;
                let rest = lower_items(tree, i + 1, map, scope, idx, b.next)->Ok_0;
                lemma_placed_split(code, p, b.lines, rest.lines);
                let f1 = lemma_block_runs(code, p, item, map, idx, next, m);
                match meaning_block(item, map, idx, m.rax, m.stack, m.base)->0 {
                    Flow::Returned(_) => f1,
                    Flow::Value(_, _) => {
                        let m1 = run(code, m, f1)->Running_0;
                        let f2 = lemma_items_run(
                            code,
                            p + b.lines.len(),
                            tree,
                            i + 1,
                            map,
                            scope,
                            idx,
                            b.next,
                            m1,
                        );
                        lemma_then(code, m, f1, m1, f2);
                        f1 + f2
                    },
                }
            },
            _ => {
                let s = lower_stmt(item, map, idx, next)->Ok_0;
                let rest = lower_items(tree, i + 1, map, scope, idx, s.next)->Ok_0;
                lemma_placed_split(code, p, s.lines, rest.lines);
                let f1 = lemma_stmt_runs(code, p, item, map, idx, next, m);
                match meaning(item, map, idx, m.rax, m.stack, m.base)->0 {
                    Flow::Returned(_) => f1,
                    Flow::Value(_, _) => {
                        let m1 = run(code, m, f1)->Running_0;
                        let f2 = lemma_items_run(
                            code,
                            p + s.lines.len(),
                            tree,
                            i + 1,
                            map,
                            scope,
                            idx,
                            s.next,
                            m1,
                        );
                        lemma_then(code, m, f1, m1, f2);
                        f1 + f2
                    },
                }
            },
        }
    }
}

/// Run on the machine, the lines of a block end as the block's meaning
/// says.
pub proof fn lemma_block_runs(
    code: Seq<Instr>,
    p: int,
    tree: ParseNode,
    map: Map<Seq<char>, int>,
    idx: int,
    next: nat,
    m: Machine,
) -> (fuel: nat)
    requires
        labels_unique(code),
        lower_block(tree, map, idx, next) is Ok,
        placed(code, p, lower_block(tree, map, idx, next)->Ok_0.lines),
        m.pc == p,
        meaning_block(tree, map, idx, m.rax, m.stack, m.base) is Some,
    ensures
        reaches(
            code,
            m,
            fuel,
            p + lower_block(tree, map, idx, next)->Ok_0.lines.len(),
            meaning_block(tree, map, idx, m.rax, m.stack, m.base)->0,
        ),
    decreases tree, 1nat, 0nat,
{
    let items = lower_items(tree, 0, map, Set::empty(), idx, next)->Ok_0;
    let release = seq![Instr::Release(8 * items.scope.len())];
    assert(lower_block(tree, map, idx, next)->Ok_0.lines =~= items.lines + release);
    lemma_placed_split(code, p, items.lines, release);
    lemma_items_scope(tree, 0, map, Set::empty(), idx, next);
    let f1 = lemma_items_run(code, p, tree, 0, map, Set::empty(), idx, next, m);
    match meaning_items(tree, 0, map, idx, m.rax, m.stack, m.base)->0 {
        Flow::Returned(_) => f1,
        Flow::Value(_, _) => {
            let m1 = run(code, m, f1)->Running_0;
            lemma_release_runs(code, p + items.lines.len(), declarations_from(tree, 0), m1);
            lemma_then(code, m, f1, m1, 1);
            f1 + 1
        },
    }
}

} // verus!
