//! No two lines of a lowered tree are the same jump target.

use crate::ast::{NodeType, ParseNode, StmtType};
use crate::code::Instr;
use crate::label::label_text;
use crate::laws::{law_lowering_labels_distinct, lowering_prefix};
use crate::lower::{
    binary_tail, branch, epilogue, fallback, lower_block, lower_declare, lower_function,
    lower_functions, lower_items, lower_program, lower_stmt, prologue, right_first,
    short_circuit_head, short_circuit_tail, unary_tail, Lowered,
};
use crate::machine::{defines, labels_unique};
use vstd::prelude::*;

verus! {

/// The numbers from `lo` up to, but not including, `hi`.
pub open spec fn span(lo: nat, hi: nat) -> Set<nat> {
    Set::new(|n: nat| lo <= n < hi)
}

/// Whether `name` is a label of the lowering with one of the numbers.
pub open spec fn numbered(name: Seq<char>, numbers: Set<nat>) -> bool {
    exists|prefix: Seq<char>, n: nat|
        lowering_prefix(prefix) && numbers.contains(n) && name == #[trigger] label_text(prefix, n)
}

/// Whether the jump targets among the lines are labels of the lowering with
/// numbers among `numbers`, and no two lines are the same jump target.
pub open spec fn tidy(lines: Seq<Instr>, numbers: Set<nat>) -> bool {
    &&& labels_unique(lines)
    &&& forall|i: int, name: Seq<char>|
        0 <= i < lines.len() && #[trigger] defines(lines[i], name) ==> numbered(name, numbers)
}

/// Whether none of the lines is a jump target.
pub open spec fn plain(lines: Seq<Instr>) -> bool {
    forall|i: int|
        0 <= i < lines.len() ==> !(#[trigger] lines[i] is Label) && !(lines[i] is LabelClauseEnd)
}

/// Lines without a jump target are tidy.
pub proof fn lemma_plain_tidy(lines: Seq<Instr>, numbers: Set<nat>)
    requires
        plain(lines),
    ensures
        tidy(lines, numbers),
{
    assert forall|i: int, name: Seq<char>|
        0 <= i < lines.len() && #[trigger] defines(lines[i], name) implies false by {
        assert(!(lines[i] is Label));
    }
}

/// Lines with one jump target, a label of the lowering, are tidy.
pub proof fn lemma_one_label_tidy(
    lines: Seq<Instr>,
    at: int,
    prefix: Seq<char>,
    n: nat,
    numbers: Set<nat>,
)
    requires
        0 <= at < lines.len(),
        defines(lines[at], label_text(prefix, n)),
        forall|i: int|
            0 <= i < lines.len() && i != at ==> !(#[trigger] lines[i] is Label) && !(
            lines[i] is LabelClauseEnd),
        lowering_prefix(prefix),
        numbers.contains(n),
    ensures
        tidy(lines, numbers),
{
    assert forall|i: int, name: Seq<char>|
        0 <= i < lines.len() && #[trigger] defines(lines[i], name) implies i == at && numbered(
        name,
        numbers,
    ) by {
        if i != at {
            assert(!(lines[i] is Label));
        }
        assert(name == label_text(prefix, n));
    }
}

/// Tidy lines stay tidy for more numbers.
pub proof fn lemma_tidy_widen(lines: Seq<Instr>, numbers: Set<nat>, more: Set<nat>)
    requires
        tidy(lines, numbers),
        numbers.subset_of(more),
    ensures
        tidy(lines, more),
{
    assert forall|i: int, name: Seq<char>|
        0 <= i < lines.len() && #[trigger] defines(lines[i], name) implies numbered(name, more) by {
        assert(numbered(name, numbers));
        let (prefix, n) = choose|prefix: Seq<char>, n: nat|
            lowering_prefix(prefix) && numbers.contains(n) && name == #[trigger] label_text(
                prefix,
                n,
            );
        assert(more.contains(n));
    }
}

/// Tidy lines with different numbers are tidy when joined.
pub proof fn lemma_join(
    a: Seq<Instr>,
    b: Seq<Instr>,
    first: Set<nat>,
    second: Set<nat>,
    all: Set<nat>,
)
    requires
        tidy(a, first),
        tidy(b, second),
        first.disjoint(second),
        first.subset_of(all),
        second.subset_of(all),
    ensures
        tidy(a + b, all),
{
    let joined = a + b;
    lemma_tidy_widen(a, first, all);
    lemma_tidy_widen(b, second, all);
    assert forall|i: int, name: Seq<char>|
        0 <= i < joined.len() && #[trigger] defines(joined[i], name) implies numbered(name, all) by {
        if i < a.len() {
            assert(defines(a[i], name));
        } else {
            assert(defines(b[i - a.len()], name));
        }
    }
    assert forall|i: int, j: int, name: Seq<char>|
        0 <= i < joined.len() && 0 <= j < joined.len() && #[trigger] defines(joined[i], name)
            && #[trigger] defines(joined[j], name) implies i == j by {
        if i < a.len() && j < a.len() {
            assert(defines(a[i], name) && defines(a[j], name));
        } else if i >= a.len() && j >= a.len() {
            assert(defines(b[i - a.len()], name) && defines(b[j - a.len()], name));
        } else {
            let (x, y) = if i < a.len() {
                (i, j - a.len())
            } else {
                (j, i - a.len())
            };
            assert(defines(a[x], name) && defines(b[y], name));
            assert(numbered(name, first));
            assert(numbered(name, second));
            let (pa, na) = choose|prefix: Seq<char>, n: nat|
                lowering_prefix(prefix) && first.contains(n) && name == #[trigger] label_text(
                    prefix,
                    n,
                );
            let (pb, nb) = choose|prefix: Seq<char>, n: nat|
                lowering_prefix(prefix) && second.contains(n) && name == #[trigger] label_text(
                    prefix,
                    n,
                );
            law_lowering_labels_distinct(pa, na, pb, nb);
        }
    }
}

/// Tidy lines followed by lines without a jump target are tidy.
pub proof fn lemma_join_plain(a: Seq<Instr>, b: Seq<Instr>, numbers: Set<nat>)
    requires
        tidy(a, numbers),
        plain(b),
    ensures
        tidy(a + b, numbers),
{
    lemma_plain_tidy(b, Set::empty());
    lemma_join(a, b, numbers, Set::empty(), numbers);
}

/// Whether a lowering has taken its labels from `next` on and its lines are
/// tidy with those numbers.
pub open spec fn lowered_tidy(l: Lowered, next: nat) -> bool {
    next <= l.next && tidy(l.lines, span(next, l.next))
}

/// The lines of a lowered `&&` or `||` are tidy.
#[verifier::rlimit(40)]
proof fn lemma_short_circuit_tidy(tree: ParseNode, map: Map<Seq<char>, int>, idx: int, next: nat)
    requires
        lower_stmt(tree, map, idx, next) is Ok,
        tree.entry matches NodeType::BinExp(op) && (op is Or || op is And),
    ensures
        lowered_tidy(lower_stmt(tree, map, idx, next)->Ok_0, next),
    decreases tree, 1nat, 0nat,
{
    match tree.entry {
        NodeType::BinExp(op) => {
            let clause_prefix = if op is Or { "CLAUSE"@ } else { "clause"@ };
            let end_prefix = if op is Or { "END"@ } else { "end"@ };
            let clause = label_text(clause_prefix, next);
            let end = label_text(end_prefix, next + 1);
            let left = lower_stmt(tree.child[0], map, idx, next + 2)->Ok_0;
            let right = lower_stmt(tree.child[1], map, idx, left.next)->Ok_0;
            let head = short_circuit_head(op, clause, end);
            let tail = short_circuit_tail(end);
            lemma_stmt_tidy(tree.child[0], map, idx, next + 2);
            lemma_stmt_tidy(tree.child[1], map, idx, left.next);
            let s_left = span(next + 2, left.next);
            let s_head = span(next, next + 1);
            let s_right = span(left.next, right.next);
            let s_tail = span(next + 1, next + 2);
            lemma_one_label_tidy(head, head.len() - 1, clause_prefix, next, s_head);
            lemma_one_label_tidy(tail, 3, end_prefix, next + 1, s_tail);
            let with_head = s_left.union(s_head);
            lemma_join(left.lines, head, s_left, s_head, with_head);
            let with_right = with_head.union(s_right);
            lemma_join(left.lines + head, right.lines, with_head, s_right, with_right);
            lemma_join(left.lines + head + right.lines, tail, with_right, s_tail, span(next, right.next));
        },
        _ => {},
    }
}

/// The lines of a lowered arithmetic, relational or equality operator are
/// tidy.
proof fn lemma_binary_tidy(tree: ParseNode, map: Map<Seq<char>, int>, idx: int, next: nat)
    requires
        lower_stmt(tree, map, idx, next) is Ok,
        tree.entry matches NodeType::BinExp(op) && !(op is Or || op is And),
    ensures
        lowered_tidy(lower_stmt(tree, map, idx, next)->Ok_0, next),
    decreases tree, 1nat, 0nat,
{
    match tree.entry {
        NodeType::BinExp(op) => {
            let first: int = if right_first(op) { 1 } else { 0 };
            let pushed = lower_stmt(tree.child[first], map, idx, next)->Ok_0;
            let kept = lower_stmt(tree.child[1 - first], map, idx, pushed.next)->Ok_0;
            let tail = binary_tail(op)->0;
            lemma_stmt_tidy(tree.child[first], map, idx, next);
            lemma_stmt_tidy(tree.child[1 - first], map, idx, pushed.next);
            let first_span = span(next, pushed.next);
            let second_span = span(pushed.next, kept.next);
            let all = span(next, kept.next);
            assert(plain(seq![Instr::Push]));
            assert(plain(seq![Instr::Pop]));
            assert(plain(tail));
            lemma_join_plain(pushed.lines, seq![Instr::Push], first_span);
            lemma_join(pushed.lines + seq![Instr::Push], kept.lines, first_span, second_span, all);
            lemma_join_plain(pushed.lines + seq![Instr::Push] + kept.lines, seq![Instr::Pop], all);
            lemma_join_plain(
                pushed.lines + seq![Instr::Push] + kept.lines + seq![Instr::Pop],
                tail,
                all,
            );
        },
        _ => {},
    }
}

/// The lines of a lowered ternary expression or `if` statement are tidy.
#[verifier::rlimit(40)]
proof fn lemma_choice_tidy(tree: ParseNode, map: Map<Seq<char>, int>, idx: int, next: nat)
    requires
        lower_stmt(tree, map, idx, next) is Ok,
        (tree.entry is ConditionalExp && tree.child.len() == 3) || tree.entry == NodeType::Stmt(
            StmtType::Conditional,
        ),
    ensures
        lowered_tidy(lower_stmt(tree, map, idx, next)->Ok_0, next),
    decreases tree, 1nat, 0nat,
{
    let n = tree.child.len();
    let ternary = tree.entry is ConditionalExp;
    let cond = lower_stmt(tree.child[0], map, idx, next)->Ok_0;
    let on_true = lower_stmt(tree.child[1], map, idx, cond.next)->Ok_0;
    let on_false = if n == 3 {
        lower_stmt(tree.child[2], map, idx, on_true.next)->Ok_0
    } else {
        Lowered { lines: Seq::empty(), next: on_true.next }
    };
    let other_prefix = if ternary { "E3"@ } else { "S2"@ };
    let end_prefix = if ternary { "ENDCOND"@ } else { "ENDIF"@ };
    let other = label_text(other_prefix, on_false.next);
    let end = label_text(end_prefix, on_false.next + 1);
    let test = seq![Instr::TestZero, Instr::Je(other)];
    let middle = seq![Instr::Jmp(end), Instr::Label(other)];
    let last = seq![Instr::Label(end)];
    assert(lower_stmt(tree, map, idx, next)->Ok_0.lines == branch(
        cond.lines,
        on_true.lines,
        on_false.lines,
        other,
        end,
    ));
    lemma_stmt_tidy(tree.child[0], map, idx, next);
    lemma_stmt_tidy(tree.child[1], map, idx, cond.next);
    if n == 3 {
        lemma_stmt_tidy(tree.child[2], map, idx, on_true.next);
    } else {
        lemma_plain_tidy(on_false.lines, span(on_true.next, on_false.next));
    }
    let s_cond = span(next, cond.next);
    let s_true = span(cond.next, on_true.next);
    let s_false = span(on_true.next, on_false.next);
    let s_other = span(on_false.next, on_false.next + 1);
    let s_end = span(on_false.next + 1, on_false.next + 2);
    assert(plain(test));
    lemma_one_label_tidy(middle, 1, other_prefix, on_false.next, s_other);
    lemma_one_label_tidy(last, 0, end_prefix, on_false.next + 1, s_end);
    lemma_join_plain(cond.lines, test, s_cond);
    let with_right = span(next, on_true.next);
    lemma_join(cond.lines + test, on_true.lines, s_cond, s_true, with_right);
    let with_other = with_right.union(s_other);
    lemma_join(cond.lines + test + on_true.lines, middle, with_right, s_other, with_other);
    let with_false = span(next, on_false.next + 1);
    lemma_join(cond.lines + test + on_true.lines + middle, on_false.lines, with_other, s_false, with_false);
    lemma_join(
        cond.lines + test + on_true.lines + middle + on_false.lines,
        last,
        with_false,
        s_end,
        span(next, on_false.next + 2),
    );
}

/// The lines of a lowered statement or expression are tidy, with the
/// numbers that the lowering has taken.
pub proof fn lemma_stmt_tidy(tree: ParseNode, map: Map<Seq<char>, int>, idx: int, next: nat)
    requires
        lower_stmt(tree, map, idx, next) is Ok,
    ensures
        lowered_tidy(lower_stmt(tree, map, idx, next)->Ok_0, next),
    decreases tree, 2nat, 0nat,
{
    let n = tree.child.len();
    let lines = lower_stmt(tree, map, idx, next)->Ok_0.lines;
    match tree.entry {
        NodeType::Const(_) | NodeType::Var(_) => {
            lemma_plain_tidy(lines, span(next, next));
        },
        NodeType::AssignNode(name) => {
            let value = lower_stmt(tree.child[0], map, idx, next)->Ok_0;
            let store = seq![Instr::Store(map[name@])];
            lemma_stmt_tidy(tree.child[0], map, idx, next);
            assert(plain(store));
            assert(lines =~= value.lines + store);
            lemma_join_plain(value.lines, store, span(next, value.next));
        },
        NodeType::UnExp(op) => {
            let operand = lower_stmt(tree.child[0], map, idx, next)->Ok_0;
            lemma_stmt_tidy(tree.child[0], map, idx, next);
            assert(plain(unary_tail(op)->0));
            lemma_join_plain(operand.lines, unary_tail(op)->0, span(next, operand.next));
        },
        NodeType::BinExp(op) => {
            if op is Or || op is And {
                lemma_short_circuit_tidy(tree, map, idx, next);
            } else {
                lemma_binary_tidy(tree, map, idx, next);
            }
        },
        NodeType::ConditionalExp => {
            if n == 1 {
                lemma_stmt_tidy(tree.child[0], map, idx, next);
            } else {
                lemma_choice_tidy(tree, map, idx, next);
            }
        },
        NodeType::Stmt(StmtType::Conditional) => {
            lemma_choice_tidy(tree, map, idx, next);
        },
        NodeType::Stmt(StmtType::Return) => {
            let value = lower_stmt(tree.child[0], map, idx, next)->Ok_0;
            lemma_stmt_tidy(tree.child[0], map, idx, next);
            assert(plain(epilogue()));
            assert(plain(seq![Instr::Ret]));
            lemma_join_plain(value.lines, epilogue(), span(next, value.next));
            lemma_join_plain(value.lines + epilogue(), seq![Instr::Ret], span(next, value.next));
        },
        NodeType::Stmt(StmtType::Exp) => {
            lemma_stmt_tidy(tree.child[0], map, idx, next);
        },
        NodeType::Stmt(StmtType::Compound) => {
            lemma_block_tidy(tree, map, idx, next);
        },
        NodeType::Prog(_) | NodeType::Fn(_) | NodeType::Declare(_) => {},
        _ => {
            lemma_stmt_tidy(tree.child[0], map, idx, next);
        },
    }
}

/// The lines of the lowered items of a block are tidy.
pub proof fn lemma_items_tidy(
    tree: ParseNode,
    i: int,
    map: Map<Seq<char>, int>,
    scope: Set<Seq<char>>,
    idx: int,
    next: nat,
)
    requires
        0 <= i,
        lower_items(tree, i, map, scope, idx, next) is Ok,
    ensures
        ({
            let items = lower_items(tree, i, map, scope, idx, next)->Ok_0;
            next <= items.next && tidy(items.lines, span(next, items.next))
        }),
    decreases tree, 0nat, tree.child.len() - i,
{
    if i >= tree.child.len() {
        lemma_plain_tidy(Seq::<Instr>::empty(), span(next, next));
    } else {
        let item = tree.child[i];
        match item.entry {
            NodeType::Declare(name) => {
                let d = lower_declare(item, map, scope, idx, next)->Ok_0;
                let rest = lower_items(tree, i + 1, d.map, d.scope, d.idx, d.next)->Ok_0;
                if item.child.len() == 0 {
                    assert(plain(d.lines));
                    lemma_plain_tidy(d.lines, span(next, d.next));
                } else {
                    let value = lower_stmt(item.child[0], d.map, d.idx, next)->Ok_0;
                    lemma_stmt_tidy(item.child[0], d.map, d.idx, next);
                    assert(plain(seq![Instr::Push]));
                    assert(d.lines =~= value.lines + seq![Instr::Push]);
                    lemma_join_plain(value.lines, seq![Instr::Push], span(next, d.next));
                }
                lemma_items_tidy(tree, i + 1, d.map, d.scope, d.idx, d.next);
                lemma_join(
                    d.lines,
                    rest.lines,
                    span(next, d.next),
                    span(d.next, rest.next),
                    span(next, rest.next),
                );
            },
            NodeType::Stmt(StmtType::Compound) => {
                let b = lower_block(item, map, idx, next)->Ok_0;
                let rest = lower_items(tree, i + 1, map, scope, idx, b.next)->Ok_0;
                lemma_block_tidy(item, map, idx, next);
                lemma_items_tidy(tree, i + 1, map, scope, idx, b.next);
                lemma_join(
                    b.lines,
                    rest.lines,
                    span(next, b.next),
                    span(b.next, rest.next),
                    span(next, rest.next),
                );
            },
            _ => {
                let s = lower_stmt(item, map, idx, next)->Ok_0;
                let rest = lower_items(tree, i + 1, map, scope, idx, s.next)->Ok_0;
                lemma_stmt_tidy(item, map, idx, next);
                lemma_items_tidy(tree, i + 1, map, scope, idx, s.next);
                lemma_join(
                    s.lines,
                    rest.lines,
                    span(next, s.next),
                    span(s.next, rest.next),
                    span(next, rest.next),
                );
            },
        }
    }
}

/// The lines of a lowered block are tidy.
pub proof fn lemma_block_tidy(tree: ParseNode, map: Map<Seq<char>, int>, idx: int, next: nat)
    requires
        lower_block(tree, map, idx, next) is Ok,
    ensures
        lowered_tidy(lower_block(tree, map, idx, next)->Ok_0, next),
    decreases tree, 1nat, 0nat,
{
    let items = lower_items(tree, 0, map, Set::empty(), idx, next)->Ok_0;
    let release = seq![Instr::Release(8 * items.scope.len())];
    lemma_items_tidy(tree, 0, map, Set::empty(), idx, next);
    assert(plain(release));
    assert(lower_block(tree, map, idx, next)->Ok_0.lines =~= items.lines + release);
    lemma_join_plain(items.lines, release, span(next, items.next));
}

/// The lines of a lowered function are tidy.
pub proof fn lemma_function_tidy(tree: ParseNode, next: nat)
    requires
        lower_function(tree, next) is Ok,
    ensures
        lowered_tidy(lower_function(tree, next)->Ok_0, next),
{
    match tree.entry {
        NodeType::Fn(name) => {
            let body = lower_block(tree, Map::empty(), 0, next + 1)->Ok_0;
            let open = prologue(name@, label_text("FB"@, next));
            let falls = if crate::lower::always_returns(tree) {
                Seq::<Instr>::empty()
            } else {
                fallback()
            };
            let close = seq![
                Instr::CfiEnd,
                Instr::Label(label_text("FE"@, body.next)),
                Instr::Size(name@),
            ];
            lemma_block_tidy(tree, Map::empty(), 0, next + 1);
            lemma_one_label_tidy(open, 3, "FB"@, next, span(next, next + 1));
            lemma_one_label_tidy(close, 1, "FE"@, body.next, span(body.next, body.next + 1));
            assert(plain(falls));
            assert(plain(epilogue()));
            let u = span(next, body.next);
            lemma_join(open, body.lines, span(next, next + 1), span(next + 1, body.next), u);
            lemma_join_plain(open + body.lines, falls, u);
            lemma_join_plain(open + body.lines + falls, epilogue(), u);
            lemma_join(
                open + body.lines + falls + epilogue(),
                close,
                u,
                span(body.next, body.next + 1),
                span(next, body.next + 1),
            );
        },
        _ => {},
    }
}

/// The lines of the lowered functions of a program are tidy.
pub proof fn lemma_functions_tidy(tree: ParseNode, i: int, next: nat)
    requires
        0 <= i,
        lower_functions(tree, i, next) is Ok,
    ensures
        lowered_tidy(lower_functions(tree, i, next)->Ok_0, next),
    decreases tree.child.len() - i,
{
    if i >= tree.child.len() {
        lemma_plain_tidy(Seq::<Instr>::empty(), span(next, next));
    } else {
        let f = lower_function(tree.child[i], next)->Ok_0;
        let rest = lower_functions(tree, i + 1, f.next)->Ok_0;
        lemma_function_tidy(tree.child[i], next);
        lemma_functions_tidy(tree, i + 1, f.next);
        lemma_join(
            f.lines,
            rest.lines,
            span(next, f.next),
            span(f.next, rest.next),
            span(next, rest.next),
        );
    }
}

/// No two lines of a lowered program are the same jump target.
pub proof fn law_program_labels_unique(tree: ParseNode, next: nat)
    requires
        lower_program(tree, next) is Ok,
    ensures
        labels_unique(lower_program(tree, next)->Ok_0.lines),
{
    match tree.entry {
        NodeType::Prog(name) => {
            let functions = lower_functions(tree, 0, next)->Ok_0;
            let first = seq![Instr::File(name@)];
            let last = seq![Instr::Ident, Instr::NoExecStack];
            lemma_functions_tidy(tree, 0, next);
            assert(plain(first));
            assert(plain(last));
            lemma_plain_tidy(first, Set::empty());
            let s = span(next, functions.next);
            lemma_join(first, functions.lines, Set::empty(), s, s);
            lemma_join_plain(first + functions.lines, last, s);
        },
        _ => {},
    }
}

} // verus!
