//! What holds of every lowering: labels, slots, releases and returns.

use crate::ast::{NodeType, ParseNode};
use crate::code::Instr;
use crate::error::Failure;
use crate::label::{label_text, lemma_labels_distinct, numeral_extends};
use crate::lower::{
    always_returns, declarations_from, epilogue, fallback, lower_block, lower_declare,
    lower_function, lower_items,
};
use crate::numeral::is_digit;
use vstd::prelude::*;

verus! {

/// Whether `p` is one of the prefixes that the lowering gives its labels.
pub open spec fn lowering_prefix(p: Seq<char>) -> bool {
    p == "FB"@ || p == "FE"@ || p == "E3"@ || p == "ENDCOND"@ || p == "S2"@ || p == "ENDIF"@ || p
        == "CLAUSE"@ || p == "END"@ || p == "clause"@ || p == "end"@
}

/// None of the lowering's prefixes is another one followed by a numeral.
pub proof fn lemma_lowering_prefixes_apart(p: Seq<char>, q: Seq<char>)
    requires
        lowering_prefix(p),
        lowering_prefix(q),
    ensures
        !numeral_extends(p, q),
{
    reveal_strlit("FB");
    reveal_strlit("FE");
    reveal_strlit("E3");
    reveal_strlit("ENDCOND");
    reveal_strlit("S2");
    reveal_strlit("ENDIF");
    reveal_strlit("CLAUSE");
    reveal_strlit("END");
    reveal_strlit("clause");
    reveal_strlit("end");
    assert(p.len() >= 2);
    if p.len() < q.len() {
        assert(!is_digit(q[p.len() as int]));
    }
}

/// Over one run the labels are pairwise distinct: the `i`-th and the `j`-th
/// allocation after `start` earlier ones give different texts, whatever
/// their prefixes, unless one prefix is the other followed by a numeral.
pub proof fn law_labels_pairwise_distinct(prefixes: Seq<Seq<char>>, start: nat, i: int, j: int)
    requires
        0 <= i < j < prefixes.len(),
        !numeral_extends(prefixes[i], prefixes[j]),
        !numeral_extends(prefixes[j], prefixes[i]),
    ensures
        label_text(prefixes[i], (start + i) as nat) != label_text(prefixes[j], (start + j) as nat),
{
    lemma_labels_distinct(prefixes[i], (start + i) as nat, prefixes[j], (start + j) as nat);
}

/// Two labels of the lowering with different numbers are different texts.
pub proof fn law_lowering_labels_distinct(p: Seq<char>, n: nat, q: Seq<char>, m: nat)
    requires
        lowering_prefix(p),
        lowering_prefix(q),
        n != m,
    ensures
        label_text(p, n) != label_text(q, m),
{
    lemma_lowering_prefixes_apart(p, q);
    lemma_lowering_prefixes_apart(q, p);
    lemma_labels_distinct(p, n, q, m);
}

/// Each declaration takes the slot eight bytes below the cursor and leaves
/// the cursor there: of two declarations in a row, the second gets the slot
/// eight bytes below the first one's.
pub proof fn law_slots_go_down_by_eight(
    first: ParseNode,
    second: ParseNode,
    map: Map<Seq<char>, int>,
    scope: Set<Seq<char>>,
    idx: int,
    next: nat,
)
    requires
        lower_declare(first, map, scope, idx, next) is Ok,
        ({
            let d = lower_declare(first, map, scope, idx, next)->Ok_0;
            lower_declare(second, d.map, d.scope, d.idx, d.next) is Ok
        }),
    ensures
        ({
            let d1 = lower_declare(first, map, scope, idx, next)->Ok_0;
            let d2 = lower_declare(second, d1.map, d1.scope, d1.idx, d1.next)->Ok_0;
            &&& first.entry matches NodeType::Declare(a)
            &&& second.entry matches NodeType::Declare(b)
            &&& d1.idx == idx - 8
            &&& d1.map[a@] == idx - 8
            &&& d2.idx == idx - 16
            &&& d2.map[b@] == idx - 16
            &&& d2.map[b@] < d1.map[a@]
        }),
{
}

/// A declaration of a name that the block has declared fails, and names the
/// variable; one without an initialiser of a name that it has not succeeds.
/// What the blocks around have declared plays no part: a nested block can
/// declare the name again.
pub proof fn law_redeclaration_rejected(
    tree: ParseNode,
    map: Map<Seq<char>, int>,
    scope: Set<Seq<char>>,
    idx: int,
    next: nat,
)
    requires
        tree.entry is Declare,
    ensures
        ({
            let name = tree.entry->Declare_0@;
            let r = lower_declare(tree, map, scope, idx, next);
            &&& scope.contains(name) ==> r == Err::<crate::lower::Declared, Failure>(
                Failure::RedeclarationError(name),
            )
            &&& !scope.contains(name) && tree.child.len() == 0 ==> r is Ok
        }),
{
}

/// The items of a block add one name to the scope set for each declaration
/// among them.
pub proof fn lemma_items_scope(
    tree: ParseNode,
    i: int,
    map: Map<Seq<char>, int>,
    scope: Set<Seq<char>>,
    idx: int,
    next: nat,
)
    requires
        0 <= i,
        scope.finite(),
        lower_items(tree, i, map, scope, idx, next) is Ok,
    ensures
        ({
            let items = lower_items(tree, i, map, scope, idx, next)->Ok_0;
            items.scope.finite() && items.scope.len() == scope.len() + declarations_from(tree, i)
        }),
    decreases tree.child.len() - i,
{
    if i < tree.child.len() {
        let item = tree.child[i];
        match item.entry {
            NodeType::Declare(name) => {
                let d = lower_declare(item, map, scope, idx, next)->Ok_0;
                lemma_items_scope(tree, i + 1, d.map, d.scope, d.idx, d.next);
            },
            NodeType::Stmt(crate::ast::StmtType::Compound) => {
                let b = lower_block(item, map, idx, next)->Ok_0;
                lemma_items_scope(tree, i + 1, map, scope, idx, b.next);
            },
            _ => {
                let s = crate::lower::lower_stmt(item, map, idx, next)->Ok_0;
                lemma_items_scope(tree, i + 1, map, scope, idx, s.next);
            },
        }
    }
}

/// A block ends by releasing eight bytes for each variable that it declares
/// itself, whatever is in sight from the blocks around it.
pub proof fn law_block_releases_its_own_slots(
    tree: ParseNode,
    map: Map<Seq<char>, int>,
    idx: int,
    next: nat,
)
    requires
        lower_block(tree, map, idx, next) is Ok,
    ensures
        lower_block(tree, map, idx, next)->Ok_0.lines.last() == Instr::Release(
            8 * declarations_from(tree, 0),
        ),
{
    lemma_items_scope(tree, 0, map, Set::empty(), idx, next);
}

/// A function whose body may run to its end returns 0 there: its lines end
/// with the return of 0, the epilogue and the three closing lines.
pub proof fn law_implicit_return(tree: ParseNode, next: nat)
    requires
        lower_function(tree, next) is Ok,
        !always_returns(tree),
    ensures
        ({
            let lines = lower_function(tree, next)->Ok_0.lines;
            &&& lines.len() >= 11
            &&& lines.subrange(lines.len() - 11, lines.len() - 6) == fallback()
            &&& lines.subrange(lines.len() - 6, lines.len() - 3) == epilogue()
            &&& fallback() == seq![
                Instr::MovImm(0),
                Instr::RestoreStack,
                Instr::PopBase,
                Instr::CfiRestore,
                Instr::Ret,
            ]
        }),
{
    let lines = lower_function(tree, next)->Ok_0.lines;
    assert(fallback().len() == 5);
    assert(epilogue().len() == 3);
    assert(lines.subrange(lines.len() - 11, lines.len() - 6) =~= fallback());
    assert(lines.subrange(lines.len() - 6, lines.len() - 3) =~= epilogue());
    assert(fallback() =~= seq![
        Instr::MovImm(0),
        Instr::RestoreStack,
        Instr::PopBase,
        Instr::CfiRestore,
        Instr::Ret,
    ]);
}

/// A function whose body returns on every path has no return of 0 added:
/// the epilogue and the closing lines follow the body at once.
pub proof fn law_no_fallback_after_return(tree: ParseNode, next: nat)
    requires
        lower_function(tree, next) is Ok,
        always_returns(tree),
    ensures
        ({
            let lines = lower_function(tree, next)->Ok_0.lines;
            let body = lower_block(tree, Map::empty(), 0, next + 1)->Ok_0.lines;
            &&& lines.len() == 10 + body.len() + 6
            &&& lines.subrange(10, 10 + body.len() as int) == body
            &&& lines.subrange(10 + body.len() as int, 13 + body.len() as int) == epilogue()
        }),
{
    let lines = lower_function(tree, next)->Ok_0.lines;
    let body = lower_block(tree, Map::empty(), 0, next + 1)->Ok_0.lines;
    assert(epilogue().len() == 3);
    assert(lines.subrange(10, 10 + body.len() as int) =~= body);
    assert(lines.subrange(10 + body.len() as int, 13 + body.len() as int) =~= epilogue());
}

} // verus!
