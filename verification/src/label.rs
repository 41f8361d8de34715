//! Unique jump labels.

use crate::numeral::{decimal, is_digit, lemma_decimal_injective, lemma_decimal_shape, push_decimal};
use vstd::prelude::*;
use vstd::string::*;

verus! {

/// The text of the label with the given prefix and number.
pub open spec fn label_text(prefix: Seq<char>, n: nat) -> Seq<char> {
    ".L"@ + prefix + decimal(n)
}

/// Whether `q` is `p` followed by a numeral that does not start with `0`.
pub open spec fn numeral_extends(p: Seq<char>, q: Seq<char>) -> bool {
    &&& p.len() < q.len()
    &&& q.subrange(0, p.len() as int) == p
    &&& q[p.len() as int] != '0'
    &&& forall|i: int| p.len() <= i < q.len() ==> is_digit(#[trigger] q[i])
}

/// Hands out labels numbered 0, 1, 2, ... over one run.
pub struct LabelAllocator {
    next: u64,
}

impl LabelAllocator {
    /// How many labels have been handed out; also the next label's number.
    pub closed spec fn issued(&self) -> nat {
        self.next as nat
    }

    /// An allocator whose first label has number 0.
    pub fn new() -> (r: Self)
        ensures
            r.issued() == 0,
    {
        LabelAllocator { next: 0 }
    }

    /// How many more labels can be handed out.
    pub fn remaining(&self) -> (r: u64)
        ensures
            r == u64::MAX - self.issued(),
    {
        u64::MAX - self.next
    }

    /// The label `.L<prefix><n>`, where `n` counts the labels handed out
    /// before this one.
    pub fn allocate(&mut self, prefix: &str) -> (label: String)
        requires
            old(self).issued() < u64::MAX,
        ensures
            label@ == label_text(prefix@, old(self).issued()),
            final(self).issued() == old(self).issued() + 1,
    {
        let mut label = String::from_str(".L");
        label.append(prefix);
        push_decimal(&mut label, self.next);
        self.next = self.next + 1;
        label
    }
}

/// Labels with different numbers are different texts, unless one prefix is
/// the other followed by a numeral.
pub proof fn lemma_labels_distinct(p: Seq<char>, n: nat, q: Seq<char>, m: nat)
    requires
        n != m,
        !numeral_extends(p, q),
        !numeral_extends(q, p),
    ensures
        label_text(p, n) != label_text(q, m),
{
    if label_text(p, n) == label_text(q, m) {
        let a = p + decimal(n);
        let b = q + decimal(m);
        assert(a =~= label_text(p, n).subrange(".L"@.len() as int, label_text(p, n).len() as int));
        assert(b =~= label_text(q, m).subrange(".L"@.len() as int, label_text(q, m).len() as int));
        assert(a == b);
        if p.len() <= q.len() {
            lemma_tails_differ(p, n, q, m);
        } else {
            lemma_tails_differ(q, m, p, n);
        }
    }
}

/// Two texts that end in numerals and are equal end in the same numeral,
/// unless the longer prefix is the shorter one followed by a numeral.
proof fn lemma_tails_differ(p: Seq<char>, n: nat, q: Seq<char>, m: nat)
    requires
        p + decimal(n) == q + decimal(m),
        p.len() <= q.len(),
        !numeral_extends(p, q),
    ensures
        n == m,
{
    let dn = decimal(n);
    let dm = decimal(m);
    let whole = p + dn;
    lemma_decimal_shape(n);
    lemma_decimal_shape(m);
    assert(whole.len() == p.len() + dn.len());
    assert(whole.len() == q.len() + dm.len());
    assert(q.subrange(0, p.len() as int) =~= p) by {
        assert forall|i: int| 0 <= i < p.len() implies q[i] == p[i] by {
            assert(whole[i] == p[i]);
            assert((q + dm)[i] == q[i]);
        }
    }
    if p.len() < q.len() {
        let k = (q.len() - p.len()) as int;
        assert forall|i: int| p.len() <= i < q.len() implies is_digit(#[trigger] q[i]) by {
            assert((q + dm)[i] == q[i]);
            assert(whole[i] == dn[i - p.len()]);
        }
        assert((q + dm)[p.len() as int] == q[p.len() as int]);
        assert(whole[p.len() as int] == dn[0]);
        assert(dn.len() == k + dm.len());
        assert(dn.len() >= 2);
        if dn[0] == '0' {
            assert(n == 0);
            assert(dn.len() == 1);
        }
        assert(false);
    } else {
        assert(dn =~= dm) by {
            assert(dn.len() == dm.len());
            assert forall|i: int| 0 <= i < dn.len() implies dn[i] == dm[i] by {
                assert(whole[p.len() + i] == dn[i]);
                assert((q + dm)[q.len() + i] == dm[i]);
            }
        }
        lemma_decimal_injective(n, m);
    }
}

} // verus!
