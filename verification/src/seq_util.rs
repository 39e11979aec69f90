//! Small counting and filtering helpers over sequences.

use vstd::prelude::*;

verus! {

/// How many entries of `s` are `true`.
pub open spec fn count_marked(s: Seq<bool>) -> nat
    decreases s.len(),
{
    if s.len() == 0 {
        0
    } else {
        count_marked(s.drop_last()) + if s.last() { 1nat } else { 0nat }
    }
}

pub proof fn lemma_count_marked_le_len(s: Seq<bool>)
    ensures
        count_marked(s) <= s.len(),
    decreases s.len(),
{
    if s.len() > 0 {
        lemma_count_marked_le_len(s.drop_last());
    }
}

pub proof fn lemma_count_marked_set_true(s: Seq<bool>, i: int)
    requires
        0 <= i < s.len(),
        !s[i],
    ensures
        count_marked(s.update(i, true)) == count_marked(s) + 1,
    decreases s.len(),
{
    let t = s.update(i, true);
    if i == s.len() - 1 {
        assert(t.drop_last() =~= s.drop_last());
    } else {
        assert(t.drop_last() =~= s.drop_last().update(i, true));
        lemma_count_marked_set_true(s.drop_last(), i);
    }
}

/// The nonzero entries of `s`, in order.
pub open spec fn filter_nz(s: Seq<u8>) -> Seq<u8>
    decreases s.len(),
{
    if s.len() == 0 {
        Seq::empty()
    } else {
        filter_nz(s.drop_last()) + if s.last() == 0 { Seq::empty() } else { seq![s.last()] }
    }
}

/// How many entries of `s` are nonzero.
pub open spec fn count_nz(s: Seq<u8>) -> nat
    decreases s.len(),
{
    if s.len() == 0 {
        0
    } else {
        count_nz(s.drop_last()) + if s.last() == 0 { 0nat } else { 1nat }
    }
}

pub proof fn lemma_filter_nz_props(s: Seq<u8>)
    ensures
        filter_nz(s).len() == count_nz(s),
        count_nz(s) <= s.len(),
        forall|i: int| 0 <= i < filter_nz(s).len() ==> #[trigger] filter_nz(s)[i] != 0,
    decreases s.len(),
{
    if s.len() > 0 {
        lemma_filter_nz_props(s.drop_last());
    }
}

/// Zeroing one nonzero entry lowers the nonzero count by one.
pub proof fn lemma_count_nz_zero_one(s: Seq<u8>, i: int)
    requires
        0 <= i < s.len(),
        s[i] != 0,
    ensures
        count_nz(s.update(i, 0)) == count_nz(s) - 1,
    decreases s.len(),
{
    let t = s.update(i, 0);
    if i == s.len() - 1 {
        assert(t.drop_last() =~= s.drop_last());
    } else {
        assert(t.drop_last() =~= s.drop_last().update(i, 0));
        lemma_count_nz_zero_one(s.drop_last(), i);
    }
}

pub proof fn lemma_count_nz_concat(a: Seq<u8>, b: Seq<u8>)
    ensures
        count_nz(a + b) == count_nz(a) + count_nz(b),
    decreases b.len(),
{
    if b.len() == 0 {
        assert(a + b =~= a);
    } else {
        assert((a + b).drop_last() =~= a + b.drop_last());
        lemma_count_nz_concat(a, b.drop_last());
    }
}

/// A sequence of `n` zeros.
pub open spec fn zero_seq(n: nat) -> Seq<u8> {
    Seq::new(n, |i: int| 0u8)
}

pub proof fn lemma_count_nz_all_zero(s: Seq<u8>)
    requires
        forall|i: int| 0 <= i < s.len() ==> s[i] == 0,
    ensures
        count_nz(s) == 0,
    decreases s.len(),
{
    if s.len() > 0 {
        lemma_count_nz_all_zero(s.drop_last());
    }
}

pub proof fn lemma_count_nz_all_nonzero(s: Seq<u8>)
    requires
        forall|i: int| 0 <= i < s.len() ==> s[i] != 0,
    ensures
        count_nz(s) == s.len(),
    decreases s.len(),
{
    if s.len() > 0 {
        lemma_count_nz_all_nonzero(s.drop_last());
    }
}

/// Extending a scanned prefix by one element extends its nonzero filtering.
pub proof fn lemma_filter_nz_take_step(s: Seq<u8>, j: int)
    requires
        0 <= j < s.len(),
    ensures
        filter_nz(s.take(j + 1)) == filter_nz(s.take(j)) + (if s[j] == 0 {
            Seq::<u8>::empty()
        } else {
            seq![s[j]]
        }),
    decreases s.len(),
{
    let t = s.take(j + 1);
    assert(t.drop_last() =~= s.take(j));
    assert(t.last() == s[j]);
}

} // verus!
