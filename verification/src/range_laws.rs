//! The laws of set algebra, as they hold of `Range`.
//!
//! Each law takes the operands and whatever the operations returned for
//! them: a result is described by what the operation promises of it, that it
//! is well formed and which integers it holds.

use vstd::prelude::*;
use crate::range::{canonical, covered, lemma_canonical_unique, lemma_empty, Range};

verus! {

/// Two well-formed sets that hold the same integers hold them in the same
/// intervals.
pub proof fn law_same_values_same_intervals(a: Range, b: Range)
    requires
        a.wf(),
        b.wf(),
        a@ == b@,
    ensures
        a.intervals() == b.intervals(),
{
    lemma_canonical_unique(a.intervals(), b.intervals());
}

/// `a.union(b)` and `b.union(a)` are the same intervals.
pub proof fn law_union_commutative(a: Range, b: Range, ab: Range, ba: Range)
    requires
        ab.wf(),
        ab@ == a@.union(b@),
        ba.wf(),
        ba@ == b@.union(a@),
    ensures
        ab.intervals() == ba.intervals(),
{
    assert(ab@ =~= ba@);
    law_same_values_same_intervals(ab, ba);
}

/// `a.intersect(b)` and `b.intersect(a)` are the same intervals.
pub proof fn law_intersect_commutative(a: Range, b: Range, ab: Range, ba: Range)
    requires
        ab.wf(),
        ab@ == a@.intersect(b@),
        ba.wf(),
        ba@ == b@.intersect(a@),
    ensures
        ab.intervals() == ba.intervals(),
{
    assert(ab@ =~= ba@);
    law_same_values_same_intervals(ab, ba);
}

/// `a.intersect(a)` is `a`.
pub proof fn law_intersect_idempotent(a: Range, aa: Range)
    requires
        a.wf(),
        aa.wf(),
        aa@ == a@.intersect(a@),
    ensures
        aa.intervals() == a.intervals(),
{
    assert(aa@ =~= a@);
    law_same_values_same_intervals(aa, a);
}

/// `a.union(a)` is `a`.
pub proof fn law_union_idempotent(a: Range, aa: Range)
    requires
        a.wf(),
        aa.wf(),
        aa@ == a@.union(a@),
    ensures
        aa.intervals() == a.intervals(),
{
    assert(aa@ =~= a@);
    law_same_values_same_intervals(aa, a);
}

/// `a.difference(a)` has no interval.
pub proof fn law_difference_self_empty(a: Range, aa: Range)
    requires
        aa.wf(),
        aa@ == a@.difference(a@),
    ensures
        aa.intervals().len() == 0,
        aa@ == Set::<int>::empty(),
{
    assert(aa@ =~= Set::<int>::empty());
    let none = Seq::<(i64, i64)>::empty();
    lemma_empty(none);
    lemma_canonical_unique(aa.intervals(), none);
}

/// `a.union(b).difference(b.difference(a))` is the union of
/// `a.difference(b)` and `a.intersect(b)`, and both are `a`.
pub proof fn law_union_without_rest(
    a: Range,
    b: Range,
    a_or_b: Range,
    b_less_a: Range,
    left: Range,
    a_less_b: Range,
    a_and_b: Range,
    right: Range,
)
    requires
        a.wf(),
        a_or_b@ == a@.union(b@),
        b_less_a@ == b@.difference(a@),
        left.wf(),
        left@ == a_or_b@.difference(b_less_a@),
        a_less_b@ == a@.difference(b@),
        a_and_b@ == a@.intersect(b@),
        right.wf(),
        right@ == a_less_b@.union(a_and_b@),
    ensures
        left.intervals() == right.intervals(),
        left.intervals() == a.intervals(),
{
    assert(left@ =~= a@);
    assert(right@ =~= a@);
    law_same_values_same_intervals(left, a);
    law_same_values_same_intervals(right, a);
}

/// Whatever an operation returns is sorted, and no two of its intervals
/// overlap or touch: of two neighbours the first ends more than one below
/// the start of the second.
pub proof fn law_neighbours_apart(r: Range, k: int)
    requires
        r.wf(),
        0 <= k,
        k + 1 < r.intervals().len(),
    ensures
        r.intervals()[k].0 <= r.intervals()[k].1,
        r.intervals()[k].1 + 1 < r.intervals()[k + 1].0,
        r.intervals()[k + 1].0 <= r.intervals()[k + 1].1,
{
    assert(canonical(r.intervals()));
    assert(covered(r.intervals()) == r@);
}

} // verus!
