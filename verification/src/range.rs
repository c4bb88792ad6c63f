//! Sets of 64-bit integers, kept as ascending closed intervals that neither
//! overlap nor touch.

use vstd::prelude::*;

verus! {

/// `x` lies in the closed interval `p`.
pub open spec fn within(p: (i64, i64), x: int) -> bool {
    p.0 <= x <= p.1
}

/// `x` lies in one of the intervals of `s`.
pub open spec fn holds(s: Seq<(i64, i64)>, x: int) -> bool {
    exists|k: int| 0 <= k < s.len() && #[trigger] within(s[k], x)
}

/// `x` lies in one of the first `n` intervals of `s`.
pub open spec fn holds_before(s: Seq<(i64, i64)>, n: int, x: int) -> bool {
    exists|k: int| 0 <= k < n && k < s.len() && #[trigger] within(s[k], x)
}

/// The integers that the intervals of `s` cover.
pub open spec fn covered(s: Seq<(i64, i64)>) -> Set<int> {
    Set::new(|x: int| holds(s, x))
}

/// The integers from `lower` to `upper`, both included.
pub open spec fn span(lower: int, upper: int) -> Set<int> {
    Set::new(|x: int| lower <= x <= upper)
}

/// No interval is empty, and every interval ends more than one below the
/// start of each later one: the intervals ascend, do not overlap and do not
/// touch.
pub open spec fn canonical(s: Seq<(i64, i64)>) -> bool {
    &&& forall|k: int| 0 <= k < s.len() ==> (#[trigger] s[k]).0 <= s[k].1
    &&& forall|k: int, l: int|
        0 <= k < l < s.len() ==> (#[trigger] s[k]).1 + 1 < (#[trigger] s[l]).0
}

/// No interval is empty and the lower bounds never descend.
pub open spec fn ascending(s: Seq<(i64, i64)>) -> bool {
    &&& forall|k: int| 0 <= k < s.len() ==> (#[trigger] s[k]).0 <= s[k].1
    &&& forall|k: int, l: int|
        0 <= k < l < s.len() ==> (#[trigger] s[k]).0 <= (#[trigger] s[l]).0
}

/// Where `x` can lie relative to the `i`-th interval of a canonical sequence.
pub proof fn lemma_locate(s: Seq<(i64, i64)>, i: int, x: int)
    requires
        canonical(s),
        0 <= i < s.len(),
    ensures
        holds(s, x) ==> holds_before(s, i, x) || within(s[i], x) || (x > s[i].1 + 1 && i + 1
            < s.len() && x >= s[i + 1].0),
        holds_before(s, i, x) ==> holds(s, x) && x + 1 < s[i].0,
        within(s[i], x) ==> holds(s, x),
{
    if holds_before(s, i, x) {
        let k = choose|k: int| 0 <= k < i && k < s.len() && #[trigger] within(s[k], x);
        assert(within(s[k], x));
        assert(holds(s, x));
        assert(s[k].1 + 1 < s[i].0);
    }
    if within(s[i], x) {
        assert(holds(s, x));
    }
    if holds(s, x) {
        let k = choose|k: int| 0 <= k < s.len() && #[trigger] within(s[k], x);
        if k < i {
            assert(holds_before(s, i, x));
        } else if k > i {
            assert(s[i].1 + 1 < s[k].0);
            if k > i + 1 {
                assert(s[i + 1].1 + 1 < s[k].0);
                assert(s[i + 1].0 <= s[i + 1].1);
            }
        }
    }
}

/// Membership in a whole sequence is membership before its end.
pub proof fn lemma_holds_all(s: Seq<(i64, i64)>, x: int)
    ensures
        holds(s, x) <==> holds_before(s, s.len() as int, x),
        !holds_before(s, 0, x),
{
    if holds(s, x) {
        let k = choose|k: int| 0 <= k < s.len() && #[trigger] within(s[k], x);
        assert(holds_before(s, s.len() as int, x));
    }
    if holds_before(s, s.len() as int, x) {
        let k = choose|k: int| 0 <= k < s.len() && k < s.len() && #[trigger] within(s[k], x);
        assert(holds(s, x));
    }
}

/// What one more interval at the end adds.
pub proof fn lemma_push(s: Seq<(i64, i64)>, p: (i64, i64), x: int)
    ensures
        holds(s.push(p), x) <==> (holds(s, x) || within(p, x)),
{
    let t = s.push(p);
    if holds(t, x) {
        let k = choose|k: int| 0 <= k < t.len() && #[trigger] within(t[k], x);
        if k < s.len() {
            assert(t[k] == s[k]);
            assert(within(s[k], x));
        } else {
            assert(t[k] == p);
        }
    }
    if holds(s, x) {
        let k = choose|k: int| 0 <= k < s.len() && #[trigger] within(s[k], x);
        assert(t[k] == s[k]);
        assert(within(t[k], x));
    }
    if within(p, x) {
        assert(t[s.len() as int] == p);
        assert(within(t[s.len() as int], x));
    }
}

/// An interval that starts more than one above every end keeps a sequence
/// canonical.
pub proof fn lemma_push_canonical(s: Seq<(i64, i64)>, p: (i64, i64))
    requires
        canonical(s),
        p.0 <= p.1,
        forall|k: int| 0 <= k < s.len() ==> (#[trigger] s[k]).1 + 1 < p.0,
    ensures
        canonical(s.push(p)),
{
    let t = s.push(p);
    assert forall|k: int| 0 <= k < t.len() implies (#[trigger] t[k]).0 <= t[k].1 by {
        if k < s.len() {
            assert(t[k] == s[k]);
        }
    }
    assert forall|k: int, l: int| 0 <= k < l < t.len() implies (#[trigger] t[k]).1 + 1 < (
    #[trigger] t[l]).0 by {
        assert(t[k] == s[k]);
        if l < s.len() {
            assert(t[l] == s[l]);
        }
    }
}

/// Two canonical sequences that cover the same integers are the same
/// sequence: a set of integers has at most one canonical form.
pub proof fn lemma_canonical_unique(a: Seq<(i64, i64)>, b: Seq<(i64, i64)>)
    requires
        canonical(a),
        canonical(b),
        covered(a) == covered(b),
    ensures
        a == b,
    decreases a.len(),
{
    assert forall|x: int| holds(a, x) == holds(b, x) by {
        assert(covered(a).contains(x) == holds(a, x));
        assert(covered(b).contains(x) == holds(b, x));
    }
    if a.len() == 0 {
        if b.len() > 0 {
            assert(within(b[0], b[0].0 as int));
            assert(holds(b, b[0].0 as int));
            assert(holds(a, b[0].0 as int));
        }
        assert(a =~= b);
    } else if b.len() == 0 {
        assert(within(a[0], a[0].0 as int));
        assert(holds(a, a[0].0 as int));
        assert(holds(b, a[0].0 as int));
    } else {
        let n = a.len() - 1;
        let m = b.len() - 1;
        // The last intervals agree: first their upper ends, then their lower ends.
        lemma_last_agrees(a, b);
        lemma_last_agrees(b, a);
        assert(a[n] == b[m]);
        let a0 = a.drop_last();
        let b0 = b.drop_last();
        assert(canonical(a0));
        assert(canonical(b0));
        assert forall|x: int| holds(a0, x) == holds(b0, x) by {
            lemma_drop_last(a, x);
            lemma_drop_last(b, x);
        }
        assert(covered(a0) =~= covered(b0));
        lemma_canonical_unique(a0, b0);
        assert(a =~= a0.push(a[n]));
        assert(b =~= b0.push(b[m]));
    }
}

/// Without its last interval a canonical sequence covers what it covered
/// below that interval.
proof fn lemma_drop_last(s: Seq<(i64, i64)>, x: int)
    requires
        canonical(s),
        s.len() > 0,
    ensures
        holds(s.drop_last(), x) <==> (holds(s, x) && x < s[s.len() - 1].0),
{
    let t = s.drop_last();
    let n = s.len() - 1;
    if holds(t, x) {
        let k = choose|k: int| 0 <= k < t.len() && #[trigger] within(t[k], x);
        assert(t[k] == s[k]);
        assert(within(s[k], x));
        assert(s[k].1 + 1 < s[n].0);
    }
    if holds(s, x) && x < s[n].0 {
        let k = choose|k: int| 0 <= k < s.len() && #[trigger] within(s[k], x);
        assert(k < n);
        assert(t[k] == s[k]);
        assert(within(t[k], x));
    }
}

/// If `b` covers what `a` covers, the last interval of `a` lies inside the
/// last interval of `b`.
proof fn lemma_last_agrees(a: Seq<(i64, i64)>, b: Seq<(i64, i64)>)
    requires
        canonical(a),
        canonical(b),
        a.len() > 0,
        b.len() > 0,
        forall|x: int| holds(a, x) == holds(b, x),
    ensures
        a[a.len() - 1].1 <= b[b.len() - 1].1,
        a[a.len() - 1].1 == b[b.len() - 1].1 ==> b[b.len() - 1].0 <= a[a.len() - 1].0,
{
    let n = a.len() - 1;
    let m = b.len() - 1;
    let hi = a[n].1 as int;
    assert(within(a[n], hi));
    assert(holds(a, hi));
    assert(holds(b, hi));
    let k = choose|k: int| 0 <= k < b.len() && #[trigger] within(b[k], hi);
    if k < m {
        assert(b[k].1 + 1 < b[m].0);
    }
    assert(b[k].1 <= b[m].1);
    if a[n].1 == b[m].1 {
        if b[m].0 > a[n].0 {
            // The integer just below the last interval of `b` is covered by `a`
            // and so by `b`, which has nothing there.
            let y = b[m].0 - 1;
            assert(within(a[n], y));
            assert(holds(a, y));
            assert(holds(b, y));
            let l = choose|l: int| 0 <= l < b.len() && #[trigger] within(b[l], y);
            if l < m {
                assert(b[l].1 + 1 < b[m].0);
            }
        }
    }
}

/// What the `i`-th interval adds to the ones before it.
pub proof fn lemma_before_step(s: Seq<(i64, i64)>, i: int, x: int)
    requires
        0 <= i < s.len(),
    ensures
        holds_before(s, i + 1, x) <==> (holds_before(s, i, x) || within(s[i], x)),
{
    if holds_before(s, i + 1, x) {
        let k = choose|k: int| 0 <= k < i + 1 && k < s.len() && #[trigger] within(s[k], x);
        if k < i {
            assert(holds_before(s, i, x));
        }
    }
    if holds_before(s, i, x) {
        let k = choose|k: int| 0 <= k < i && k < s.len() && #[trigger] within(s[k], x);
        assert(within(s[k], x));
        assert(holds_before(s, i + 1, x));
    }
    if within(s[i], x) {
        assert(holds_before(s, i + 1, x));
    }
}

/// An interval that starts no lower than the ones before it keeps a sequence
/// ascending.
pub proof fn lemma_push_ascending(s: Seq<(i64, i64)>, p: (i64, i64))
    requires
        ascending(s),
        p.0 <= p.1,
        forall|k: int| 0 <= k < s.len() ==> (#[trigger] s[k]).0 <= p.0,
    ensures
        ascending(s.push(p)),
{
    let t = s.push(p);
    assert forall|k: int| 0 <= k < t.len() implies (#[trigger] t[k]).0 <= t[k].1 by {
        if k < s.len() {
            assert(t[k] == s[k]);
        }
    }
    assert forall|k: int, l: int| 0 <= k < l < t.len() implies (#[trigger] t[k]).0 <= (
    #[trigger] t[l]).0 by {
        assert(t[k] == s[k]);
        if l < s.len() {
            assert(t[l] == s[l]);
        }
    }
}

/// An empty sequence covers nothing.
pub proof fn lemma_empty(s: Seq<(i64, i64)>)
    requires
        s.len() == 0,
    ensures
        covered(s) == Set::<int>::empty(),
        canonical(s),
{
    assert forall|x: int| !holds(s, x) by {
        if holds(s, x) {
            let k = choose|k: int| 0 <= k < s.len() && #[trigger] within(s[k], x);
        }
    }
    assert(covered(s) =~= Set::<int>::empty());
}

/// The least integer that `difference` has not decided yet: the start of
/// what is left of the interval in hand, else the start of the next
/// interval, else a bound above every 64-bit integer.
pub open spec fn frontier(s: Seq<(i64, i64)>, next: int, fresh: bool, a: i64) -> int {
    if !fresh {
        a as int
    } else if next < s.len() {
        s[next].0 as int
    } else {
        i64::MAX + 2
    }
}

/// The canonical sequence that covers exactly `values`, where there is one.
pub open spec fn normal_form(values: Set<int>) -> Seq<(i64, i64)> {
    choose|q: Seq<(i64, i64)>| canonical(q) && covered(q) == values
}

/// The canonical sequence that covers what a canonical sequence covers is
/// that sequence.
pub proof fn lemma_normal_form(s: Seq<(i64, i64)>)
    requires
        canonical(s),
    ensures
        normal_form(covered(s)) == s,
{
    let q = normal_form(covered(s));
    assert(canonical(q) && covered(q) == covered(s));
    lemma_canonical_unique(q, s);
}

/// A set of 64-bit integers.
#[derive(Debug, PartialEq)]
pub struct Range {
    /// The intervals of the set, each with its lower and its upper bound,
    /// both included.
    ranges: Vec<(i64, i64)>,
}

impl View for Range {
    type V = Set<int>;

    /// The integers in the set.
    open spec fn view(&self) -> Set<int> {
        covered(self.intervals())
    }
}

impl Clone for Range {
    fn clone(&self) -> (r: Range)
        ensures
            r.intervals() == self.intervals(),
            r@ == self@,
            r.wf(),
    {
        proof {
            use_type_invariant(self);
        }
        let mut ranges: Vec<(i64, i64)> = Vec::new();
        let mut index: usize = 0;
        while index < self.ranges.len()
            invariant
                index <= self.ranges.len(),
                ranges@ == self.ranges@.take(index as int),
            decreases self.ranges.len() - index,
        {
            ranges.push(self.ranges[index]);
            index += 1;
            assert(ranges@ =~= self.ranges@.take(index as int));
        }
        assert(ranges@ =~= self.ranges@);
        Range { ranges }
    }
}

impl Range {
    /// The intervals are canonical. Every `Range` that executable code holds
    /// is well formed.
    #[verifier::type_invariant]
    pub open spec fn wf(&self) -> bool {
        canonical(self.intervals())
    }

    /// The intervals that hold the set, in ascending order.
    pub closed spec fn intervals(&self) -> Seq<(i64, i64)> {
        self.ranges@
    }

    /// The intervals of the set, in ascending order.
    pub fn get_ranges(&self) -> (r: &Vec<(i64, i64)>)
        ensures
            r@ == self.intervals(),
            canonical(r@),
            covered(r@) == self@,
    {
        proof {
            use_type_invariant(self);
        }
        &self.ranges
    }

    /// The integers from `lower` to `upper`, both included: none if
    /// `lower > upper`.
    pub fn from(lower: i64, upper: i64) -> (r: Range)
        ensures
            r.wf(),
            r.intervals() == if lower <= upper {
                seq![(lower, upper)]
            } else {
                Seq::<(i64, i64)>::empty()
            },
            r@ == span(lower as int, upper as int),
    {
        let mut ranges: Vec<(i64, i64)> = Vec::new();
        if lower <= upper {
            ranges.push((lower, upper));
        }
        proof {
            assert(ranges@ =~= if lower <= upper {
                seq![(lower, upper)]
            } else {
                Seq::<(i64, i64)>::empty()
            });
            assert forall|x: int| holds(ranges@, x) == (lower <= x <= upper) by {
                if holds(ranges@, x) {
                    let k = choose|k: int| 0 <= k < ranges@.len() && #[trigger] within(ranges@[k], x);
                }
                if lower <= x <= upper {
                    assert(within(ranges@[0], x));
                }
            }
            assert(covered(ranges@) =~= span(lower as int, upper as int));
        }
        Range { ranges }
    }

    /// The integers that are in both sets.
    pub fn intersect(&self, other: &Range) -> (r: Range)
        ensures
            r.wf(),
            r@ == self@.intersect(other@),
    {
        proof {
            use_type_invariant(self);
            use_type_invariant(other);
        }
        let self_len = self.ranges.len();
        let other_len = other.ranges.len();
        let mut ranges: Vec<(i64, i64)> = Vec::new();
        let mut self_index: usize = 0;
        let mut other_index: usize = 0;
        while self_index < self_len && other_index < other_len
            invariant
                self_len == self.ranges.len(),
                other_len == other.ranges.len(),
                self_index <= self_len,
                other_index <= other_len,
                canonical(self.ranges@),
                canonical(other.ranges@),
                canonical(ranges@),
                forall|x: int| #[trigger]
                    holds(ranges@, x) ==> holds(self.ranges@, x) && holds(other.ranges@, x),
                forall|x: int|
                    holds(other.ranges@, x) && #[trigger] holds_before(
                        self.ranges@,
                        self_index as int,
                        x,
                    ) ==> holds(ranges@, x),
                forall|x: int|
                    holds(self.ranges@, x) && #[trigger] holds_before(
                        other.ranges@,
                        other_index as int,
                        x,
                    ) ==> holds(ranges@, x),
                self_index < self_len && other_index < other_len ==> forall|k: int|
                    0 <= k < ranges.len() ==> (#[trigger] ranges[k]).1 + 1
                        < self.ranges[self_index as int].0 || ranges[k].1 + 1
                        < other.ranges[other_index as int].0,
            decreases (self_len - self_index) + (other_len - other_index),
        {
            let (a, b) = self.ranges[self_index];
            let (c, d) = other.ranges[other_index];
            let ghost before = ranges@;
            let ghost i = self_index as int;
            let ghost j = other_index as int;
            let ghost piece: Option<(i64, i64)> = None;
            if a > d {
                //       a  b
                // ------+--+-
                //  c  d
                // -+--+------
                other_index += 1;
            } else if a >= c && b > d {
                //     a  b        a  b
                // ----+--+-    ---+--+-
                //  c  d     OR  c  d
                // -+--+----    -+--+---
                ranges.push((a, d));
                proof {
                    piece = Some((a, d));
                }
                other_index += 1;
            } else if a >= c && b <= d {
                //    a b        a b
                // ---+-+-    ---+-+-
                //  c   d  OR  c    d
                // -+---+-    -+----+-
                ranges.push((a, b));
                proof {
                    piece = Some((a, b));
                }
                self_index += 1;
            } else if b >= d {
                //  a     b      a    b
                // -+-----+-    -+----+-
                //    c  d   OR    c  d
                // ---+--+--    ---+--+-
                ranges.push((c, d));
                proof {
                    piece = Some((c, d));
                }
                other_index += 1;
            } else if b < c {
                //  a  b
                // -+--+-----
                //      c  d
                // -----+--+-
                self_index += 1;
            } else {
                //  a  b
                // -+--+-----
                //    c  d
                // ---+--+-
                ranges.push((c, b));
                proof {
                    piece = Some((c, b));
                }
                self_index += 1;
            }
            proof {
                let sa = self.ranges@;
                let sb = other.ranges@;
                assert(sa[i] == (a, b));
                assert(sb[j] == (c, d));
                if let Some(p) = piece {
                    assert(ranges@ == before.push(p));
                    lemma_push_canonical(before, p);
                } else {
                    assert(ranges@ == before);
                }
                assert forall|x: int| #[trigger]
                    holds(ranges@, x) implies holds(sa, x) && holds(sb, x) by {
                    lemma_locate(sa, i, x);
                    lemma_locate(sb, j, x);
                    if let Some(p) = piece {
                        lemma_push(before, p, x);
                    }
                }
                assert forall|x: int|
                    holds(sb, x) && #[trigger] holds_before(
                        sa,
                        self_index as int,
                        x,
                    ) implies holds(ranges@, x) by {
                    lemma_locate(sa, i, x);
                    lemma_locate(sb, j, x);
                    if let Some(p) = piece {
                        lemma_push(before, p, x);
                    }
                }
                assert forall|x: int|
                    holds(sa, x) && #[trigger] holds_before(
                        sb,
                        other_index as int,
                        x,
                    ) implies holds(ranges@, x) by {
                    lemma_locate(sa, i, x);
                    lemma_locate(sb, j, x);
                    if let Some(p) = piece {
                        lemma_push(before, p, x);
                    }
                }
                if self_index < self_len && other_index < other_len {
                    assert forall|k: int| 0 <= k < ranges.len() implies (#[trigger] ranges[k]).1
                        + 1 < sa[self_index as int].0 || ranges[k].1 + 1
                        < sb[other_index as int].0 by {
                        if k < before.len() {
                            assert(ranges[k] == before[k]);
                        }
                        if self_index > i {
                            assert(sa[i].1 + 1 < sa[i + 1].0);
                        }
                        if other_index > j {
                            assert(sb[j].1 + 1 < sb[j + 1].0);
                        }
                    }
                }
            }
        }
        proof {
            assert forall|x: int|
                holds(ranges@, x) == (holds(self.ranges@, x) && holds(other.ranges@, x)) by {
                lemma_holds_all(self.ranges@, x);
                lemma_holds_all(other.ranges@, x);
            }
            assert(covered(ranges@) =~= covered(self.ranges@).intersect(covered(other.ranges@)));
        }
        Range { ranges }
    }
    /// The integers that are in either set. Intervals that overlap or touch
    /// come out as one.
    pub fn union(&self, other: &Range) -> (r: Range)
        ensures
            r.wf(),
            r@ == self@.union(other@),
    {
        proof {
            use_type_invariant(self);
            use_type_invariant(other);
        }
        let self_len = self.ranges.len();
        let other_len = other.ranges.len();
        if self_len == 0 {
            let r = other.clone();
            proof {
                lemma_empty(self.ranges@);
                assert(r@ =~= self@.union(other@));
            }
            return r;
        }
        if other_len == 0 {
            let r = self.clone();
            proof {
                lemma_empty(other.ranges@);
                assert(r@ =~= self@.union(other@));
            }
            return r;
        }
        let ghost sa = self.ranges@;
        let ghost sb = other.ranges@;
        let mut merged: Vec<(i64, i64)> = Vec::new();
        let mut self_index: usize = 0;
        let mut other_index: usize = 0;
        while self_index < self_len && other_index < other_len
            invariant
                sa == self.ranges@,
                sb == other.ranges@,
                self_len == sa.len(),
                other_len == sb.len(),
                self_index <= self_len,
                other_index <= other_len,
                canonical(sa),
                canonical(sb),
                merged.len() == self_index + other_index,
                ascending(merged@),
                forall|k: int|
                    0 <= k < merged.len() ==> (self_index < self_len ==> (#[trigger] merged[k]).0
                        <= sa[self_index as int].0) && (other_index < other_len ==> merged[k].0
                        <= sb[other_index as int].0),
                forall|x: int| #[trigger]
                    holds(merged@, x) ==> holds_before(sa, self_index as int, x) || holds_before(
                        sb,
                        other_index as int,
                        x,
                    ),
                forall|x: int| #[trigger]
                    holds_before(sa, self_index as int, x) ==> holds(merged@, x),
                forall|x: int| #[trigger]
                    holds_before(sb, other_index as int, x) ==> holds(merged@, x),
            decreases (self_len - self_index) + (other_len - other_index),
        {
            let (a, b) = self.ranges[self_index];
            let (c, d) = other.ranges[other_index];
            let ghost before = merged@;
            let ghost i = self_index as int;
            let ghost j = other_index as int;
            if a <= c {
                merged.push((a, b));
                self_index += 1;
            } else {
                merged.push((c, d));
                other_index += 1;
            }
            proof {
                let p = if a <= c {
                    (a, b)
                } else {
                    (c, d)
                };
                assert(sa[i] == (a, b));
                assert(sb[j] == (c, d));
                lemma_push_ascending(before, p);
                assert forall|k: int| 0 <= k < merged.len() implies (self_index < self_len ==> (
                #[trigger] merged[k]).0 <= sa[self_index as int].0) && (other_index < other_len
                    ==> merged[k].0 <= sb[other_index as int].0) by {
                    if k < before.len() {
                        assert(merged[k] == before[k]);
                    }
                    if self_index > i && self_index < self_len {
                        assert(sa[i].1 + 1 < sa[i + 1].0);
                    }
                    if other_index > j && other_index < other_len {
                        assert(sb[j].1 + 1 < sb[j + 1].0);
                    }
                }
                assert forall|x: int| #[trigger] holds(merged@, x) implies holds_before(
                    sa,
                    self_index as int,
                    x,
                ) || holds_before(sb, other_index as int, x) by {
                    lemma_push(before, p, x);
                    lemma_before_step(sa, i, x);
                    lemma_before_step(sb, j, x);
                }
                assert forall|x: int| #[trigger]
                    holds_before(sa, self_index as int, x) implies holds(merged@, x) by {
                    lemma_push(before, p, x);
                    lemma_before_step(sa, i, x);
                }
                assert forall|x: int| #[trigger]
                    holds_before(sb, other_index as int, x) implies holds(merged@, x) by {
                    lemma_push(before, p, x);
                    lemma_before_step(sb, j, x);
                }
            }
        }
        while self_index < self_len
            invariant
                sa == self.ranges@,
                sb == other.ranges@,
                self_len == sa.len(),
                other_len == sb.len(),
                self_index <= self_len,
                other_index <= other_len,
                self_index == self_len || other_index == other_len,
                canonical(sa),
                merged.len() == self_index + other_index,
                ascending(merged@),
                forall|k: int|
                    0 <= k < merged.len() ==> (self_index < self_len ==> (#[trigger] merged[k]).0
                        <= sa[self_index as int].0) && (other_index < other_len ==> merged[k].0
                        <= sb[other_index as int].0),
                forall|x: int| #[trigger]
                    holds(merged@, x) ==> holds_before(sa, self_index as int, x) || holds_before(
                        sb,
                        other_index as int,
                        x,
                    ),
                forall|x: int| #[trigger]
                    holds_before(sa, self_index as int, x) ==> holds(merged@, x),
                forall|x: int| #[trigger]
                    holds_before(sb, other_index as int, x) ==> holds(merged@, x),
            decreases self_len - self_index,
        {
            let ghost before = merged@;
            let ghost i = self_index as int;
            let p = self.ranges[self_index];
            merged.push(p);
            self_index += 1;
            proof {
                lemma_push_ascending(before, p);
                assert forall|k: int| 0 <= k < merged.len() && self_index < self_len implies (
                #[trigger] merged[k]).0 <= sa[self_index as int].0 by {
                    if k < before.len() {
                        assert(merged[k] == before[k]);
                    }
                    assert(sa[i].1 + 1 < sa[i + 1].0);
                }
                assert forall|x: int| #[trigger] holds(merged@, x) implies holds_before(
                    sa,
                    self_index as int,
                    x,
                ) || holds_before(sb, other_index as int, x) by {
                    lemma_push(before, p, x);
                    lemma_before_step(sa, i, x);
                }
                assert forall|x: int| #[trigger]
                    holds_before(sa, self_index as int, x) implies holds(merged@, x) by {
                    lemma_push(before, p, x);
                    lemma_before_step(sa, i, x);
                }
                assert forall|x: int| #[trigger]
                    holds_before(sb, other_index as int, x) implies holds(merged@, x) by {
                    lemma_push(before, p, x);
                }
            }
        }
        while other_index < other_len
            invariant
                sa == self.ranges@,
                sb == other.ranges@,
                self_len == sa.len(),
                other_len == sb.len(),
                self_index == self_len,
                other_index <= other_len,
                canonical(sb),
                merged.len() == self_index + other_index,
                ascending(merged@),
                forall|k: int|
                    0 <= k < merged.len() ==> (other_index < other_len ==> (
                    #[trigger] merged[k]).0 <= sb[other_index as int].0),
                forall|x: int| #[trigger]
                    holds(merged@, x) ==> holds_before(sa, self_index as int, x) || holds_before(
                        sb,
                        other_index as int,
                        x,
                    ),
                forall|x: int| #[trigger]
                    holds_before(sa, self_index as int, x) ==> holds(merged@, x),
                forall|x: int| #[trigger]
                    holds_before(sb, other_index as int, x) ==> holds(merged@, x),
            decreases other_len - other_index,
        {
            let ghost before = merged@;
            let ghost j = other_index as int;
            let p = other.ranges[other_index];
            merged.push(p);
            other_index += 1;
            proof {
                lemma_push_ascending(before, p);
                assert forall|k: int| 0 <= k < merged.len() && other_index < other_len implies (
                #[trigger] merged[k]).0 <= sb[other_index as int].0 by {
                    if k < before.len() {
                        assert(merged[k] == before[k]);
                    }
                    assert(sb[j].1 + 1 < sb[j + 1].0);
                }
                assert forall|x: int| #[trigger] holds(merged@, x) implies holds_before(
                    sa,
                    self_index as int,
                    x,
                ) || holds_before(sb, other_index as int, x) by {
                    lemma_push(before, p, x);
                    lemma_before_step(sb, j, x);
                }
                assert forall|x: int| #[trigger]
                    holds_before(sa, self_index as int, x) implies holds(merged@, x) by {
                    lemma_push(before, p, x);
                }
                assert forall|x: int| #[trigger]
                    holds_before(sb, other_index as int, x) implies holds(merged@, x) by {
                    lemma_push(before, p, x);
                    lemma_before_step(sb, j, x);
                }
            }
        }
        // simplify
        let ghost sm = merged@;
        let total = merged.len();
        let (mut a, mut b) = merged[0];
        let mut ranges: Vec<(i64, i64)> = Vec::new();
        let mut read_head: usize = 1;
        proof {
            assert forall|x: int| (holds(ranges@, x) || a <= x <= b) == holds_before(
                sm,
                1,
                x,
            ) by {
                lemma_empty(ranges@);
                assert(covered(ranges@).contains(x) == holds(ranges@, x));
                lemma_holds_all(sm, x);
                lemma_before_step(sm, 0, x);
            }
        }
        while read_head < total
            invariant
                sm == merged@,
                total == sm.len(),
                1 <= read_head <= total,
                ascending(sm),
                canonical(ranges@),
                a <= b,
                forall|k: int| 0 <= k < ranges.len() ==> (#[trigger] ranges[k]).1 + 1 < a,
                forall|k: int| read_head <= k < total ==> a <= (#[trigger] sm[k]).0,
                forall|x: int|
                    (holds(ranges@, x) || a <= x <= b) == #[trigger] holds_before(
                        sm,
                        read_head as int,
                        x,
                    ),
            decreases total - read_head,
        {
            let (c, d) = merged[read_head];
            let ghost before = ranges@;
            let ghost a0 = a;
            let ghost b0 = b;
            let ghost r = read_head as int;
            let ghost emitted = false;
            if b < c && b + 1 < c {
                ranges.push((a, b));
                a = c;
                b = d;
                proof {
                    emitted = true;
                }
            } else if b < d {
                b = d;
            }
            read_head += 1;
            proof {
                assert(sm[r] == (c, d));
                if emitted {
                    lemma_push_canonical(before, (a0, b0));
                }
                assert forall|k: int| 0 <= k < ranges.len() implies (#[trigger] ranges[k]).1 + 1
                    < a by {
                    if k < before.len() {
                        assert(ranges[k] == before[k]);
                    }
                }
                assert forall|k: int| read_head <= k < total implies a <= (#[trigger] sm[k]).0 by {
                    assert(sm[r].0 <= sm[k].0);
                }
                assert forall|x: int|
                    (holds(ranges@, x) || a <= x <= b) == #[trigger] holds_before(
                        sm,
                        read_head as int,
                        x,
                    ) by {
                    lemma_before_step(sm, r, x);
                    if emitted {
                        lemma_push(before, (a0, b0), x);
                    }
                    assert((holds(before, x) || a0 <= x <= b0) == holds_before(sm, r, x));
                }
            }
        }
        proof {
            lemma_push_canonical(ranges@, (a, b));
        }
        let ghost before = ranges@;
        ranges.push((a, b));
        proof {
            assert forall|x: int| holds(ranges@, x) == (holds(sa, x) || holds(sb, x)) by {
                lemma_push(before, (a, b), x);
                lemma_holds_all(sm, x);
                lemma_holds_all(sa, x);
                lemma_holds_all(sb, x);
                assert((holds(before, x) || a <= x <= b) == holds_before(sm, total as int, x));
            }
            assert(covered(ranges@) =~= covered(sa).union(covered(sb)));
        }
        Range { ranges }
    }

    /// The integers that are in this set and not in `other`.
    pub fn difference(&self, other: &Range) -> (r: Range)
        ensures
            r.wf(),
            r@ == self@.difference(other@),
    {
        proof {
            use_type_invariant(self);
            use_type_invariant(other);
        }
        let self_len = self.ranges.len();
        let other_len = other.ranges.len();
        if self_len == 0 {
            let ranges: Vec<(i64, i64)> = Vec::new();
            proof {
                lemma_empty(self.ranges@);
                lemma_empty(ranges@);
                assert(covered(ranges@) =~= covered(self.ranges@).difference(
                    covered(other.ranges@),
                ));
            }
            return Range { ranges };
        }
        if other_len == 0 {
            let r = self.clone();
            proof {
                lemma_empty(other.ranges@);
                assert(r@ =~= self@.difference(other@));
            }
            return r;
        }
        let ghost sa = self.ranges@;
        let ghost sb = other.ranges@;
        let mut ranges: Vec<(i64, i64)> = Vec::new();
        let mut a: i64 = 0;
        let mut b: i64 = 0;
        let mut update_a_b = true;
        let mut next_self_index: usize = 0;
        let mut other_index: usize = 0;
        proof {
            lemma_empty(ranges@);
            assert forall|x: int| !holds(ranges@, x) by {
                assert(covered(ranges@).contains(x) == holds(ranges@, x));
            }
            assert forall|x: int| holds(sa, x) implies x >= sa[0].0 by {
                lemma_locate(sa, 0, x);
                lemma_holds_all(sa, x);
            }
            assert forall|x: int| !holds_before(sb, 0, x) by {
                lemma_holds_all(sb, x);
            }
        }
        while (next_self_index < self_len || (next_self_index == self_len && !update_a_b))
            && other_index < other_len
            invariant
                sa == self.ranges@,
                sb == other.ranges@,
                self_len == sa.len(),
                other_len == sb.len(),
                next_self_index <= self_len,
                other_index <= other_len,
                canonical(sa),
                canonical(sb),
                canonical(ranges@),
                !update_a_b ==> next_self_index >= 1 && sa[next_self_index - 1].0 <= a <= b && b
                    == sa[next_self_index - 1].1,
                forall|k: int|
                    0 <= k < ranges.len() ==> (#[trigger] ranges[k]).1 + 1 < frontier(
                        sa,
                        next_self_index as int,
                        update_a_b,
                        a,
                    ),
                forall|x: int| #[trigger]
                    holds_before(sb, other_index as int, x) ==> x < frontier(
                        sa,
                        next_self_index as int,
                        update_a_b,
                        a,
                    ),
                forall|x: int| #[trigger] holds(ranges@, x) ==> holds(sa, x) && !holds(sb, x),
                forall|x: int| #[trigger]
                    holds(sa, x) && !holds(sb, x) && x < frontier(
                        sa,
                        next_self_index as int,
                        update_a_b,
                        a,
                    ) ==> holds(ranges@, x),
            decreases
                    3 * (self_len - next_self_index) + 2 * (other_len - other_index) + (if update_a_b {
                        0int
                    } else {
                        1int
                    }) + (if !update_a_b && other_index < other_len && a
                        <= other.ranges[other_index as int].1 {
                        1int
                    } else {
                        0int
                    }),
        {
            let ghost f0 = frontier(sa, next_self_index as int, update_a_b, a);
            if update_a_b {
                let (l, u) = self.ranges[next_self_index];
                a = l;
                b = u;
                next_self_index += 1;
                update_a_b = false;
            }
            let (c, d) = other.ranges[other_index];
            let ghost before = ranges@;
            let ghost a0 = a;
            let ghost i = next_self_index as int;
            let ghost j = other_index as int;
            let ghost piece: Option<(i64, i64)> = None;
            assert(f0 == a0);
            if a > d {
                //       a  b
                // ------+--+-
                //  c  d
                // -+--+------
                other_index += 1;
            } else if a == d {
                //     a  b
                // ----+--+-
                //  c  d
                // -+--+----
                if d == i64::MAX {
                    update_a_b = true;
                } else {
                    a = d + 1;
                    update_a_b = a > b;
                }
            } else if a >= c && b > d {
                //    a  b
                // ---+--+-
                //  c  d
                // -+--+---
                a = d + 1;
                update_a_b = a > b;
                other_index += 1;
            } else if a >= c && b <= d {
                //    a b
                // ---+-+-
                //  c   d
                // -+---+-
                update_a_b = true;
            } else if b >= d {
                //  a     b      a    b
                // -+-----+-    -+----+--
                //    c  d   OR    c  d
                // ---+--+--    ---+--+--
                if a <= c - 1 {
                    ranges.push((a, c - 1));
                    proof {
                        piece = Some((a, (c - 1) as i64));
                    }
                }
                if d == i64::MAX {
                    update_a_b = true;
                } else {
                    a = d + 1;
                    update_a_b = a > b;
                }
                other_index += 1;
            } else if b < c {
                //  a  b
                // -+--+-----
                //      c  d
                // -----+--+-
                ranges.push((a, b));
                proof {
                    piece = Some((a, b));
                }
                update_a_b = true;
            } else {
                //  a  b
                // -+--+---
                //    c  d
                // ---+--+-
                if a <= c - 1 {
                    ranges.push((a, c - 1));
                    proof {
                        piece = Some((a, (c - 1) as i64));
                    }
                }
                update_a_b = true;
            }
            proof {
                let f1 = frontier(sa, next_self_index as int, update_a_b, a);
                assert(sa[i - 1].1 == b);
                assert(sb[j] == (c, d));
                if i < sa.len() {
                    assert(sa[i - 1].1 + 1 < sa[i].0);
                }
                assert(f0 <= f1);
                if let Some(p) = piece {
                    assert(ranges@ == before.push(p));
                    lemma_push_canonical(before, p);
                } else {
                    assert(ranges@ == before);
                }
                assert forall|k: int| 0 <= k < ranges.len() implies (#[trigger] ranges[k]).1 + 1
                    < f1 by {
                    if k < before.len() {
                        assert(ranges[k] == before[k]);
                    }
                }
                assert forall|x: int| #[trigger]
                    holds_before(sb, other_index as int, x) implies x < f1 by {
                    lemma_locate(sb, j, x);
                }
                assert forall|x: int| #[trigger] holds(ranges@, x) implies holds(sa, x) && !holds(
                    sb,
                    x,
                ) by {
                    lemma_locate(sa, i - 1, x);
                    lemma_locate(sb, j, x);
                    if let Some(p) = piece {
                        lemma_push(before, p, x);
                    }
                }
                assert forall|x: int| #[trigger]
                    holds(sa, x) && !holds(sb, x) && x < f1 implies holds(ranges@, x) by {
                    lemma_locate(sa, i - 1, x);
                    lemma_locate(sb, j, x);
                    if let Some(p) = piece {
                        lemma_push(before, p, x);
                    }
                }
            }
        }
        proof {
            if next_self_index < self_len {
                let i = next_self_index as int;
                assert forall|x: int| #[trigger] holds(sb, x) implies x < sa[i].0 by {
                    lemma_holds_all(sb, x);
                    if !update_a_b {
                        assert(sa[i - 1].1 + 1 < sa[i].0);
                    }
                }
            }
        }
        if !update_a_b {
            let ghost before = ranges@;
            proof {
                lemma_push_canonical(before, (a, b));
            }
            ranges.push((a, b));
            proof {
                let i = next_self_index as int;
                let f1 = frontier(sa, i, true, a);
                if i < sa.len() {
                    assert(sa[i - 1].1 + 1 < sa[i].0);
                }
                assert forall|k: int| 0 <= k < ranges.len() implies (#[trigger] ranges[k]).1 + 1
                    < f1 by {
                    if k < before.len() {
                        assert(ranges[k] == before[k]);
                    }
                }
                assert forall|x: int| #[trigger] holds(ranges@, x) implies holds(sa, x) && !holds(
                    sb,
                    x,
                ) by {
                    lemma_locate(sa, i - 1, x);
                    lemma_holds_all(sb, x);
                    lemma_push(before, (a, b), x);
                }
                assert forall|x: int| #[trigger]
                    holds(sa, x) && !holds(sb, x) && x < f1 implies holds(ranges@, x) by {
                    lemma_locate(sa, i - 1, x);
                    lemma_push(before, (a, b), x);
                }
            }
        }
        while next_self_index < self_len
            invariant
                sa == self.ranges@,
                sb == other.ranges@,
                self_len == sa.len(),
                next_self_index <= self_len,
                canonical(sa),
                canonical(ranges@),
                forall|k: int|
                    0 <= k < ranges.len() ==> (#[trigger] ranges[k]).1 + 1 < frontier(
                        sa,
                        next_self_index as int,
                        true,
                        a,
                    ),
                next_self_index < self_len ==> forall|x: int| #[trigger]
                    holds(sb, x) ==> x < sa[next_self_index as int].0,
                forall|x: int| #[trigger] holds(ranges@, x) ==> holds(sa, x) && !holds(sb, x),
                forall|x: int| #[trigger]
                    holds(sa, x) && !holds(sb, x) && x < frontier(
                        sa,
                        next_self_index as int,
                        true,
                        a,
                    ) ==> holds(ranges@, x),
            decreases self_len - next_self_index,
        {
            let ghost before = ranges@;
            let ghost i = next_self_index as int;
            let p = self.ranges[next_self_index];
            proof {
                lemma_push_canonical(before, p);
            }
            ranges.push(p);
            next_self_index += 1;
            proof {
                let f1 = frontier(sa, i + 1, true, a);
                if i + 1 < sa.len() {
                    assert(sa[i].1 + 1 < sa[i + 1].0);
                }
                assert forall|k: int| 0 <= k < ranges.len() implies (#[trigger] ranges[k]).1 + 1
                    < f1 by {
                    if k < before.len() {
                        assert(ranges[k] == before[k]);
                    }
                }
                assert forall|x: int| #[trigger] holds(ranges@, x) implies holds(sa, x) && !holds(
                    sb,
                    x,
                ) by {
                    lemma_locate(sa, i, x);
                    lemma_push(before, p, x);
                }
                assert forall|x: int| #[trigger]
                    holds(sa, x) && !holds(sb, x) && x < f1 implies holds(ranges@, x) by {
                    lemma_locate(sa, i, x);
                    lemma_push(before, p, x);
                }
            }
        }
        proof {
            assert forall|x: int| holds(ranges@, x) == (holds(sa, x) && !holds(sb, x)) by {
                if holds(sa, x) {
                    let k = choose|k: int| 0 <= k < sa.len() && #[trigger] within(sa[k], x);
                }
            }
            assert(covered(ranges@) =~= covered(sa).difference(covered(sb)));
        }
        Range { ranges }
    }
}

} // verus!
