//! Streaming discovery of transpositions: which pairs of events of an original trace have been
//! observed in both orders, over a stream of traces that reorder it.
use vstd::prelude::*;
use rand::Rng;
use crate::rankset::RankSet;
use crate::unpermutables::set_views;
use vstd::arithmetic::power2::{lemma_pow2_pos, lemma_pow2_unfold, lemma2_to64, pow2};

verus! {

/// The position of an event in the original trace.
#[derive(Debug, Clone, Copy, PartialEq, Eq, Hash, PartialOrd, Ord, Structural)]
pub struct OgRank(pub u32);

/// The position of an event in an observed trace.
#[derive(Debug, Clone, Copy, PartialEq, Eq, Hash, PartialOrd, Ord, Structural)]
pub struct CurRank(pub u32);

/// A number of traces.
#[derive(Debug, Clone, Copy, PartialEq, Eq, Hash, PartialOrd, Ord, Structural)]
pub struct NTraces(pub u32);

/// A number of pairs observed in both orders.
#[derive(Debug, Clone, Copy, PartialEq, Eq, Hash, PartialOrd, Ord, Structural)]
pub struct CumSum(pub u32);

/// For each event of the original trace, its position in an observed trace (the length of the
/// original trace where it was not observed).
pub struct OgRank2CurRank(pub Vec<CurRank>);

/// An observed order of the hook invocations.
pub struct HookOgRank2CurRank(pub OgRank2CurRank);

/// An observed order of the outputs.
pub struct OutOgRank2CurRank(pub OgRank2CurRank);

impl OgRank {
    pub fn idx(&self) -> (r: usize)
        ensures
            r == self.0,
    {
        self.0 as usize
    }
}

impl OgRank2CurRank {
    /// The pairs (original position, observed position), by original position.
    pub fn unpack(&self) -> (r: Vec<(OgRank, CurRank)>)
        requires
            self.0@.len() <= u32::MAX + 1,
        ensures
            r@.len() == self.0@.len(),
            forall|i: int| 0 <= i < r@.len() ==> #[trigger] r@[i] == (OgRank(i as u32), self.0@[i]),
    {
        let mut r: Vec<(OgRank, CurRank)> = Vec::new();
        let mut i: usize = 0;
        while i < self.0.len()
            invariant
                i <= self.0@.len() <= u32::MAX + 1,
                r@.len() == i,
                forall|k: int| 0 <= k < i ==> #[trigger] r@[k] == (OgRank(k as u32), self.0@[k]),
            decreases self.0@.len() - i,
        {
            r.push((OgRank(i as u32), self.0[i]));
            i += 1;
        }
        r
    }
}

// ---------------------------------------------------------------------------------------------
// Sorting an observed trace
// ---------------------------------------------------------------------------------------------

/// The order in which an observed trace visits the events: by observed position, then by
/// original position.
pub open spec fn visit_lt(a: (OgRank, CurRank), b: (OgRank, CurRank)) -> bool {
    a.1.0 < b.1.0 || (a.1.0 == b.1.0 && a.0.0 < b.0.0)
}

/// How many elements of `s` come before `x` in visiting order.
pub open spec fn count_before(s: Seq<(OgRank, CurRank)>, x: (OgRank, CurRank)) -> nat
    decreases s.len(),
{
    if s.len() == 0 {
        0
    } else {
        count_before(s.drop_last(), x) + if visit_lt(s.last(), x) {
            1nat
        } else {
            0nat
        }
    }
}

/// The elements in visiting order: each is inserted after those already placed that come before
/// it.
pub open spec fn visit_order(s: Seq<(OgRank, CurRank)>) -> Seq<(OgRank, CurRank)>
    decreases s.len(),
{
    if s.len() == 0 {
        Seq::empty()
    } else {
        let t = visit_order(s.drop_last());
        t.insert(count_before(t, s.last()) as int, s.last())
    }
}

pub open spec fn visit_sorted(s: Seq<(OgRank, CurRank)>) -> bool {
    forall|i: int, j: int| 0 <= i < j < s.len() ==> visit_lt(s[i], s[j])
}

proof fn lemma_count_before_split(s: Seq<(OgRank, CurRank)>, x: (OgRank, CurRank))
    requires
        visit_sorted(s),
    ensures
        count_before(s, x) <= s.len(),
        forall|i: int| 0 <= i < count_before(s, x) ==> visit_lt(s[i], x),
        forall|i: int| count_before(s, x) <= i < s.len() ==> !visit_lt(s[i], x),
    decreases s.len(),
{
    if s.len() > 0 {
        let t = s.drop_last();
        lemma_count_before_split(t, x);
        let c = count_before(t, x);
        assert forall|i: int| 0 <= i < t.len() implies s[i] == t[i] by {}
        if visit_lt(s.last(), x) {
            if c < t.len() {
                assert(!visit_lt(t[c as int], x));
                assert(visit_lt(s[c as int], s[s.len() - 1]));
                assert(false);
            }
        }
    }
}

/// Inserts `x` into the sorted `v` after the elements that come before it.
fn insert_visit(v: &mut Vec<(OgRank, CurRank)>, x: (OgRank, CurRank))
    requires
        visit_sorted(old(v)@),
    ensures
        final(v)@ == old(v)@.insert(count_before(old(v)@, x) as int, x),
{
    let mut p: usize = 0;
    while p < v.len() && (v[p].1.0 < x.1.0 || (v[p].1.0 == x.1.0 && v[p].0.0 < x.0.0))
        invariant
            0 <= p <= v@.len(),
            v@ == old(v)@,
            visit_sorted(v@),
            forall|i: int| 0 <= i < p ==> visit_lt(v@[i], x),
        decreases v@.len() - p,
    {
        p += 1;
    }
    proof {
        lemma_count_before_split(v@, x);
        let c = count_before(v@, x) as int;
        if p < c {
            assert(visit_lt(v@[p as int], x));
        }
        if p > c {
            assert(visit_lt(v@[c], x));
        }
    }
    v.insert(p, x);
}

proof fn lemma_visit_order_sorted(s: Seq<(OgRank, CurRank)>)
    requires
        forall|i: int, j: int| 0 <= i < j < s.len() ==> s[i].0 != s[j].0,
    ensures
        visit_sorted(visit_order(s)),
        visit_order(s).len() == s.len(),
        forall|k: int| 0 <= k < s.len() ==> visit_order(s).contains(#[trigger] s[k]),
        forall|k: int| 0 <= k < s.len() ==> s.contains(#[trigger] visit_order(s)[k]),
    decreases s.len(),
{
    if s.len() > 0 {
        let d = s.drop_last();
        let t = visit_order(d);
        lemma_visit_order_sorted(d);
        let x = s.last();
        lemma_count_before_split(t, x);
        let c = count_before(t, x) as int;
        let r = t.insert(c, x);
        assert forall|i: int| 0 <= i < t.len() implies t[i].0 != x.0 by {
            assert(d.contains(t[i]));
            let j = choose|j: int| 0 <= j < d.len() && d[j] == t[i];
            assert(s[j] == d[j]);
        }
        assert forall|i: int, j: int| 0 <= i < j < r.len() implies visit_lt(r[i], r[j]) by {
            if j < c {
            } else if j == c {
            } else if i < c {
                assert(visit_lt(t[i], x));
                assert(!visit_lt(t[j - 1], x));
                assert(t[j - 1].0 != x.0);
            } else if i == c {
                assert(!visit_lt(t[j - 1], x));
                assert(t[j - 1].0 != x.0);
            } else {
                assert(r[i] == t[i - 1] && r[j] == t[j - 1]);
            }
        }
        assert forall|k: int| 0 <= k < s.len() implies r.contains(#[trigger] s[k]) by {
            if k < d.len() {
                assert(d.contains(d[k]));
                let m = choose|m: int| 0 <= m < t.len() && t[m] == d[k];
                if m < c {
                    assert(r[m] == s[k]);
                } else {
                    assert(r[m + 1] == s[k]);
                }
            } else {
                assert(r[c] == s[k]);
            }
        }
        assert forall|k: int| 0 <= k < s.len() implies s.contains(#[trigger] r[k]) by {
            if k == c {
                assert(s[s.len() - 1] == r[k]);
            } else {
                let m = if k < c { k } else { k - 1 };
                assert(r[k] == t[m]);
                assert(d.contains(t[m]));
                let j = choose|j: int| 0 <= j < d.len() && d[j] == t[m];
                assert(s[j] == r[k]);
            }
        }
    }
}

/// The pairs (original position, observed position) of the trace, in visiting order.
fn sorted_by_currank(pairs: Vec<(OgRank, CurRank)>) -> (r: Vec<(OgRank, CurRank)>)
    requires
        forall|i: int, j: int| 0 <= i < j < pairs@.len() ==> pairs@[i].0 != pairs@[j].0,
    ensures
        r@ == visit_order(pairs@),
{
    let mut r: Vec<(OgRank, CurRank)> = Vec::new();
    let mut i: usize = 0;
    proof {
        assert(pairs@.take(0) =~= Seq::<(OgRank, CurRank)>::empty());
    }
    while i < pairs.len()
        invariant
            i <= pairs@.len(),
            r@ == visit_order(pairs@.take(i as int)),
            visit_sorted(r@),
            forall|i: int, j: int| 0 <= i < j < pairs@.len() ==> pairs@[i].0 != pairs@[j].0,
        decreases pairs@.len() - i,
    {
        insert_visit(&mut r, pairs[i]);
        proof {
            let s = pairs@.take(i + 1);
            assert(s.drop_last() =~= pairs@.take(i as int));
            assert(s.last() == pairs@[i as int]);
            lemma_visit_order_sorted(s);
        }
        i += 1;
    }
    assert(pairs@.take(pairs@.len() as int) =~= pairs@);
    r
}

// ---------------------------------------------------------------------------------------------
// Pairs observed in both orders
// ---------------------------------------------------------------------------------------------

/// The sum of the sizes of the sets.
pub open spec fn total(s: Seq<Set<int>>) -> int
    decreases s.len(),
{
    if s.len() == 0 {
        0
    } else {
        total(s.drop_last()) + s.last().len()
    }
}

/// Whenever `j` is in the set of `i`, `i` is in the set of `j`.
pub open spec fn symmetric(s: Seq<Set<int>>) -> bool {
    forall|i: int, j: int|
        0 <= i < s.len() && #[trigger] s[i].contains(j) ==> 0 <= j < s.len() && s[j].contains(i)
}

/// The sets with the pairs that `p` relates added in both directions.
pub open spec fn sym_with(s: Seq<Set<int>>, p: spec_fn(int, int) -> bool) -> Seq<Set<int>> {
    Seq::new(s.len(), |i: int| s[i].union(Set::new(|j: int| p(i, j) || p(j, i))))
}

/// The sets with the pairs that `p` relates added in one direction, except those that `a` holds.
pub open spec fn one_with(s: Seq<Set<int>>, a: Seq<Set<int>>, p: spec_fn(int, int) -> bool) -> Seq<Set<int>> {
    Seq::new(s.len(), |i: int| s[i].union(Set::new(|j: int| p(i, j) && !a[i].contains(j))))
}

/// The single pair (a, b).
pub open spec fn single(a: int, b: int) -> spec_fn(int, int) -> bool {
    |x: int, y: int| x == a && y == b
}

proof fn lemma_total_update(s: Seq<Set<int>>, i: int, t: Set<int>)
    requires
        0 <= i < s.len(),
    ensures
        total(s.update(i, t)) == total(s) - s[i].len() + t.len(),
    decreases s.len(),
{
    if i < s.len() - 1 {
        lemma_total_update(s.drop_last(), i, t);
        assert(s.update(i, t).drop_last() =~= s.drop_last().update(i, t));
    } else {
        assert(s.update(i, t).drop_last() =~= s.drop_last());
    }
}

/// Each set of a sequence of `n` sets over `0..n` has at most `n` elements, so there are at most
/// `n * n` in all.
proof fn lemma_total_bound(s: Seq<Set<int>>, n: int)
    requires
        s.len() <= n,
        forall|i: int| 0 <= i < s.len() ==> (#[trigger] s[i]).finite() && s[i].len() <= n,
    ensures
        0 <= total(s) <= s.len() * n,
    decreases s.len(),
{
    if s.len() > 0 {
        lemma_total_bound(s.drop_last(), n);
        assert(total(s) <= s.len() * n) by (nonlinear_arith)
            requires
                total(s) == total(s.drop_last()) + s.last().len(),
                total(s.drop_last()) <= (s.len() - 1) * n,
                s.last().len() <= n,
        ;
    }
}

/// What a stream of traces has shown so far: for each event of the original trace, the events
/// observed on both sides of it; how many traces were recorded; how many such pairs were found;
/// and, at some points of the stream, the number of traces and pairs found by then.
pub struct StreamingTranspositionsDelta {
    pub og_trace_length: usize,
    pub search_radius: i32,
    pub traces_recorded: NTraces,
    pub cumsum: CumSum,
    pub cumsums: Vec<(NTraces, CumSum)>,
    pub before_and_afters: Vec<RankSet>,
}

impl StreamingTranspositionsDelta {
    pub open spec fn wf(&self) -> bool {
        &&& self.og_trace_length <= i32::MAX
        &&& self.before_and_afters@.len() == self.og_trace_length
        &&& forall|i: int|
            0 <= i < self.og_trace_length ==> (#[trigger] self.before_and_afters@[i]).wf()
                && self.before_and_afters@[i].universe() == self.og_trace_length
    }

    /// For each event, the events found on both sides of it.
    pub open spec fn pairs(&self) -> Seq<Set<int>> {
        set_views(self.before_and_afters@)
    }

    proof fn lemma_bounded(&self)
        requires
            self.wf(),
        ensures
            forall|i: int, j: int|
                0 <= i < self.og_trace_length && #[trigger] self.pairs()[i].contains(j) ==> 0 <= j
                    < self.og_trace_length,
            forall|i: int|
                0 <= i < self.og_trace_length ==> (#[trigger] self.pairs()[i]).finite()
                    && self.pairs()[i].len() <= self.og_trace_length,
            0 <= total(self.pairs()) <= self.og_trace_length * self.og_trace_length,
    {
        assert forall|i: int| 0 <= i < self.og_trace_length implies (#[trigger] self.pairs()[i]).finite()
            && self.pairs()[i].len() <= self.og_trace_length by {
            self.before_and_afters@[i].lemma_finite();
            self.before_and_afters@[i].lemma_len_bound();
        }
        assert forall|i: int, j: int|
            0 <= i < self.og_trace_length && #[trigger] self.pairs()[i].contains(j) implies 0 <= j
                < self.og_trace_length by {
            self.before_and_afters@[i].lemma_bounded();
        }
        lemma_total_bound(self.pairs(), self.og_trace_length as int);
    }

    /// Records that `ogrank` and `other` were observed in both orders, unless that is known.
    fn add_permutable(&mut self, ogrank: &OgRank, other: &OgRank)
        requires
            old(self).wf(),
            ogrank.0 < old(self).og_trace_length,
            other.0 < old(self).og_trace_length,
            !old(self).pairs()[ogrank.0 as int].contains(other.0 as int) ==> old(self).cumsum.0 < u32::MAX,
        ensures
            final(self).wf(),
            final(self).og_trace_length == old(self).og_trace_length,
            final(self).search_radius == old(self).search_radius,
            final(self).traces_recorded == old(self).traces_recorded,
            final(self).cumsums@ == old(self).cumsums@,
            old(self).pairs()[ogrank.0 as int].contains(other.0 as int) ==> final(self).pairs()
                == old(self).pairs() && final(self).cumsum == old(self).cumsum,
            !old(self).pairs()[ogrank.0 as int].contains(other.0 as int) ==> final(self).pairs()
                == sym_with(old(self).pairs(), single(ogrank.0 as int, other.0 as int))
                && final(self).cumsum.0 == old(self).cumsum.0 + 1,
    {
        let a = ogrank.0 as usize;
        let b = other.0 as usize;
        if !self.before_and_afters[a].contains(other.0) {
            let ghost t0 = self.pairs();
            self.before_and_afters[a].insert(other.0);
            self.before_and_afters[b].insert(ogrank.0);
            self.cumsum.0 = self.cumsum.0 + 1;
            proof {
                assert(self.pairs() =~= sym_with(t0, single(a as int, b as int))) by {
                    assert forall|i: int| 0 <= i < t0.len() implies self.pairs()[i] =~= sym_with(t0, single(a as int, b as int))[i] by {}
                }
            }
        }
    }
}

// ---------------------------------------------------------------------------------------------
// Recording a trace
// ---------------------------------------------------------------------------------------------

/// The first position of the window of an observed trace that ends at `idx`.
pub open spec fn window_start(idx: int, radius: i32) -> int {
    if idx - radius > 0 {
        idx - radius
    } else {
        0
    }
}

/// The pairs (a, b) found at position `idx` of the visiting order, among the positions before
/// `jmax`: `a` is the event there, and `b` an event visited earlier within the search radius
/// that came later in the original trace and was observed.
pub open spec fn found_upto(
    order: Seq<(OgRank, CurRank)>,
    n: int,
    radius: i32,
    idx: int,
    jmax: int,
) -> spec_fn(int, int) -> bool {
    |a: int, b: int|
        0 <= idx < order.len() && a == order[idx].0.0 && exists|j: int|
            window_start(idx, radius) <= j < jmax && j < idx && #[trigger] order[j].0.0 == b && b > a
                && order[j].1.0 != n
}

/// The pairs found at the positions before `m` of the visiting order.
pub open spec fn found_before(order: Seq<(OgRank, CurRank)>, n: int, radius: i32, m: int) -> spec_fn(int, int) -> bool {
    |a: int, b: int| exists|idx: int| 0 <= idx < m && #[trigger] found_upto(order, n, radius, idx, idx)(a, b)
}

/// Either predicate.
pub open spec fn either(f: spec_fn(int, int) -> bool, g: spec_fn(int, int) -> bool) -> spec_fn(int, int) -> bool {
    |a: int, b: int| f(a, b) || g(a, b)
}

proof fn lemma_sym_with_ext(s: Seq<Set<int>>, f: spec_fn(int, int) -> bool, g: spec_fn(int, int) -> bool)
    requires
        forall|a: int, b: int| #[trigger] f(a, b) == g(a, b),
    ensures
        sym_with(s, f) == sym_with(s, g),
{
    assert forall|i: int| 0 <= i < s.len() implies sym_with(s, f)[i] =~= sym_with(s, g)[i] by {}
    assert(sym_with(s, f) =~= sym_with(s, g));
}

proof fn lemma_sym_with_twice(s: Seq<Set<int>>, f: spec_fn(int, int) -> bool, g: spec_fn(int, int) -> bool)
    ensures
        sym_with(sym_with(s, f), g) == sym_with(s, either(f, g)),
{
    assert forall|i: int| 0 <= i < s.len() implies sym_with(sym_with(s, f), g)[i] =~= sym_with(s, either(f, g))[i] by {}
    assert(sym_with(sym_with(s, f), g) =~= sym_with(s, either(f, g)));
}

proof fn lemma_one_with_ext(s: Seq<Set<int>>, a: Seq<Set<int>>, f: spec_fn(int, int) -> bool, g: spec_fn(int, int) -> bool)
    requires
        forall|x: int, y: int| #[trigger] f(x, y) == g(x, y),
    ensures
        one_with(s, a, f) == one_with(s, a, g),
{
    assert forall|i: int| 0 <= i < s.len() implies one_with(s, a, f)[i] =~= one_with(s, a, g)[i] by {}
    assert(one_with(s, a, f) =~= one_with(s, a, g));
}

proof fn lemma_one_with_twice(s: Seq<Set<int>>, a: Seq<Set<int>>, f: spec_fn(int, int) -> bool, g: spec_fn(int, int) -> bool)
    ensures
        one_with(one_with(s, a, f), a, g) == one_with(s, a, either(f, g)),
{
    assert forall|i: int| 0 <= i < s.len() implies one_with(one_with(s, a, f), a, g)[i] =~= one_with(s, a, either(f, g))[i] by {}
    assert(one_with(one_with(s, a, f), a, g) =~= one_with(s, a, either(f, g)));
}

/// The pairs of an observed trace: the events in visiting order with their original positions.
pub open spec fn trace_order(trace: Seq<CurRank>) -> Seq<(OgRank, CurRank)> {
    visit_order(Seq::new(trace.len(), |i: int| (OgRank(i as u32), trace[i])))
}

/// The visiting order of a trace holds each original position below `n` once.
proof fn lemma_trace_order(trace: Seq<CurRank>)
    requires
        trace.len() <= u32::MAX,
    ensures
        trace_order(trace).len() == trace.len(),
        forall|k: int| 0 <= k < trace.len() ==> (#[trigger] trace_order(trace)[k]).0.0 < trace.len(),
{
    let s = Seq::new(trace.len(), |i: int| (OgRank(i as u32), trace[i]));
    assert forall|i: int, j: int| 0 <= i < j < s.len() implies s[i].0 != s[j].0 by {}
    lemma_visit_order_sorted(s);
    assert forall|k: int| 0 <= k < trace.len() implies (#[trigger] trace_order(trace)[k]).0.0 < trace.len() by {
        assert(s.contains(trace_order(trace)[k]));
    }
}

impl StreamingTranspositionsDelta {
    /// Records the pairs found at position `idx` of the visiting order, in both directions.
    fn record_at(&mut self, order: &Vec<(OgRank, CurRank)>, idx: usize)
        requires
            old(self).wf(),
            symmetric(old(self).pairs()),
            old(self).search_radius >= 0,
            order@.len() == old(self).og_trace_length,
            idx < order@.len(),
            forall|k: int| 0 <= k < order@.len() ==> (#[trigger] order@[k]).0.0 < order@.len(),
            old(self).cumsum.0 + old(self).og_trace_length * old(self).og_trace_length - total(old(self).pairs()) <= u32::MAX,
        ensures
            final(self).wf(),
            symmetric(final(self).pairs()),
            final(self).og_trace_length == old(self).og_trace_length,
            final(self).search_radius == old(self).search_radius,
            final(self).traces_recorded == old(self).traces_recorded,
            final(self).cumsums@ == old(self).cumsums@,
            final(self).pairs() == sym_with(
                old(self).pairs(),
                found_upto(order@, order@.len() as int, old(self).search_radius, idx as int, idx as int),
            ),
            2 * (final(self).cumsum.0 - old(self).cumsum.0) == total(final(self).pairs()) - total(old(self).pairs()),
            final(self).cumsum.0 >= old(self).cumsum.0,
            final(self).cumsum.0 + final(self).og_trace_length * final(self).og_trace_length - total(final(self).pairs()) <= u32::MAX,
    {
        let n = self.og_trace_length;
        let ghost p0 = self.pairs();
        let ghost c0 = self.cumsum.0;
        let ghost radius = self.search_radius;
        let ogrank = order[idx].0;
        let lb: i32 = if (idx as i32) - self.search_radius > 0 {
            (idx as i32) - self.search_radius
        } else {
            0
        };
        let mut j: usize = lb as usize;
        proof {
            lemma_sym_with_ext(p0, found_upto(order@, n as int, radius, idx as int, j as int), |a: int, b: int| false);
            assert(sym_with(p0, |a: int, b: int| false) =~= p0) by {
                assert forall|i: int| 0 <= i < p0.len() implies sym_with(p0, |a: int, b: int| false)[i] =~= p0[i] by {}
            }
        }
        while j < idx
            invariant
                self.wf(),
                symmetric(self.pairs()),
                self.og_trace_length == n,
                n == order@.len(),
                self.search_radius == radius,
                radius >= 0,
                idx < n,
                window_start(idx as int, radius) <= j <= idx,
                ogrank == order@[idx as int].0,
                forall|k: int| 0 <= k < order@.len() ==> (#[trigger] order@[k]).0.0 < order@.len(),
                self.traces_recorded == old(self).traces_recorded,
                self.cumsums@ == old(self).cumsums@,
                p0 == old(self).pairs(),
                c0 == old(self).cumsum.0,
                self.pairs() == sym_with(p0, found_upto(order@, n as int, radius, idx as int, j as int)),
                2 * (self.cumsum.0 - c0) == total(self.pairs()) - total(p0),
                self.cumsum.0 >= c0,
                self.cumsum.0 + n * n - total(self.pairs()) <= u32::MAX,
            decreases idx - j,
        {
            let (other, cur) = order[j];
            let ghost before = self.pairs();
            let ghost f = found_upto(order@, n as int, radius, idx as int, j as int);
            let ghost g = found_upto(order@, n as int, radius, idx as int, j + 1);
            if other.0 > ogrank.0 && cur.0 != n as u32 {
                proof {
                    self.lemma_bounded();
                    let a = ogrank.0 as int;
                    let b = other.0 as int;
                    if !before[a].contains(b) {
                        let big = before[a].insert(b);
                        vstd::set_lib::lemma_int_range(0, n as int);
                        assert(big.subset_of(vstd::set_lib::set_int_range(0, n as int)));
                        vstd::set_lib::lemma_len_subset(big, vstd::set_lib::set_int_range(0, n as int));
                        let t1 = before.update(a, big);
                        lemma_total_update(before, a, big);
                        lemma_total_bound(t1, n as int);
                    }
                }
                self.add_permutable(&ogrank, &other);
                proof {
                    let a = ogrank.0 as int;
                    let b = other.0 as int;
                    assert forall|x: int, y: int| #[trigger] g(x, y) == either(f, single(a, b))(x, y) by {
                        if g(x, y) && !f(x, y) {
                            let jj = choose|jj: int|
                                window_start(idx as int, radius) <= jj < j + 1 && jj < idx && #[trigger] order@[jj].0.0 == y
                                    && y > x && order@[jj].1.0 != n;
                            assert(jj == j);
                        }
                        if f(x, y) {
                            let jj = choose|jj: int|
                                window_start(idx as int, radius) <= jj < j && jj < idx && #[trigger] order@[jj].0.0 == y
                                    && y > x && order@[jj].1.0 != n;
                            assert(g(x, y));
                        }
                        if x == a && y == b {
                            assert(order@[j as int].0.0 == y);
                        }
                    }
                    lemma_sym_with_ext(p0, g, either(f, single(a, b)));
                    lemma_sym_with_twice(p0, f, single(a, b));
                    if before[a].contains(b) {
                        assert(before[b].contains(a));
                        assert(sym_with(before, single(a, b)) =~= before) by {
                            assert forall|i: int| 0 <= i < before.len() implies sym_with(before, single(a, b))[i] =~= before[i] by {}
                        }
                    } else {
                        assert(!before[b].contains(a));
                        let t1 = before.update(a, before[a].insert(b));
                        lemma_total_update(before, a, before[a].insert(b));
                        lemma_total_update(t1, b, t1[b].insert(a));
                        assert(t1.update(b, t1[b].insert(a)) =~= sym_with(before, single(a, b))) by {
                            assert forall|i: int| 0 <= i < before.len() implies t1.update(b, t1[b].insert(a))[i] =~= sym_with(before, single(a, b))[i] by {}
                        }
                    }
                    self.lemma_bounded();
                }
            } else {
                proof {
                    assert forall|x: int, y: int| #[trigger] g(x, y) == f(x, y) by {
                        if g(x, y) && !f(x, y) {
                            let jj = choose|jj: int|
                                window_start(idx as int, radius) <= jj < j + 1 && jj < idx && #[trigger] order@[jj].0.0 == y
                                    && y > x && order@[jj].1.0 != n;
                            assert(jj == j);
                        }
                    }
                    lemma_sym_with_ext(p0, g, f);
                }
            }
            j += 1;
        }
        proof {
            assert(window_start(idx as int, radius) == lb);
        }
    }
}

/// The record of a stream of traces, possibly on top of the records of earlier streams (its
/// ancestors), whose pairs are not counted again.
pub struct StreamingTranspositions {
    pub inner: StreamingTranspositionsDelta,
    pub all_ancestors: Option<Box<StreamingTranspositions>>,
}

/// `n` empty sets.
pub open spec fn no_pairs(n: int) -> Seq<Set<int>> {
    Seq::new(n as nat, |i: int| Set::<int>::empty())
}

impl StreamingTranspositions {
    /// Well formed: the ancestors, if any, are over the same original trace and have no ancestors
    /// of their own; without ancestors, every pair is held in both directions.
    pub open spec fn wf(&self) -> bool {
        &&& self.inner.wf()
        &&& match self.all_ancestors {
            Some(a) => a.inner.wf() && a.inner.og_trace_length == self.inner.og_trace_length
                && a.all_ancestors is None,
            None => symmetric(self.inner.pairs()),
        }
    }

    /// The pairs that the ancestors hold (none if there are none).
    pub open spec fn ancestor_pairs(&self) -> Seq<Set<int>> {
        match self.all_ancestors {
            Some(a) => a.inner.pairs(),
            None => no_pairs(self.inner.og_trace_length as int),
        }
    }

    fn ancestors_contain(&self, idx: &OgRank, other: &OgRank) -> (r: bool)
        requires
            self.wf(),
            idx.0 < self.inner.og_trace_length,
        ensures
            r == self.ancestor_pairs()[idx.0 as int].contains(other.0 as int),
    {
        match &self.all_ancestors {
            Some(a) => a.inner.before_and_afters[idx.0 as usize].contains(other.0),
            None => false,
        }
    }

    /// Records that `other` was observed on the other side of `idx`, unless this record or its
    /// ancestors know it already.
    fn add_permutable(&mut self, idx: &OgRank, other: &OgRank)
        requires
            old(self).wf(),
            idx.0 < old(self).inner.og_trace_length,
            other.0 < old(self).inner.og_trace_length,
            old(self).all_ancestors is Some,
            !old(self).inner.pairs()[idx.0 as int].contains(other.0 as int) ==> old(self).inner.cumsum.0 < u32::MAX,
        ensures
            final(self).wf(),
            final(self).all_ancestors == old(self).all_ancestors,
            final(self).inner.og_trace_length == old(self).inner.og_trace_length,
            final(self).inner.search_radius == old(self).inner.search_radius,
            final(self).inner.traces_recorded == old(self).inner.traces_recorded,
            final(self).inner.cumsums@ == old(self).inner.cumsums@,
            final(self).inner.pairs() == one_with(
                old(self).inner.pairs(),
                old(self).ancestor_pairs(),
                single(idx.0 as int, other.0 as int),
            ),
            final(self).inner.cumsum.0 - old(self).inner.cumsum.0 == total(final(self).inner.pairs()) - total(old(self).inner.pairs()),
            final(self).inner.cumsum.0 >= old(self).inner.cumsum.0,
    {
        let ghost t0 = self.inner.pairs();
        let ghost a0 = self.ancestor_pairs();
        proof {
            self.inner.lemma_bounded();
        }
        let known = self.inner.before_and_afters[idx.0 as usize].contains(other.0) || self.ancestors_contain(idx, other);
        let ghost g = one_with(t0, a0, single(idx.0 as int, other.0 as int));
        if !known {
            self.inner.cumsum.0 = self.inner.cumsum.0 + 1;
            self.inner.before_and_afters[idx.0 as usize].insert(other.0);
            proof {
                let i = idx.0 as int;
                lemma_total_update(t0, i, t0[i].insert(other.0 as int));
                assert(self.inner.pairs() =~= t0.update(i, t0[i].insert(other.0 as int)));
                assert(self.inner.pairs() =~= g) by {
                    assert forall|k: int| 0 <= k < t0.len() implies self.inner.pairs()[k] =~= g[k] by {}
                }
            }
        } else {
            proof {
                assert(t0 =~= g) by {
                    assert forall|k: int| 0 <= k < t0.len() implies t0[k] =~= g[k] by {}
                }
            }
        }
    }

    /// Records the pairs found at position `idx` of the visiting order, in one direction and
    /// only where the ancestors do not know them.
    fn record_at(&mut self, order: &Vec<(OgRank, CurRank)>, idx: usize)
        requires
            old(self).wf(),
            old(self).all_ancestors is Some,
            old(self).inner.search_radius >= 0,
            order@.len() == old(self).inner.og_trace_length,
            idx < order@.len(),
            forall|k: int| 0 <= k < order@.len() ==> (#[trigger] order@[k]).0.0 < order@.len(),
            old(self).inner.cumsum.0 + old(self).inner.og_trace_length * old(self).inner.og_trace_length - total(old(self).inner.pairs()) <= u32::MAX,
        ensures
            final(self).wf(),
            final(self).all_ancestors == old(self).all_ancestors,
            final(self).inner.og_trace_length == old(self).inner.og_trace_length,
            final(self).inner.search_radius == old(self).inner.search_radius,
            final(self).inner.traces_recorded == old(self).inner.traces_recorded,
            final(self).inner.cumsums@ == old(self).inner.cumsums@,
            final(self).inner.pairs() == one_with(
                old(self).inner.pairs(),
                old(self).ancestor_pairs(),
                found_upto(order@, order@.len() as int, old(self).inner.search_radius, idx as int, idx as int),
            ),
            final(self).inner.cumsum.0 - old(self).inner.cumsum.0 == total(final(self).inner.pairs()) - total(old(self).inner.pairs()),
            final(self).inner.cumsum.0 >= old(self).inner.cumsum.0,
            final(self).inner.cumsum.0 + final(self).inner.og_trace_length * final(self).inner.og_trace_length - total(final(self).inner.pairs()) <= u32::MAX,
    {
        let n = self.inner.og_trace_length;
        let ghost p0 = self.inner.pairs();
        let ghost a0 = self.ancestor_pairs();
        let ghost c0 = self.inner.cumsum.0;
        let ghost radius = self.inner.search_radius;
        let ogrank = order[idx].0;
        let lb: i32 = if (idx as i32) - self.inner.search_radius > 0 {
            (idx as i32) - self.inner.search_radius
        } else {
            0
        };
        let mut j: usize = lb as usize;
        proof {
            lemma_one_with_ext(p0, a0, found_upto(order@, n as int, radius, idx as int, j as int), |a: int, b: int| false);
            assert(one_with(p0, a0, |a: int, b: int| false) =~= p0) by {
                assert forall|i: int| 0 <= i < p0.len() implies one_with(p0, a0, |a: int, b: int| false)[i] =~= p0[i] by {}
            }
        }
        while j < idx
            invariant
                self.wf(),
                self.all_ancestors == old(self).all_ancestors,
                self.all_ancestors is Some,
                a0 == self.ancestor_pairs(),
                self.inner.og_trace_length == n,
                n == order@.len(),
                self.inner.search_radius == radius,
                radius >= 0,
                idx < n,
                window_start(idx as int, radius) <= j <= idx,
                ogrank == order@[idx as int].0,
                forall|k: int| 0 <= k < order@.len() ==> (#[trigger] order@[k]).0.0 < order@.len(),
                self.inner.traces_recorded == old(self).inner.traces_recorded,
                self.inner.cumsums@ == old(self).inner.cumsums@,
                p0 == old(self).inner.pairs(),
                c0 == old(self).inner.cumsum.0,
                self.inner.pairs() == one_with(p0, a0, found_upto(order@, n as int, radius, idx as int, j as int)),
                self.inner.cumsum.0 - c0 == total(self.inner.pairs()) - total(p0),
                self.inner.cumsum.0 >= c0,
                self.inner.cumsum.0 + n * n - total(self.inner.pairs()) <= u32::MAX,
            decreases idx - j,
        {
            let (other, cur) = order[j];
            let ghost before = self.inner.pairs();
            let ghost f = found_upto(order@, n as int, radius, idx as int, j as int);
            let ghost g = found_upto(order@, n as int, radius, idx as int, j + 1);
            if other.0 > ogrank.0 && cur.0 != n as u32 {
                proof {
                    self.inner.lemma_bounded();
                    let a = ogrank.0 as int;
                    let b = other.0 as int;
                    if !before[a].contains(b) {
                        let big = before[a].insert(b);
                        vstd::set_lib::lemma_int_range(0, n as int);
                        assert(big.subset_of(vstd::set_lib::set_int_range(0, n as int)));
                        vstd::set_lib::lemma_len_subset(big, vstd::set_lib::set_int_range(0, n as int));
                        let t1 = before.update(a, big);
                        lemma_total_update(before, a, big);
                        lemma_total_bound(t1, n as int);
                    }
                }
                self.add_permutable(&ogrank, &other);
                proof {
                    let a = ogrank.0 as int;
                    let b = other.0 as int;
                    assert forall|x: int, y: int| #[trigger] g(x, y) == either(f, single(a, b))(x, y) by {
                        if g(x, y) && !f(x, y) {
                            let jj = choose|jj: int|
                                window_start(idx as int, radius) <= jj < j + 1 && jj < idx && #[trigger] order@[jj].0.0 == y
                                    && y > x && order@[jj].1.0 != n;
                            assert(jj == j);
                        }
                        if f(x, y) {
                            let jj = choose|jj: int|
                                window_start(idx as int, radius) <= jj < j && jj < idx && #[trigger] order@[jj].0.0 == y
                                    && y > x && order@[jj].1.0 != n;
                            assert(g(x, y));
                        }
                        if x == a && y == b {
                            assert(order@[j as int].0.0 == y);
                        }
                    }
                    lemma_one_with_ext(p0, a0, g, either(f, single(a, b)));
                    lemma_one_with_twice(p0, a0, f, single(a, b));
                    self.inner.lemma_bounded();
                }
            } else {
                proof {
                    assert forall|x: int, y: int| #[trigger] g(x, y) == f(x, y) by {
                        if g(x, y) && !f(x, y) {
                            let jj = choose|jj: int|
                                window_start(idx as int, radius) <= jj < j + 1 && jj < idx && #[trigger] order@[jj].0.0 == y
                                    && y > x && order@[jj].1.0 != n;
                            assert(jj == j);
                        }
                    }
                    lemma_one_with_ext(p0, a0, g, f);
                }
            }
            j += 1;
        }
    }
}

/// `n` empty rank sets over `0..n`.
fn empty_before_and_afters(size: usize) -> (r: Vec<RankSet>)
    ensures
        r@.len() == size,
        forall|i: int| 0 <= i < size ==> (#[trigger] r@[i]).wf() && r@[i].universe() == size && r@[i]@ == Set::<int>::empty(),
{
    let mut r: Vec<RankSet> = Vec::new();
    let mut i: usize = 0;
    while i < size
        invariant
            i <= size,
            r@.len() == i,
            forall|k: int| 0 <= k < i ==> (#[trigger] r@[k]).wf() && r@[k].universe() == size && r@[k]@ == Set::<int>::empty(),
        decreases size - i,
    {
        r.push(RankSet::new(size));
        i += 1;
    }
    r
}

proof fn lemma_no_pairs(s: Seq<Set<int>>)
    requires
        forall|i: int| 0 <= i < s.len() ==> #[trigger] s[i] == Set::<int>::empty(),
    ensures
        total(s) == 0,
        symmetric(s),
    decreases s.len(),
{
    if s.len() > 0 {
        lemma_no_pairs(s.drop_last());
    }
}

impl StreamingTranspositions {
    /// A record of no traces, for an original trace of the given length.
    pub fn new(og_trace_length: usize, search_radius: i32) -> (r: Self)
        requires
            og_trace_length <= i32::MAX,
        ensures
            r.wf(),
            r.all_ancestors is None,
            r.inner.og_trace_length == og_trace_length,
            r.inner.search_radius == search_radius,
            r.inner.traces_recorded == NTraces(0),
            r.inner.cumsum == CumSum(0),
            r.inner.cumsums@ == Seq::<(NTraces, CumSum)>::empty(),
            r.inner.pairs() == no_pairs(og_trace_length as int),
    {
        let before_and_afters = empty_before_and_afters(og_trace_length);
        let r = StreamingTranspositions {
            inner: StreamingTranspositionsDelta {
                og_trace_length,
                search_radius,
                traces_recorded: NTraces(0),
                cumsum: CumSum(0),
                cumsums: Vec::new(),
                before_and_afters,
            },
            all_ancestors: None,
        };
        proof {
            assert(r.inner.pairs() =~= no_pairs(og_trace_length as int));
            lemma_no_pairs(r.inner.pairs());
        }
        r
    }

    /// The record of this stream alone.
    pub fn as_delta(&self) -> (r: &StreamingTranspositionsDelta)
        ensures
            *r == self.inner,
    {
        &self.inner
    }

    /// A record of no traces for the same original trace and search radius.
    pub fn empty(&self) -> (r: Self)
        requires
            self.inner.wf(),
        ensures
            r.wf(),
            r.all_ancestors is None,
            r.inner.og_trace_length == self.inner.og_trace_length,
            r.inner.search_radius == self.inner.search_radius,
            r.inner.traces_recorded == NTraces(0),
            r.inner.cumsum == CumSum(0),
            r.inner.cumsums@ == Seq::<(NTraces, CumSum)>::empty(),
            r.inner.pairs() == no_pairs(self.inner.og_trace_length as int),
    {
        Self::new(self.inner.og_trace_length, self.inner.search_radius)
    }

    /// Finds the pairs that an observed trace shows: for each event, in the order the trace
    /// visits them, the events visited shortly before it (within the search radius) that come
    /// after it in the original trace, and were observed, have been seen on both sides of it.
    /// Without ancestors the pairs are held in both directions; with ancestors, in one direction
    /// and only where the ancestors do not hold them. The count of pairs grows by the number of
    /// new pairs.
    fn record_pairs(&mut self, trace: OgRank2CurRank)
        requires
            old(self).wf(),
            trace.0@.len() == old(self).inner.og_trace_length,
            old(self).inner.search_radius >= 0,
            old(self).inner.traces_recorded.0 < u32::MAX,
            old(self).inner.cumsum.0 + old(self).inner.og_trace_length * old(self).inner.og_trace_length
                - total(old(self).inner.pairs()) <= u32::MAX,
        ensures
            final(self).wf(),
            final(self).all_ancestors == old(self).all_ancestors,
            final(self).inner.og_trace_length == old(self).inner.og_trace_length,
            final(self).inner.search_radius == old(self).inner.search_radius,
            final(self).inner.traces_recorded.0 == old(self).inner.traces_recorded.0 + 1,
            final(self).inner.cumsum.0 >= old(self).inner.cumsum.0,
            final(self).inner.cumsums@ == old(self).inner.cumsums@,
            old(self).all_ancestors is None ==> {
                &&& final(self).inner.pairs() == sym_with(
                    old(self).inner.pairs(),
                    found_before(trace_order(trace.0@), trace.0@.len() as int, old(self).inner.search_radius, trace.0@.len() as int),
                )
                &&& 2 * (final(self).inner.cumsum.0 - old(self).inner.cumsum.0) == total(final(self).inner.pairs())
                    - total(old(self).inner.pairs())
            },
            old(self).all_ancestors is Some ==> {
                &&& final(self).inner.pairs() == one_with(
                    old(self).inner.pairs(),
                    old(self).ancestor_pairs(),
                    found_before(trace_order(trace.0@), trace.0@.len() as int, old(self).inner.search_radius, trace.0@.len() as int),
                )
                &&& final(self).inner.cumsum.0 - old(self).inner.cumsum.0 == total(final(self).inner.pairs())
                    - total(old(self).inner.pairs())
            },
            final(self).inner.cumsum.0 + final(self).inner.og_trace_length * final(self).inner.og_trace_length
                - total(final(self).inner.pairs()) <= u32::MAX,
    {
        let n = self.inner.og_trace_length;
        let ghost p0 = self.inner.pairs();
        let ghost a0 = self.ancestor_pairs();
        let ghost c0 = self.inner.cumsum.0;
        let ghost radius = self.inner.search_radius;
        let ghost order = trace_order(trace.0@);
        proof {
            lemma_trace_order(trace.0@);
            let s = Seq::new(trace.0@.len(), |i: int| (OgRank(i as u32), trace.0@[i]));
            assert forall|i: int, j: int| 0 <= i < j < s.len() implies s[i].0 != s[j].0 by {}
        }
        let unpacked = trace.unpack();
        proof {
            assert(unpacked@ =~= Seq::new(trace.0@.len(), |i: int| (OgRank(i as u32), trace.0@[i])));
        }
        let pairs = sorted_by_currank(unpacked);
        let anc = self.all_ancestors.is_some();
        let mut idx: usize = 0;
        proof {
            let none = |a: int, b: int| false;
            lemma_sym_with_ext(p0, found_before(order, n as int, radius, 0), none);
            lemma_one_with_ext(p0, a0, found_before(order, n as int, radius, 0), none);
            assert(sym_with(p0, none) =~= p0) by {
                assert forall|i: int| 0 <= i < p0.len() implies sym_with(p0, none)[i] =~= p0[i] by {}
            }
            assert(one_with(p0, a0, none) =~= p0) by {
                assert forall|i: int| 0 <= i < p0.len() implies one_with(p0, a0, none)[i] =~= p0[i] by {}
            }
        }
        while idx < n
            invariant
                self.wf(),
                pairs@ == order,
                order.len() == n,
                forall|k: int| 0 <= k < order.len() ==> (#[trigger] order[k]).0.0 < order.len(),
                self.all_ancestors == old(self).all_ancestors,
                anc == self.all_ancestors is Some,
                a0 == self.ancestor_pairs(),
                self.inner.og_trace_length == n,
                self.inner.search_radius == radius,
                radius >= 0,
                idx <= n,
                self.inner.traces_recorded == old(self).inner.traces_recorded,
                self.inner.cumsums@ == old(self).inner.cumsums@,
                p0 == old(self).inner.pairs(),
                c0 == old(self).inner.cumsum.0,
                !anc ==> self.inner.pairs() == sym_with(p0, found_before(order, n as int, radius, idx as int)),
                !anc ==> 2 * (self.inner.cumsum.0 - c0) == total(self.inner.pairs()) - total(p0),
                anc ==> self.inner.pairs() == one_with(p0, a0, found_before(order, n as int, radius, idx as int)),
                anc ==> self.inner.cumsum.0 - c0 == total(self.inner.pairs()) - total(p0),
                self.inner.cumsum.0 >= c0,
                self.inner.cumsum.0 + n * n - total(self.inner.pairs()) <= u32::MAX,
            decreases n - idx,
        {
            let ghost f = found_before(order, n as int, radius, idx as int);
            let ghost g = found_upto(order, n as int, radius, idx as int, idx as int);
            let ghost h = found_before(order, n as int, radius, idx + 1);
            proof {
                assert forall|x: int, y: int| #[trigger] h(x, y) == either(f, g)(x, y) by {
                    if h(x, y) {
                        let k = choose|k: int| 0 <= k < idx + 1 && #[trigger] found_upto(order, n as int, radius, k, k)(x, y);
                        if k < idx {
                            assert(f(x, y));
                        }
                    }
                    if f(x, y) {
                        let k = choose|k: int| 0 <= k < idx && #[trigger] found_upto(order, n as int, radius, k, k)(x, y);
                        assert(h(x, y));
                    }
                    if g(x, y) {
                        assert(found_upto(order, n as int, radius, idx as int, idx as int)(x, y));
                        assert(h(x, y));
                    }
                }
            }
            if anc {
                self.record_at(&pairs, idx);
                proof {
                    lemma_one_with_twice(p0, a0, f, g);
                    lemma_one_with_ext(p0, a0, h, either(f, g));
                }
            } else {
                self.inner.record_at(&pairs, idx);
                proof {
                    lemma_sym_with_twice(p0, f, g);
                    lemma_sym_with_ext(p0, h, either(f, g));
                }
            }
            idx += 1;
        }
        self.inner.traces_recorded.0 = self.inner.traces_recorded.0 + 1;
    }
}

/// The number of events that are paired with themselves.
pub open spec fn diag(s: Seq<Set<int>>) -> int
    decreases s.len(),
{
    if s.len() == 0 {
        0
    } else {
        diag(s.drop_last()) + if s.last().contains(s.len() - 1) {
            1int
        } else {
            0int
        }
    }
}

proof fn lemma_diag_update(s: Seq<Set<int>>, i: int, t: Set<int>)
    requires
        0 <= i < s.len(),
    ensures
        diag(s.update(i, t)) == diag(s) - (if s[i].contains(i) { 1int } else { 0int }) + (if t.contains(i) { 1int } else { 0int }),
    decreases s.len(),
{
    if i < s.len() - 1 {
        lemma_diag_update(s.drop_last(), i, t);
        assert(s.update(i, t).drop_last() =~= s.drop_last().update(i, t));
    } else {
        assert(s.update(i, t).drop_last() =~= s.drop_last());
    }
}

/// The pairs of `other` before position (`idx`, `x`): those of its sets before `idx`, and those
/// below `x` in the set of `idx`.
pub open spec fn held_before(other: Seq<Set<int>>, idx: int, x: int) -> spec_fn(int, int) -> bool {
    |a: int, b: int| 0 <= a < other.len() && other[a].contains(b) && (a < idx || (a == idx && b < x))
}

/// The pairs that `other` holds.
/// The pairs that recording the trace finds.
pub open spec fn trace_pairs(t: OgRank2CurRank, radius: i32) -> spec_fn(int, int) -> bool {
    found_before(trace_order(t.0@), t.0@.len() as int, radius, t.0@.len() as int)
}

/// The pairs that recording any of the traces finds.
pub open spec fn traces_pairs(ts: Seq<OgRank2CurRank>, radius: i32) -> spec_fn(int, int) -> bool {
    |a: int, b: int| exists|k: int| 0 <= k < ts.len() && #[trigger] trace_pairs(ts[k], radius)(a, b)
}

/// Recording traces in two streams and merging the second (fresh) one into the first gives the
/// same pairs as recording all the traces in one stream: each pair found is added in both
/// directions, whichever stream found it.
pub proof fn lemma_chunked_recording(p0: Seq<Set<int>>, radius: i32, a: Seq<OgRank2CurRank>, b: Seq<OgRank2CurRank>)
    ensures
        sym_with(sym_with(p0, traces_pairs(a, radius)), held(sym_with(no_pairs(p0.len() as int), traces_pairs(b, radius))))
            == sym_with(p0, traces_pairs(a + b, radius)),
{
    let n = p0.len() as int;
    let fa = traces_pairs(a, radius);
    let fb = traces_pairs(b, radius);
    let q = sym_with(no_pairs(n), fb);
    lemma_sym_with_twice(p0, fa, held(q));
    assert forall|i: int| 0 <= i < n implies sym_with(p0, either(fa, held(q)))[i] =~= sym_with(p0, traces_pairs(a + b, radius))[i] by {
        assert forall|j: int| #[trigger] sym_with(p0, either(fa, held(q)))[i].contains(j) <==> sym_with(p0, traces_pairs(a + b, radius))[i].contains(j) by {
            if fa(i, j) {
                let k = choose|k: int| 0 <= k < a.len() && #[trigger] trace_pairs(a[k], radius)(i, j);
                assert((a + b)[k] == a[k]);
            }
            if fa(j, i) {
                let k = choose|k: int| 0 <= k < a.len() && #[trigger] trace_pairs(a[k], radius)(j, i);
                assert((a + b)[k] == a[k]);
            }
            if fb(i, j) {
                let k = choose|k: int| 0 <= k < b.len() && #[trigger] trace_pairs(b[k], radius)(i, j);
                assert((a + b)[a.len() + k] == b[k]);
            }
            if fb(j, i) {
                let k = choose|k: int| 0 <= k < b.len() && #[trigger] trace_pairs(b[k], radius)(j, i);
                assert((a + b)[a.len() + k] == b[k]);
            }
            if traces_pairs(a + b, radius)(i, j) {
                let k = choose|k: int| 0 <= k < (a + b).len() && #[trigger] trace_pairs((a + b)[k], radius)(i, j);
                if k < a.len() {
                    assert(trace_pairs(a[k], radius)(i, j));
                } else {
                    assert(trace_pairs(b[k - a.len()], radius)(i, j));
                    assert(q[i].contains(j));
                }
            }
            if traces_pairs(a + b, radius)(j, i) {
                let k = choose|k: int| 0 <= k < (a + b).len() && #[trigger] trace_pairs((a + b)[k], radius)(j, i);
                if k < a.len() {
                    assert(trace_pairs(a[k], radius)(j, i));
                } else {
                    assert(trace_pairs(b[k - a.len()], radius)(j, i));
                    assert(q[i].contains(j));
                }
            }
        }
    }
    assert(sym_with(p0, either(fa, held(q))) =~= sym_with(p0, traces_pairs(a + b, radius)));
}

pub open spec fn held(other: Seq<Set<int>>) -> spec_fn(int, int) -> bool {
    |a: int, b: int| 0 <= a < other.len() && other[a].contains(b)
}

impl StreamingTranspositionsDelta {
    /// Adds the pairs of `other`, in both directions, and its count of traces. Where this record
    /// holds each of its pairs in both directions, so does the result, and the count of pairs
    /// grows by the number of new pairs.
    fn merge_pairs(&mut self, other: &Self)
        requires
            old(self).wf(),
            other.wf(),
            other.og_trace_length == old(self).og_trace_length,
            old(self).traces_recorded.0 + other.traces_recorded.0 <= u32::MAX,
            old(self).cumsum.0 + old(self).og_trace_length * old(self).og_trace_length - total(old(self).pairs()) <= u32::MAX,
        ensures
            final(self).wf(),
            final(self).og_trace_length == old(self).og_trace_length,
            final(self).search_radius == old(self).search_radius,
            final(self).traces_recorded.0 == old(self).traces_recorded.0 + other.traces_recorded.0,
final(self).cumsum.0 >= old(self).cumsum.0,
                        final(self).cumsums@ == old(self).cumsums@,
            final(self).cumsum.0 + final(self).og_trace_length * final(self).og_trace_length - total(final(self).pairs()) <= u32::MAX,
            symmetric(old(self).pairs()) ==> {
                &&& symmetric(final(self).pairs())
                &&& final(self).pairs() == sym_with(old(self).pairs(), held(other.pairs()))
                &&& 2 * (final(self).cumsum.0 - old(self).cumsum.0) == total(final(self).pairs()) - total(old(self).pairs())
                    + diag(final(self).pairs()) - diag(old(self).pairs())
            },
    {
        let n = self.og_trace_length;
        let ghost p0 = self.pairs();
        let ghost q = other.pairs();
        let ghost c0 = self.cumsum.0;
        let ghost sym0 = symmetric(p0);
        let mut idx: usize = 0;
        proof {
            other.lemma_bounded();
            let none = |a: int, b: int| false;
            lemma_sym_with_ext(p0, held_before(q, 0, 0), none);
            assert(sym_with(p0, none) =~= p0) by {
                assert forall|i: int| 0 <= i < p0.len() implies sym_with(p0, none)[i] =~= p0[i] by {}
            }
        }
        while idx < n
            invariant
                self.wf(),
                other.wf(),
                q == other.pairs(),
                other.og_trace_length == n,
                self.og_trace_length == n,
                self.search_radius == old(self).search_radius,
                self.traces_recorded == old(self).traces_recorded,
                self.cumsums@ == old(self).cumsums@,
                idx <= n,
                p0 == old(self).pairs(),
                c0 == old(self).cumsum.0,
                sym0 == symmetric(p0),
                sym0 ==> symmetric(self.pairs()),
                sym0 ==> self.pairs() == sym_with(p0, held_before(q, idx as int, 0)),
                sym0 ==> 2 * (self.cumsum.0 - c0) == total(self.pairs()) - total(p0) + diag(self.pairs()) - diag(p0),
                self.cumsum.0 >= c0,
                self.cumsum.0 + n * n - total(self.pairs()) <= u32::MAX,
            decreases n - idx,
        {
            let mut x: usize = 0;
            proof {
                lemma_sym_with_ext(p0, held_before(q, idx as int, 0), held_before(q, idx as int, x as int));
            }
            while x < n
                invariant
                    self.wf(),
                    other.wf(),
                    q == other.pairs(),
                    other.og_trace_length == n,
                    self.og_trace_length == n,
                    self.search_radius == old(self).search_radius,
                    self.traces_recorded == old(self).traces_recorded,
                    self.cumsums@ == old(self).cumsums@,
                    idx < n,
                    x <= n,
                    p0 == old(self).pairs(),
                    c0 == old(self).cumsum.0,
                    sym0 == symmetric(p0),
                    sym0 ==> symmetric(self.pairs()),
                    sym0 ==> self.pairs() == sym_with(p0, held_before(q, idx as int, x as int)),
                    sym0 ==> 2 * (self.cumsum.0 - c0) == total(self.pairs()) - total(p0) + diag(self.pairs()) - diag(p0),
                    self.cumsum.0 >= c0,
                    self.cumsum.0 + n * n - total(self.pairs()) <= u32::MAX,
                decreases n - x,
            {
                let ghost before = self.pairs();
                let ghost f = held_before(q, idx as int, x as int);
                let ghost g = held_before(q, idx as int, x + 1);
                if other.before_and_afters[idx].contains(x as u32) {
                    proof {
                        self.lemma_bounded();
                        let a = idx as int;
                        let b = x as int;
                        if !before[a].contains(b) {
                            let big = before[a].insert(b);
                            vstd::set_lib::lemma_int_range(0, n as int);
                            assert(big.subset_of(vstd::set_lib::set_int_range(0, n as int)));
                            vstd::set_lib::lemma_len_subset(big, vstd::set_lib::set_int_range(0, n as int));
                            let t1 = before.update(a, big);
                            lemma_total_update(before, a, big);
                            lemma_total_bound(t1, n as int);
                        }
                    }
                    self.add_permutable(&OgRank(idx as u32), &OgRank(x as u32));
                    proof {
                        let a = idx as int;
                        let b = x as int;
                        assert forall|u: int, v: int| #[trigger] g(u, v) == either(f, single(a, b))(u, v) by {}
                        if !before[a].contains(b) {
                            let t1 = before.update(a, before[a].insert(b));
                            lemma_total_update(before, a, before[a].insert(b));
                            lemma_total_update(t1, b, t1[b].insert(a));
                            lemma_diag_update(before, a, before[a].insert(b));
                            lemma_diag_update(t1, b, t1[b].insert(a));
                            assert(t1.update(b, t1[b].insert(a)) =~= sym_with(before, single(a, b))) by {
                                assert forall|i: int| 0 <= i < before.len() implies t1.update(b, t1[b].insert(a))[i] =~= sym_with(before, single(a, b))[i] by {}
                            }
                        }
                        if sym0 {
                            lemma_sym_with_ext(p0, g, either(f, single(a, b)));
                            lemma_sym_with_twice(p0, f, single(a, b));
                            if before[a].contains(b) {
                                assert(before[b].contains(a));
                                assert(sym_with(before, single(a, b)) =~= before) by {
                                    assert forall|i: int| 0 <= i < before.len() implies sym_with(before, single(a, b))[i] =~= before[i] by {}
                                }
                            }
                        }
                        self.lemma_bounded();
                    }
                } else {
                    proof {
                        assert forall|u: int, v: int| #[trigger] g(u, v) == f(u, v) by {}
                        lemma_sym_with_ext(p0, g, f);
                    }
                }
                x += 1;
            }
            proof {
                other.lemma_bounded();
                lemma_sym_with_ext(p0, held_before(q, idx as int, n as int), held_before(q, idx + 1, 0));
            }
            idx += 1;
        }
        proof {
            other.lemma_bounded();
            lemma_sym_with_ext(p0, held_before(q, n as int, 0), held(q));
        }
        self.traces_recorded.0 = self.traces_recorded.0 + other.traces_recorded.0;
    }
}

impl StreamingTranspositionsDelta {
    /// Adds the pairs of `other`, in both directions, and its count of traces, then saves the
    /// point (traces recorded, pairs found) if the count of pairs has grown by at least the
    /// threshold that `threshold` gives for the count at the last saved point.
    pub fn merge<F: Fn(u32) -> u32>(&mut self, other: &Self, threshold: &F)
        requires
            old(self).wf(),
            other.wf(),
            other.og_trace_length == old(self).og_trace_length,
            old(self).traces_recorded.0 + other.traces_recorded.0 <= u32::MAX,
            old(self).cumsum.0 + old(self).og_trace_length * old(self).og_trace_length - total(old(self).pairs()) <= u32::MAX,
            saved_below(*old(self)),
            gives_one_threshold(*threshold),
        ensures
            final(self).wf(),
            final(self).og_trace_length == old(self).og_trace_length,
            final(self).search_radius == old(self).search_radius,
            final(self).traces_recorded.0 == old(self).traces_recorded.0 + other.traces_recorded.0,
            final(self).cumsum.0 >= old(self).cumsum.0,
            final(self).cumsum.0 + final(self).og_trace_length * final(self).og_trace_length - total(final(self).pairs()) <= u32::MAX,
            symmetric(old(self).pairs()) ==> {
                &&& symmetric(final(self).pairs())
                &&& final(self).pairs() == sym_with(old(self).pairs(), held(other.pairs()))
                &&& 2 * (final(self).cumsum.0 - old(self).cumsum.0) == total(final(self).pairs()) - total(old(self).pairs())
                    + diag(final(self).pairs()) - diag(old(self).pairs())
            },
            final(self).cumsums@ == save_if_grown(*threshold, old(self).cumsums@, (final(self).traces_recorded, final(self).cumsum)),
            saved_below(*final(self)),
    {
        self.merge_pairs(other);
        self.save_if_grown(threshold);
    }

    /// Saves the point (traces recorded, pairs found) if the count of pairs has grown by at least
    /// the threshold that `threshold` gives for the count at the last saved point.
    fn save_if_grown<F: Fn(u32) -> u32>(&mut self, threshold: &F)
        requires
            saved_below(*old(self)),
            gives_one_threshold(*threshold),
        ensures
            final(self).og_trace_length == old(self).og_trace_length,
            final(self).search_radius == old(self).search_radius,
            final(self).traces_recorded == old(self).traces_recorded,
            final(self).cumsum == old(self).cumsum,
            final(self).before_and_afters@ == old(self).before_and_afters@,
            final(self).cumsums@ == save_if_grown(*threshold, old(self).cumsums@, (old(self).traces_recorded, old(self).cumsum)),
            saved_below(*final(self)),
    {
        let last: u32 = if self.cumsums.len() > 0 {
            self.cumsums[self.cumsums.len() - 1].1.0
        } else {
            0
        };
        let t = threshold(last);
        proof {
            assert(call_ensures(*threshold, (last,), t));
            assert(exists|t2: u32| call_ensures(*threshold, (last,), t2));
            let c = threshold_for(*threshold, last);
            assert(call_ensures(*threshold, (last,), c));
            assert(c == t);
        }
        self.update_cumsums_if_needed(t);
    }
}

impl StreamingTranspositionsDelta {
    /// Saves the point (traces recorded, pairs found) when the count of pairs has grown by at
    /// least `threshold` since the last saved point (the caller computes the threshold from the
    /// last saved count).
    pub fn update_cumsums_if_needed(&mut self, threshold: u32)
        requires
            old(self).cumsums@.len() > 0 ==> old(self).cumsums@.last().1.0 <= old(self).cumsum.0,
        ensures
            final(self).og_trace_length == old(self).og_trace_length,
            final(self).search_radius == old(self).search_radius,
            final(self).traces_recorded == old(self).traces_recorded,
            final(self).cumsum == old(self).cumsum,
            final(self).before_and_afters@ == old(self).before_and_afters@,
            final(self).cumsums@ == if old(self).cumsum.0 - last_saved(old(self).cumsums@) >= threshold {
                old(self).cumsums@.push((old(self).traces_recorded, old(self).cumsum))
            } else {
                old(self).cumsums@
            },
    {
        let last: u32 = if self.cumsums.len() > 0 {
            self.cumsums[self.cumsums.len() - 1].1.0
        } else {
            0
        };
        if self.cumsum.0 - last >= threshold {
            self.cumsums.push((self.traces_recorded, self.cumsum));
        }
    }
}

/// The count of pairs at the last saved point, or zero.
pub open spec fn last_saved(cumsums: Seq<(NTraces, CumSum)>) -> int {
    if cumsums.len() > 0 {
        cumsums.last().1.0 as int
    } else {
        0
    }
}

/// The saved points never count more pairs than the record holds.
pub open spec fn saved_below(d: StreamingTranspositionsDelta) -> bool {
    last_saved(d.cumsums@) <= d.cumsum.0
}

/// `f` can be called on every count and gives one threshold for each.
pub open spec fn gives_one_threshold<F: Fn(u32) -> u32>(f: F) -> bool {
    &&& forall|x: u32| call_requires(f, (x,))
    &&& forall|x: u32, a: u32, b: u32|
        #![trigger call_ensures(f, (x,), a), call_ensures(f, (x,), b)]
        call_ensures(f, (x,), a) && call_ensures(f, (x,), b) ==> a == b
}

/// The threshold that `f` gives for the count at the last saved point.
pub open spec fn threshold_for<F: Fn(u32) -> u32>(f: F, last: u32) -> u32 {
    choose|t: u32| call_ensures(f, (last,), t)
}

/// The saved points once the point `p` is reached: it is saved when its count of pairs has grown
/// by at least the threshold that `f` gives for the last saved count.
pub open spec fn save_if_grown<F: Fn(u32) -> u32>(
    f: F,
    cumsums: Seq<(NTraces, CumSum)>,
    p: (NTraces, CumSum),
) -> Seq<(NTraces, CumSum)> {
    let last = last_saved(cumsums);
    if p.1.0 - last >= threshold_for(f, last as u32) {
        cumsums.push(p)
    } else {
        cumsums
    }
}

/// The pairs that a record holds after recording the traces `ts`: without ancestors, those
/// found in both directions; with ancestors, in one direction where the ancestors do not hold
/// them.
pub open spec fn pairs_after(st: StreamingTranspositions, ts: Seq<OgRank2CurRank>) -> Seq<Set<int>> {
    if st.all_ancestors is None {
        sym_with(st.inner.pairs(), traces_pairs(ts, st.inner.search_radius))
    } else {
        one_with(st.inner.pairs(), st.ancestor_pairs(), traces_pairs(ts, st.inner.search_radius))
    }
}

/// The count of pairs after recording the traces `ts`: it grows by the number of new pairs
/// (each held twice where there are no ancestors).
pub open spec fn cumsum_after(st: StreamingTranspositions, ts: Seq<OgRank2CurRank>) -> int {
    let grown = total(pairs_after(st, ts)) - total(st.inner.pairs());
    st.inner.cumsum.0 + if st.all_ancestors is None {
        grown / 2
    } else {
        grown
    }
}

/// The saved points after recording the traces `ts` one by one, each followed by a save if the
/// count has grown enough.
pub open spec fn saved_after<F: Fn(u32) -> u32>(
    f: F,
    st: StreamingTranspositions,
    ts: Seq<OgRank2CurRank>,
) -> Seq<(NTraces, CumSum)>
    decreases ts.len(),
{
    if ts.len() == 0 {
        st.inner.cumsums@
    } else {
        save_if_grown(
            f,
            saved_after(f, st, ts.drop_last()),
            (NTraces((st.inner.traces_recorded.0 + ts.len()) as u32), CumSum(cumsum_after(st, ts) as u32)),
        )
    }
}

/// For each event, the events observed on both sides of it, in this record or its ancestors.
pub struct Orderings<'a> {
    pub before_and_afters: &'a Vec<RankSet>,
    pub more_before_and_afters: Option<&'a Vec<RankSet>>,
}

/// A walk over the events of `Orderings`.
pub struct OrderingsIterator<'a, 'b>(pub &'b Orderings<'a>, pub usize);

impl<'a> Orderings<'a> {
    pub open spec fn wf(&self) -> bool {
        &&& self.before_and_afters@.len() <= u32::MAX
        &&& forall|i: int| 0 <= i < self.before_and_afters@.len() ==> (#[trigger] self.before_and_afters@[i]).wf()
            && self.before_and_afters@[i].universe() <= u32::MAX
        &&& match self.more_before_and_afters {
            Some(m) => m@.len() == self.before_and_afters@.len() && forall|i: int|
                0 <= i < m@.len() ==> (#[trigger] m@[i]).wf() && m@[i].universe() <= self.before_and_afters@[i].universe(),
            None => true,
        }
    }

    /// The events on both sides of the event at `idx`.
    pub open spec fn at(&self, idx: int) -> Set<int> {
        match self.more_before_and_afters {
            Some(m) => self.before_and_afters@[idx]@.union(m@[idx]@),
            None => self.before_and_afters@[idx]@,
        }
    }

    /// A walk from the first event.
    pub fn iter<'b>(&'b self) -> (r: OrderingsIterator<'a, 'b>)
        ensures
            r.1 == 0,
            *r.0 == *self,
    {
        OrderingsIterator(self, 0)
    }
}

impl<'a, 'b> OrderingsIterator<'a, 'b> {
    /// The events on both sides of the next event, if there is one.
    pub fn next(&mut self) -> (r: Option<RankSet>)
        requires
            old(self).0.wf(),
            old(self).1 < usize::MAX,
        ensures
            *final(self).0 == *old(self).0,
            old(self).1 < old(self).0.before_and_afters@.len() ==> (final(self).1 == old(self).1 + 1
                && (r matches Some(set) && set@ == old(self).0.at(old(self).1 as int) && set.wf()
                && set.universe() <= u32::MAX)),
            old(self).1 >= old(self).0.before_and_afters@.len() ==> r is None,
    {
        let idx = self.1;
        let ords = self.0;
        if idx >= ords.before_and_afters.len() {
            return None;
        }
        self.1 = idx + 1;
        let base = &ords.before_and_afters[idx];
        let mut ret = base.copy_with_universe(base.universe_len());
        match ords.more_before_and_afters {
            Some(more) => {
                ret.union_with(&more[idx]);
            },
            None => {},
        }
        Some(ret)
    }
}

impl StreamingTranspositions {
    /// Whether `other_idx` was observed on both sides of `idx` in this stream.
    pub fn contains(&self, idx: OgRank, other_idx: OgRank) -> (r: bool)
        requires
            self.inner.wf(),
            idx.0 < self.inner.og_trace_length,
        ensures
            r == self.inner.pairs()[idx.0 as int].contains(other_idx.0 as int),
    {
        self.inner.before_and_afters[idx.idx()].contains(other_idx.0)
    }

    /// The pairs of this stream together with those of the ancestors.
    pub fn orderings(&self) -> (r: Orderings)
        requires
            self.wf(),
        ensures
            r.wf(),
            *r.before_and_afters == self.inner.before_and_afters,
            match self.all_ancestors {
                Some(a) => r.more_before_and_afters matches Some(m) && *m == a.inner.before_and_afters,
                None => r.more_before_and_afters is None,
            },
            r.before_and_afters@.len() == self.inner.og_trace_length,
            self.all_ancestors is None ==> forall|i: int|
                0 <= i < self.inner.og_trace_length ==> #[trigger] r.at(i) == self.inner.pairs()[i],
            self.all_ancestors is Some ==> forall|i: int|
                0 <= i < self.inner.og_trace_length ==> #[trigger] r.at(i) == self.inner.pairs()[i].union(
                    self.ancestor_pairs()[i],
                ),
    {
        Orderings {
            before_and_afters: &self.inner.before_and_afters,
            more_before_and_afters: match &self.all_ancestors {
                Some(a) => Some(&a.inner.before_and_afters),
                None => None,
            },
        }
    }

    /// The saved points of the ancestors, then those of this stream.
    pub fn cumsums(&self) -> (r: Vec<(NTraces, CumSum)>)
        ensures
            r@ == match self.all_ancestors {
                Some(a) => a.inner.cumsums@,
                None => Seq::empty(),
            } + self.inner.cumsums@,
    {
        let mut r: Vec<(NTraces, CumSum)> = Vec::new();
        match &self.all_ancestors {
            Some(a) => {
                let mut i: usize = 0;
                while i < a.inner.cumsums.len()
                    invariant
                        i <= a.inner.cumsums@.len(),
                        r@ == a.inner.cumsums@.take(i as int),
                    decreases a.inner.cumsums@.len() - i,
                {
                    r.push(a.inner.cumsums[i]);
                    proof {
                        assert(r@ =~= a.inner.cumsums@.take(i + 1));
                    }
                    i += 1;
                }
                assert(a.inner.cumsums@.take(a.inner.cumsums@.len() as int) =~= a.inner.cumsums@);
            },
            None => {},
        }
        let ghost head = r@;
        let mut i: usize = 0;
        while i < self.inner.cumsums.len()
            invariant
                i <= self.inner.cumsums@.len(),
                r@ == head + self.inner.cumsums@.take(i as int),
            decreases self.inner.cumsums@.len() - i,
        {
            r.push(self.inner.cumsums[i]);
            proof {
                assert(r@ =~= head + self.inner.cumsums@.take(i + 1));
            }
            i += 1;
        }
        assert(self.inner.cumsums@.take(self.inner.cumsums@.len() as int) =~= self.inner.cumsums@);
        r
    }

    pub fn traces_recorded(&self) -> (r: NTraces)
        ensures
            r == self.inner.traces_recorded,
    {
        self.inner.traces_recorded
    }

    pub fn cumsum(&self) -> (r: CumSum)
        ensures
            r == self.inner.cumsum,
    {
        self.inner.cumsum
    }

    /// Whether every pair of this stream is held in both directions.
    pub fn check_invariants_expensive(&self) -> (r: bool)
        requires
            self.inner.wf(),
        ensures
            r == symmetric(self.inner.pairs()),
    {
        let n = self.inner.og_trace_length;
        let ghost t = self.inner.pairs();
        proof {
            self.inner.lemma_bounded();
        }
        let mut idx: usize = 0;
        while idx < n
            invariant
                self.inner.wf(),
                n == self.inner.og_trace_length,
                t == self.inner.pairs(),
                idx <= n,
                forall|i: int, j: int| 0 <= i < idx && #[trigger] t[i].contains(j) ==> 0 <= j < n && t[j].contains(i),
            decreases n - idx,
        {
            let mut x: usize = 0;
            while x < n
                invariant
                    self.inner.wf(),
                    n == self.inner.og_trace_length,
                    t == self.inner.pairs(),
                    idx < n,
                    x <= n,
                    forall|i: int, j: int| 0 <= i < idx && #[trigger] t[i].contains(j) ==> 0 <= j < n && t[j].contains(i),
                    forall|j: int| 0 <= j < x && #[trigger] t[idx as int].contains(j) ==> t[j].contains(idx as int),
                decreases n - x,
            {
                if self.inner.before_and_afters[idx].contains(x as u32) && !self.inner.before_and_afters[x].contains(idx as u32) {
                    proof {
                        assert(t[idx as int].contains(x as int) && !t[x as int].contains(idx as int));
                    }
                    return false;
                }
                x += 1;
            }
            proof {
                self.inner.lemma_bounded();
            }
            idx += 1;
        }
        true
    }

    /// Records an observed trace: for each event, in the order the trace visits them, the events
    /// visited shortly before it (within the search radius) that come after it in the original
    /// trace, and were observed, have been seen on both sides of it (in both directions without
    /// ancestors; with ancestors, in one direction and only where the ancestors do not hold
    /// them). The trace is counted, and the point (traces recorded, pairs found) is saved if the
    /// count of pairs has grown by at least the threshold that `threshold` gives for the count at
    /// the last saved point.
    pub fn record<F: Fn(u32) -> u32>(&mut self, trace: OgRank2CurRank, threshold: &F)
        requires
            old(self).wf(),
            trace.0@.len() == old(self).inner.og_trace_length,
            old(self).inner.search_radius >= 0,
            old(self).inner.traces_recorded.0 < u32::MAX,
            old(self).inner.cumsum.0 + old(self).inner.og_trace_length * old(self).inner.og_trace_length
                - total(old(self).inner.pairs()) <= u32::MAX,
            saved_below(old(self).inner),
            gives_one_threshold(*threshold),
        ensures
            final(self).wf(),
            final(self).all_ancestors == old(self).all_ancestors,
            final(self).inner.og_trace_length == old(self).inner.og_trace_length,
            final(self).inner.search_radius == old(self).inner.search_radius,
            final(self).inner.traces_recorded.0 == old(self).inner.traces_recorded.0 + 1,
            old(self).all_ancestors is None ==> {
                &&& final(self).inner.pairs() == sym_with(
                    old(self).inner.pairs(),
                    found_before(trace_order(trace.0@), trace.0@.len() as int, old(self).inner.search_radius, trace.0@.len() as int),
                )
                &&& 2 * (final(self).inner.cumsum.0 - old(self).inner.cumsum.0) == total(final(self).inner.pairs())
                    - total(old(self).inner.pairs())
            },
            old(self).all_ancestors is Some ==> {
                &&& final(self).inner.pairs() == one_with(
                    old(self).inner.pairs(),
                    old(self).ancestor_pairs(),
                    found_before(trace_order(trace.0@), trace.0@.len() as int, old(self).inner.search_radius, trace.0@.len() as int),
                )
                &&& final(self).inner.cumsum.0 - old(self).inner.cumsum.0 == total(final(self).inner.pairs())
                    - total(old(self).inner.pairs())
            },
            final(self).inner.cumsum.0 + final(self).inner.og_trace_length * final(self).inner.og_trace_length
                - total(final(self).inner.pairs()) <= u32::MAX,
            final(self).inner.cumsums@ == save_if_grown(
                *threshold,
                old(self).inner.cumsums@,
                (final(self).inner.traces_recorded, final(self).inner.cumsum),
            ),
            saved_below(final(self).inner),
            old(self).all_ancestors is None ==> symmetric(final(self).inner.pairs()),
            forall|i: int|
                0 <= i < old(self).inner.og_trace_length ==> #[trigger] old(self).inner.pairs()[i].subset_of(
                    final(self).inner.pairs()[i],
                ),
    {
        let ghost p0 = self.inner.pairs();
        self.record_pairs(trace);
        proof {
            assert forall|i: int| 0 <= i < p0.len() implies #[trigger] p0[i].subset_of(self.inner.pairs()[i]) by {}
        }
        self.inner.save_if_grown(threshold);
    }

    /// Records the traces, one after the other, each followed by a save of the point (traces
    /// recorded, pairs found) where the count of pairs has grown enough (see `record`).
    pub fn record_all<F: Fn(u32) -> u32>(&mut self, traces: Vec<OgRank2CurRank>, threshold: &F)
        requires
            old(self).wf(),
            old(self).inner.search_radius >= 0,
            forall|k: int| 0 <= k < traces@.len() ==> (#[trigger] traces@[k]).0@.len() == old(self).inner.og_trace_length,
            old(self).inner.traces_recorded.0 + traces@.len() <= u32::MAX,
            old(self).inner.cumsum.0 + old(self).inner.og_trace_length * old(self).inner.og_trace_length
                - total(old(self).inner.pairs()) <= u32::MAX,
            saved_below(old(self).inner),
            gives_one_threshold(*threshold),
        ensures
            final(self).wf(),
            final(self).all_ancestors == old(self).all_ancestors,
            final(self).inner.og_trace_length == old(self).inner.og_trace_length,
            final(self).inner.search_radius == old(self).inner.search_radius,
            final(self).inner.traces_recorded.0 == old(self).inner.traces_recorded.0 + traces@.len(),
            final(self).inner.pairs() == pairs_after(*old(self), traces@),
            final(self).inner.cumsum.0 == cumsum_after(*old(self), traces@),
            final(self).inner.cumsums@ == saved_after(*threshold, *old(self), traces@),
            saved_below(final(self).inner),
    {
        let ghost n = self.inner.og_trace_length;
        let ghost orig = traces@;
        let ghost radius = self.inner.search_radius;
        let ghost p0 = self.inner.pairs();
        let ghost a0 = self.ancestor_pairs();
        let ghost c0 = self.inner.cumsum.0;
        let ghost st0 = *self;
        let mut traces = traces;
        let ghost total_len = traces@.len();
        let ghost start = self.inner.traces_recorded.0;
        proof {
            let none = |a: int, b: int| false;
            lemma_sym_with_ext(p0, traces_pairs(orig.take(0), radius), none);
            lemma_one_with_ext(p0, a0, traces_pairs(orig.take(0), radius), none);
            assert(sym_with(p0, none) =~= p0) by {
                assert forall|i: int| 0 <= i < p0.len() implies sym_with(p0, none)[i] =~= p0[i] by {}
            }
            assert(one_with(p0, a0, none) =~= p0) by {
                assert forall|i: int| 0 <= i < p0.len() implies one_with(p0, a0, none)[i] =~= p0[i] by {}
            }
            assert(pairs_after(st0, orig.take(0)) == p0);
        }
        while traces.len() > 0
            invariant
                self.wf(),
                self.all_ancestors == old(self).all_ancestors,
                st0 == *old(self),
                a0 == self.ancestor_pairs(),
                a0 == st0.ancestor_pairs(),
                self.inner.og_trace_length == n,
                self.inner.search_radius == radius,
                radius == old(self).inner.search_radius,
                self.inner.search_radius >= 0,
                forall|k: int| 0 <= k < traces@.len() ==> (#[trigger] traces@[k]).0@.len() == n,
                self.inner.traces_recorded.0 + traces@.len() == start + total_len,
                start == old(self).inner.traces_recorded.0,
                start + total_len <= u32::MAX,
                self.inner.cumsum.0 + n * n - total(self.inner.pairs()) <= u32::MAX,
                total_len == orig.len(),
                traces@.len() <= total_len,
                traces@ == orig.skip(total_len - traces@.len()),
                p0 == old(self).inner.pairs(),
                c0 == old(self).inner.cumsum.0,
                self.inner.pairs() == pairs_after(st0, orig.take(total_len - traces@.len())),
                old(self).all_ancestors is None ==> 2 * (self.inner.cumsum.0 - c0) == total(self.inner.pairs()) - total(p0),
                old(self).all_ancestors is Some ==> self.inner.cumsum.0 - c0 == total(self.inner.pairs()) - total(p0),
                self.inner.cumsums@ == saved_after(*threshold, st0, orig.take(total_len - traces@.len())),
                saved_below(self.inner),
                gives_one_threshold(*threshold),
            decreases traces@.len(),
        {
            let ghost done = total_len - traces@.len();
            let ghost before = self.inner.pairs();
            let ghost c_before = self.inner.cumsum.0;
            let t = traces.remove(0);
            proof {
                assert(t == orig[done]);
                assert(traces@ =~= orig.skip(done + 1));
            }
            self.record(t, threshold);
            proof {
                let f0 = traces_pairs(orig.take(done), radius);
                let ft = found_before(trace_order(t.0@), t.0@.len() as int, radius, t.0@.len() as int);
                let f1 = traces_pairs(orig.take(done + 1), radius);
                assert forall|a: int, b: int| #[trigger] f1(a, b) == either(f0, ft)(a, b) by {
                    if f1(a, b) {
                        let k = choose|k: int| 0 <= k < orig.take(done + 1).len() && #[trigger] trace_pairs(orig.take(done + 1)[k], radius)(a, b);
                        if k < done {
                            assert(orig.take(done)[k] == orig.take(done + 1)[k]);
                        }
                    }
                    if f0(a, b) {
                        let k = choose|k: int| 0 <= k < orig.take(done).len() && #[trigger] trace_pairs(orig.take(done)[k], radius)(a, b);
                        assert(orig.take(done + 1)[k] == orig.take(done)[k]);
                    }
                    if ft(a, b) {
                        assert(orig.take(done + 1)[done] == t);
                        assert(trace_pairs(orig.take(done + 1)[done], radius)(a, b));
                    }
                }
                if old(self).all_ancestors is None {
                    lemma_sym_with_twice(p0, f0, ft);
                    lemma_sym_with_ext(p0, f1, either(f0, ft));
                } else {
                    lemma_one_with_twice(p0, a0, f0, ft);
                    lemma_one_with_ext(p0, a0, f1, either(f0, ft));
                }
                assert(self.inner.pairs() == pairs_after(st0, orig.take(done + 1)));
                assert(orig.take(done + 1).drop_last() =~= orig.take(done));
                assert(orig.take(done + 1).len() == done + 1);
                assert(self.inner.cumsum.0 == cumsum_after(st0, orig.take(done + 1)));
                assert(self.inner.traces_recorded.0 == start + done + 1);
            }
        }
        proof {
            assert(orig.take(total_len as int) =~= orig);
        }
    }
}

impl StreamingTranspositionsDelta {
    /// A copy of the record.
    pub fn duplicate(&self) -> (r: Self)
        requires
            self.wf(),
        ensures
            r.wf(),
            r.og_trace_length == self.og_trace_length,
            r.search_radius == self.search_radius,
            r.traces_recorded == self.traces_recorded,
            r.cumsum == self.cumsum,
            r.cumsums@ == self.cumsums@,
            r.pairs() == self.pairs(),
    {
        let n = self.og_trace_length;
        let mut baa: Vec<RankSet> = Vec::new();
        let mut i: usize = 0;
        while i < n
            invariant
                self.wf(),
                n == self.og_trace_length,
                i <= n,
                baa@.len() == i,
                forall|k: int| 0 <= k < i ==> (#[trigger] baa@[k]).wf() && baa@[k].universe() == n && baa@[k]@ == self.before_and_afters@[k]@,
            decreases n - i,
        {
            baa.push(self.before_and_afters[i].copy_with_universe(n));
            i += 1;
        }
        let mut cumsums: Vec<(NTraces, CumSum)> = Vec::new();
        let mut k: usize = 0;
        while k < self.cumsums.len()
            invariant
                k <= self.cumsums@.len(),
                cumsums@ == self.cumsums@.take(k as int),
            decreases self.cumsums@.len() - k,
        {
            cumsums.push(self.cumsums[k]);
            proof {
                assert(cumsums@ =~= self.cumsums@.take(k + 1));
            }
            k += 1;
        }
        assert(self.cumsums@.take(self.cumsums@.len() as int) =~= self.cumsums@);
        let r = StreamingTranspositionsDelta {
            og_trace_length: n,
            search_radius: self.search_radius,
            traces_recorded: self.traces_recorded,
            cumsum: self.cumsum,
            cumsums,
            before_and_afters: baa,
        };
        assert(r.pairs() =~= self.pairs());
        r
    }
}

/// The pairs of the first `k` records merged one after the other into the first: each merge
/// adds the pairs of the next record in both directions.
pub open spec fn merged_pairs(deltas: Seq<StreamingTranspositionsDelta>, k: int) -> Seq<Set<int>>
    decreases k,
{
    if k <= 1 {
        deltas[0].pairs()
    } else {
        sym_with(merged_pairs(deltas, k - 1), held(deltas[k - 1].pairs()))
    }
}

/// The count of pairs after merging the first `k` records: each merge adds the number of new
/// pairs (a pair of distinct events held twice, an event paired with itself once).
pub open spec fn merged_cumsum(deltas: Seq<StreamingTranspositionsDelta>, k: int) -> int
    decreases k,
{
    if k <= 1 {
        deltas[0].cumsum.0 as int
    } else {
        let before = merged_pairs(deltas, k - 1);
        let after = merged_pairs(deltas, k);
        merged_cumsum(deltas, k - 1) + (total(after) - total(before) + diag(after) - diag(before)) / 2
    }
}

/// The saved points after merging the first `k` records, each merge followed by a save if the
/// count has grown enough.
pub open spec fn merged_saved<F: Fn(u32) -> u32>(f: F, deltas: Seq<StreamingTranspositionsDelta>, k: int) -> Seq<(NTraces, CumSum)>
    decreases k,
{
    if k <= 1 {
        deltas[0].cumsums@
    } else {
        save_if_grown(
            f,
            merged_saved(f, deltas, k - 1),
            (NTraces(traces_sum(deltas, k) as u32), CumSum(merged_cumsum(deltas, k) as u32)),
        )
    }
}

/// Recording consecutive chunks of traces, each in a fresh record, and merging those records one
/// after the other gives the pairs that recording all the traces in one record gives.
pub proof fn lemma_merging_recorded_chunks(
    deltas: Seq<StreamingTranspositionsDelta>,
    chunks: Seq<Seq<OgRank2CurRank>>,
    n: nat,
    radius: i32,
)
    requires
        deltas.len() == chunks.len(),
        chunks.len() >= 1,
        forall|j: int| 0 <= j < deltas.len() ==> #[trigger] deltas[j].pairs() == sym_with(no_pairs(n as int), traces_pairs(chunks[j], radius)),
    ensures
        merged_pairs(deltas, deltas.len() as int) == sym_with(no_pairs(n as int), traces_pairs(chunks.flatten(), radius)),
{
    lemma_merging_recorded_prefix(deltas, chunks, n, radius, deltas.len() as int);
    assert(chunks.take(chunks.len() as int) =~= chunks);
}

proof fn lemma_merging_recorded_prefix(
    deltas: Seq<StreamingTranspositionsDelta>,
    chunks: Seq<Seq<OgRank2CurRank>>,
    n: nat,
    radius: i32,
    k: int,
)
    requires
        deltas.len() == chunks.len(),
        1 <= k <= chunks.len(),
        forall|j: int| 0 <= j < deltas.len() ==> #[trigger] deltas[j].pairs() == sym_with(no_pairs(n as int), traces_pairs(chunks[j], radius)),
    ensures
        merged_pairs(deltas, k) == sym_with(no_pairs(n as int), traces_pairs(chunks.take(k).flatten(), radius)),
    decreases k,
{
    assert(chunks.take(k) =~= chunks.take(k - 1).push(chunks[k - 1]));
    chunks.take(k - 1).lemma_flatten_push(chunks[k - 1]);
    if k == 1 {
        assert(chunks.take(0) =~= Seq::<Seq<OgRank2CurRank>>::empty());
        assert(chunks.take(0).flatten() =~= Seq::<OgRank2CurRank>::empty());
        assert(chunks.take(1).flatten() =~= chunks[0]);
        assert(deltas[0].pairs() == sym_with(no_pairs(n as int), traces_pairs(chunks[0], radius)));
    } else {
        lemma_merging_recorded_prefix(deltas, chunks, n, radius, k - 1);
        let a = chunks.take(k - 1).flatten();
        let b = chunks[k - 1];
        assert(deltas[k - 1].pairs() == sym_with(no_pairs(n as int), traces_pairs(b, radius)));
        assert(no_pairs(n as int).len() == n);
        lemma_chunked_recording(no_pairs(n as int), radius, a, b);
        assert(chunks.take(k).flatten() =~= a + b);
    }
}

/// The sum of the numbers of traces of the first `k` records.
pub open spec fn traces_sum(deltas: Seq<StreamingTranspositionsDelta>, k: int) -> int
    decreases k,
{
    if k <= 0 {
        0
    } else {
        traces_sum(deltas, k - 1) + deltas[k - 1].traces_recorded.0
    }
}

impl StreamingTranspositions {
    /// Moves the pairs of this stream into the ancestors (made empty first if there are none),
    /// which save a point as `merge` does, and starts a new stream with the same counts.
    pub fn update_ancestors<F: Fn(u32) -> u32>(&mut self, threshold: &F)
        requires
            old(self).wf(),
            match old(self).all_ancestors {
                Some(a) => a.inner.traces_recorded.0 + old(self).inner.traces_recorded.0 <= u32::MAX
                    && a.inner.cumsum.0 + a.inner.og_trace_length * a.inner.og_trace_length - total(a.inner.pairs()) <= u32::MAX
                    && saved_below(a.inner),
                None => old(self).inner.og_trace_length * old(self).inner.og_trace_length <= u32::MAX,
            },
            gives_one_threshold(*threshold),
        ensures
            final(self).all_ancestors->0.inner.cumsums@ == save_if_grown(
                *threshold,
                match old(self).all_ancestors {
                    Some(a) => a.inner.cumsums@,
                    None => Seq::<(NTraces, CumSum)>::empty(),
                },
                (final(self).all_ancestors->0.inner.traces_recorded, final(self).all_ancestors->0.inner.cumsum),
            ),
            saved_below(final(self).all_ancestors->0.inner),
            final(self).wf(),
            final(self).all_ancestors is Some,
            final(self).inner.og_trace_length == old(self).inner.og_trace_length,
            final(self).inner.search_radius == old(self).inner.search_radius,
            final(self).inner.traces_recorded == old(self).inner.traces_recorded,
            final(self).inner.cumsum == old(self).inner.cumsum,
            final(self).inner.cumsums@ == Seq::<(NTraces, CumSum)>::empty(),
            final(self).inner.pairs() == no_pairs(old(self).inner.og_trace_length as int),
            symmetric(old(self).ancestor_pairs()) ==> final(self).ancestor_pairs() == sym_with(
                old(self).ancestor_pairs(),
                held(old(self).inner.pairs()),
            ),
    {
        if self.all_ancestors.is_none() {
            let e = self.empty();
            proof {
                lemma_no_pairs(e.inner.pairs());
                assert(self.ancestor_pairs() =~= e.inner.pairs());
            }
            self.all_ancestors = Some(Box::new(e));
        }
        let n = self.inner.og_trace_length;
        let fresh = empty_before_and_afters(n);
        let inner = StreamingTranspositionsDelta {
            og_trace_length: n,
            search_radius: self.inner.search_radius,
            traces_recorded: self.inner.traces_recorded,
            cumsum: self.inner.cumsum,
            cumsums: Vec::new(),
            before_and_afters: fresh,
        };
        let mut old_inner = inner;
        std::mem::swap(&mut old_inner, &mut self.inner);
        match self.all_ancestors.take() {
            Some(mut a) => {
                a.inner.merge(&old_inner, threshold);
                self.all_ancestors = Some(a);
            },
            None => {},
        }
        proof {
            assert(self.inner.pairs() =~= no_pairs(n as int));
        }
    }

    /// The record whose ancestors are the merge of the given records, one after the other (each
    /// merge saving a point as `merge` does), with an empty stream of its own.
    pub fn from_deltas<F: Fn(u32) -> u32>(deltas: &Vec<StreamingTranspositionsDelta>, threshold: &F) -> (r: Self)
        requires
            deltas@.len() > 0,
            forall|k: int| 0 <= k < deltas@.len() ==> (#[trigger] deltas@[k]).wf() && deltas@[k].og_trace_length == deltas@[0].og_trace_length,
            traces_sum(deltas@, deltas@.len() as int) <= u32::MAX,
            deltas@[0].cumsum.0 + deltas@[0].og_trace_length * deltas@[0].og_trace_length - total(deltas@[0].pairs()) <= u32::MAX,
            saved_below(deltas@[0]),
            gives_one_threshold(*threshold),
        ensures
            r.all_ancestors->0.inner.cumsums@.take(deltas@[0].cumsums@.len() as int) == deltas@[0].cumsums@,
            r.all_ancestors->0.inner.cumsums@.len() <= deltas@[0].cumsums@.len() + deltas@.len() - 1,
            saved_below(r.all_ancestors->0.inner),
            r.wf(),
            r.all_ancestors is Some,
            r.inner.og_trace_length == deltas@[0].og_trace_length,
            r.inner.search_radius == deltas@[0].search_radius,
            r.inner.traces_recorded.0 == traces_sum(deltas@, deltas@.len() as int),
            r.inner.cumsums@ == Seq::<(NTraces, CumSum)>::empty(),
            r.inner.pairs() == no_pairs(deltas@[0].og_trace_length as int),
            r.inner.cumsum == r.all_ancestors->0.inner.cumsum,
            symmetric(deltas@[0].pairs()) ==> {
                &&& symmetric(r.all_ancestors->0.inner.pairs())
                &&& r.all_ancestors->0.inner.pairs() == merged_pairs(deltas@, deltas@.len() as int)
                &&& r.all_ancestors->0.inner.cumsum.0 == merged_cumsum(deltas@, deltas@.len() as int)
                &&& r.all_ancestors->0.inner.cumsums@ == merged_saved(*threshold, deltas@, deltas@.len() as int)
            },
    {
        let mut start = deltas[0].duplicate();
        let ghost sym0 = symmetric(deltas@[0].pairs());
        let n = start.og_trace_length;
        let mut i: usize = 1;
        proof {
            assert(start.cumsums@.take(deltas@[0].cumsums@.len() as int) =~= deltas@[0].cumsums@);
            reveal_with_fuel(traces_sum, 2);
            lemma_traces_sum_monotonic(deltas@, 1, deltas@.len() as int);
        }
        while i < deltas.len()
            invariant
                1 <= i <= deltas@.len(),
                forall|k: int| 0 <= k < deltas@.len() ==> (#[trigger] deltas@[k]).wf() && deltas@[k].og_trace_length == n,
                start.wf(),
                start.og_trace_length == n,
                start.search_radius == deltas@[0].search_radius,
                start.traces_recorded.0 == traces_sum(deltas@, i as int),
                traces_sum(deltas@, deltas@.len() as int) <= u32::MAX,
                start.cumsum.0 + n * n - total(start.pairs()) <= u32::MAX,
                saved_below(start),
                gives_one_threshold(*threshold),
                start.cumsums@.take(deltas@[0].cumsums@.len() as int) == deltas@[0].cumsums@,
                deltas@[0].cumsums@.len() <= start.cumsums@.len() <= deltas@[0].cumsums@.len() + i - 1,
                sym0 == symmetric(deltas@[0].pairs()),
                sym0 ==> symmetric(start.pairs()),
                sym0 ==> start.pairs() == merged_pairs(deltas@, i as int),
                sym0 ==> start.cumsum.0 == merged_cumsum(deltas@, i as int),
                sym0 ==> start.cumsums@ == merged_saved(*threshold, deltas@, i as int),
            decreases deltas@.len() - i,
        {
            proof {
                lemma_traces_sum_monotonic(deltas@, i + 1, deltas@.len() as int);
            }
            let ghost before = start.cumsums@;
            let ghost pairs_before = start.pairs();
            let ghost c_before = start.cumsum.0;
            start.merge(&deltas[i], threshold);
            proof {
                let k = deltas@[0].cumsums@.len() as int;
                if start.cumsums@.len() > before.len() {
                    assert(start.cumsums@.take(k) =~= before.take(k));
                }
                if sym0 {
                    assert(merged_pairs(deltas@, i + 1) == sym_with(merged_pairs(deltas@, i as int), held(deltas@[i as int].pairs())));
                    assert(start.pairs() == merged_pairs(deltas@, i + 1));
                    assert(start.cumsum.0 == merged_cumsum(deltas@, i + 1));
                    assert(start.traces_recorded.0 == traces_sum(deltas@, i + 1));
                    assert(start.cumsums@ == merged_saved(*threshold, deltas@, i + 1));
                }
            }
            i += 1;
        }
        let fresh = empty_before_and_afters(n);
        let inner = StreamingTranspositionsDelta {
            og_trace_length: n,
            search_radius: start.search_radius,
            traces_recorded: start.traces_recorded,
            cumsum: start.cumsum,
            cumsums: Vec::new(),
            before_and_afters: fresh,
        };
        let r = StreamingTranspositions {
            inner,
            all_ancestors: Some(Box::new(StreamingTranspositions { inner: start, all_ancestors: None })),
        };
        proof {
            assert(r.inner.pairs() =~= no_pairs(n as int));
        }
        r
    }
}

proof fn lemma_traces_sum_monotonic(deltas: Seq<StreamingTranspositionsDelta>, a: int, b: int)
    requires
        0 <= a <= b,
    ensures
        traces_sum(deltas, a) <= traces_sum(deltas, b),
    decreases b - a,
{
    if a < b {
        lemma_traces_sum_monotonic(deltas, a, b - 1);
    }
}

// ---------------------------------------------------------------------------------------------
// Pairs of positions, by growing distance
// ---------------------------------------------------------------------------------------------

/// The pairs of positions below a bound, the pairs at distance at most 2 first, then those at
/// distances between each successive power of two and the next.
#[derive(Debug, Clone, PartialEq, Eq, Hash)]
pub struct BigSmallIterator {
    pub max_ogrank_strict: i32,
    pub power: u32,
    pub diffmaxstrict: i32,
    pub diffmin: i32,
    pub start_minus_diff: i32,
    pub diff: i32,
}

/// The state after the first branch of a step: the distance grows by one.
pub open spec fn bs_with_diff(s: BigSmallIterator, diff: int) -> BigSmallIterator {
    BigSmallIterator { diff: diff as i32, ..s }
}

/// The state at the next start: the distance starts again at the round's smallest one (or what
/// keeps the start at 0 or above).
pub open spec fn bs_next_start(s: BigSmallIterator) -> BigSmallIterator {
    let m = s.max_ogrank_strict as int;
    let smd = s.start_minus_diff + 1;
    BigSmallIterator {
        start_minus_diff: smd as i32,
        diff: (if s.diffmin > -smd { s.diffmin as int } else { -smd }) as i32,
        diffmaxstrict: (if 2 * s.diffmin < m { 2 * s.diffmin } else { m }) as i32,
        ..s
    }
}

/// The state at the next round: the distances double.
pub open spec fn bs_next_round(s: BigSmallIterator) -> BigSmallIterator {
    let m = s.max_ogrank_strict as int;
    let diffmin = 2 * s.diffmin;
    let dms = if 2 * diffmin < m { 2 * diffmin } else { m };
    let smd = 0 - dms + 1;
    BigSmallIterator {
        power: (s.power + 1) as u32,
        diffmin: diffmin as i32,
        diffmaxstrict: dms as i32,
        start_minus_diff: smd as i32,
        diff: (if diffmin > -smd { diffmin } else { -smd }) as i32,
        ..s
    }
}

/// The pair that the iterator gives next, and its state afterwards: within each round, for each
/// start, the pairs (start, start + distance) for the distances of the round that keep both
/// positions in range; the rounds double the distances until they pass the bound.
pub open spec fn bs_next(s: BigSmallIterator) -> (BigSmallIterator, Option<(OgRank, OgRank)>)
    decreases 29 - s.power, s.max_ogrank_strict - s.start_minus_diff, s.diffmaxstrict - s.diff,
    when s.wf()
{
    let m = s.max_ogrank_strict as int;
    if s.diff < s.diffmaxstrict && s.diff <= (m - s.start_minus_diff) / 2 {
        let start = s.start_minus_diff + s.diff;
        let other = start + s.diff;
        let s2 = bs_with_diff(s, s.diff + 1);
        if other < m {
            (s2, Some((OgRank(start as u32), OgRank(other as u32))))
        } else {
            bs_next(s2)
        }
    } else if s.start_minus_diff < m - s.diffmin {
        proof {
            lemma_pow2_pos(s.power as nat);
        }
        bs_next(bs_next_start(s))
    } else if s.diffmin <= m {
        proof {
            lemma2_to64();
        }
        bs_next(bs_next_round(s))
    } else {
        (s, None)
    }
}

impl BigSmallIterator {
    /// The state from which `next` can run: the bound is positive and small enough that no step
    /// overflows; the smallest distance of the current round is `2^power`, the largest (strict)
    /// twice that or the bound; the current start and distance are within the round.
    pub open spec fn wf(&self) -> bool {
        &&& 1 <= self.max_ogrank_strict <= 0x1fff_ffff
        &&& self.power <= 29
        &&& self.diffmin == pow2(self.power as nat)
        &&& self.diffmin <= 2 * self.max_ogrank_strict
        &&& self.diffmaxstrict == if 2 * self.diffmin < self.max_ogrank_strict {
            2 * self.diffmin
        } else {
            self.max_ogrank_strict as int
        }
        &&& 1 - self.diffmaxstrict <= self.start_minus_diff <= self.max_ogrank_strict
        &&& 1 <= self.diff
        &&& -self.start_minus_diff <= self.diff
        &&& self.diff <= self.diffmin || self.diff <= self.diffmaxstrict
    }

    /// The pairs of positions below `max_ogrank_strict`.
    pub fn new(max_ogrank_strict: OgRank) -> (r: Self)
        requires
            max_ogrank_strict.0 as i32 >= 1 - i32::MAX,
        ensures
            r.max_ogrank_strict == max_ogrank_strict.0 as i32,
            r.power == 0,
            (1 <= max_ogrank_strict.0 <= 0x1fff_ffff) ==> r.wf(),
    {
        let m = max_ogrank_strict.0 as i32;
        let diffmaxstrict: i32 = if 2 < m { 2 } else { m };
        proof {
            lemma2_to64();
        }
        BigSmallIterator {
            max_ogrank_strict: m,
            power: 0,
            diffmaxstrict,
            diffmin: 1,
            start_minus_diff: 1 - diffmaxstrict,
            diff: 1,
        }
    }

    /// The exponent of the current round.
    pub fn power(&self) -> (r: u32)
        ensures
            r == self.power,
    {
        self.power
    }

    /// The bound on the positions.
    pub fn max_ogrank_strict(&self) -> (r: OgRank)
        ensures
            r == OgRank(self.max_ogrank_strict as u32),
    {
        OgRank(self.max_ogrank_strict as u32)
    }

    /// The next pair, in ascending order, both below the bound; `None` once every round is done.
    pub fn next(&mut self) -> (r: Option<(OgRank, OgRank)>)
        requires
            old(self).wf(),
        ensures
            final(self).wf(),
            final(self).max_ogrank_strict == old(self).max_ogrank_strict,
            final(self).power >= old(self).power,
            r matches Some((a, b)) ==> 0 <= a.0 < b.0 < old(self).max_ogrank_strict,
            (*final(self), r) == bs_next(*old(self)),
    {
        loop
            invariant
                self.wf(),
                self.max_ogrank_strict == old(self).max_ogrank_strict,
                self.power >= old(self).power,
                bs_next(*self) == bs_next(*old(self)),
            decreases 29 - self.power, self.max_ogrank_strict - self.start_minus_diff, self.diffmaxstrict - self.diff,
        {
            let m = self.max_ogrank_strict;
            proof {
                lemma2_to64();
            }
            if self.diff < self.diffmaxstrict && self.diff <= (m - self.start_minus_diff) / 2 {
                let start = self.start_minus_diff + self.diff;
                let other = start + self.diff;
                self.diff = self.diff + 1;
                if other < m {
                    return Some((OgRank(start as u32), OgRank(other as u32)));
                }
            } else if self.start_minus_diff < m - self.diffmin {
                self.start_minus_diff = self.start_minus_diff + 1;
                self.diff = if self.diffmin > -self.start_minus_diff {
                    self.diffmin
                } else {
                    -self.start_minus_diff
                };
                self.diffmaxstrict = if 2 * self.diffmin < m {
                    2 * self.diffmin
                } else {
                    m
                };
            } else if self.diffmin <= m {
                proof {
                    lemma_pow2_unfold((self.power + 1) as nat);
                }
                self.power = self.power + 1;
                self.diffmin = 2 * self.diffmin;
                self.diffmaxstrict = if 2 * self.diffmin < m {
                    2 * self.diffmin
                } else {
                    m
                };
                self.start_minus_diff = 0 - self.diffmaxstrict + 1;
                self.diff = if self.diffmin > -self.start_minus_diff {
                    self.diffmin
                } else {
                    -self.start_minus_diff
                };
            } else {
                return None;
            }
        }
    }
}

impl BigSmallIterator {
    /// The pairs of positions of the record's original trace.
    pub fn from_strans(strans: &StreamingTranspositions) -> (r: Self)
        requires
            strans.inner.wf(),
        ensures
            r.max_ogrank_strict == strans.inner.og_trace_length as i32,
            r.power == 0,
            1 <= strans.inner.og_trace_length <= 0x1fff_ffff ==> r.wf(),
    {
        Self::new(OgRank(strans.inner.og_trace_length as u32))
    }
}

/// `rand::Rng::gen_range` on the thread's generator: a number drawn from `lo..hi`. The range is
/// all that is stated of it: the draw depends on chance. It panics on an empty range, which the
/// precondition excludes.
#[verifier::external_body]
fn random_index(lo: usize, hi: usize) -> (r: usize)
    requires
        lo < hi,
    ensures
        lo <= r < hi,
{
    rand::thread_rng().gen_range(lo..hi)
}

/// Each of `0..n` occurs in the trace, which has `n` positions: the trace is a permutation.
pub open spec fn is_permutation(trace: Seq<CurRank>, n: int) -> bool {
    trace.len() == n && forall|v: int| 0 <= v < n ==> #[trigger] occurs(trace, v)
}

/// The position `v` occurs in the trace.
pub open spec fn occurs(trace: Seq<CurRank>, v: int) -> bool {
    trace.contains(CurRank(v as u32))
}

/// Traces that reorder the trace `0..trace_len`: each by `reordering_times` swaps of a random
/// position with a random later one less than `reordering_radius` away.
pub fn random_traces(
    trace_len: usize,
    n_traces: usize,
    reordering_times: usize,
    reordering_radius: usize,
) -> (r: Vec<Vec<CurRank>>)
    requires
        trace_len <= u32::MAX,
        reordering_times > 0 ==> trace_len > 0 && reordering_radius > 0,
    ensures
        r@.len() == n_traces,
        forall|k: int| 0 <= k < n_traces ==> is_permutation((#[trigger] r@[k])@, trace_len as int),
{
    let mut traces: Vec<Vec<CurRank>> = Vec::new();
    let mut t: usize = 0;
    while t < n_traces
        invariant
            t <= n_traces,
            traces@.len() == t,
            trace_len <= u32::MAX,
            reordering_times > 0 ==> trace_len > 0 && reordering_radius > 0,
            forall|k: int| 0 <= k < t ==> is_permutation((#[trigger] traces@[k])@, trace_len as int),
        decreases n_traces - t,
    {
        let mut trace: Vec<CurRank> = Vec::new();
        let mut v: usize = 0;
        while v < trace_len
            invariant
                v <= trace_len <= u32::MAX,
                trace@.len() == v,
                forall|i: int| 0 <= i < v ==> #[trigger] trace@[i] == CurRank(i as u32),
            decreases trace_len - v,
        {
            trace.push(CurRank(v as u32));
            v += 1;
        }
        proof {
            assert forall|x: int| 0 <= x < trace_len implies #[trigger] occurs(trace@, x) by {
                assert(trace@[x] == CurRank(x as u32));
            }
        }
        let mut k: usize = 0;
        while k < reordering_times
            invariant
                k <= reordering_times,
                reordering_times > 0 ==> trace_len > 0 && reordering_radius > 0,
                is_permutation(trace@, trace_len as int),
            decreases reordering_times - k,
        {
            let i = random_index(0, trace.len());
            let hi = if trace.len() - i < reordering_radius { trace.len() } else { i + reordering_radius };
            let j = random_index(i, hi);
            let ghost before = trace@;
            let a = trace[i];
            let b = trace[j];
            trace.set(i, b);
            trace.set(j, a);
            proof {
                assert forall|x: int| 0 <= x < trace_len implies #[trigger] occurs(trace@, x) by {
                    let w = CurRank(x as u32);
                    assert(occurs(before, x));
                    let m = choose|m: int| 0 <= m < before.len() && before[m] == w;
                    if m == i {
                        assert(trace@[j as int] == w);
                    } else if m == j {
                        assert(trace@[i as int] == w);
                    } else {
                        assert(trace@[m] == w);
                    }
                }
            }
            k += 1;
        }
        traces.push(trace);
        t += 1;
    }
    traces
}

} // verus!
