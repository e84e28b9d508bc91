//! Holding the pairs of events that the rules allow to be reordered against the pairs that were
//! seen reordered: the first must contain the second wherever the rules are sound.
use vstd::prelude::*;
use crate::rankset::RankSet;
use crate::relation::OgRank;
use crate::trace::TraceRecord;
use crate::transpositions::{CurRank, OgRank2CurRank, Orderings, StreamingTranspositions};

verus! {

broadcast use vstd::seq_lib::group_seq_properties;

/// The list at position `a` of `pp` names `b`.
pub open spec fn lists(pp: Seq<Vec<OgRank>>, a: int, b: int) -> bool {
    0 <= a < pp.len() && exists|k: int| 0 <= k < pp[a]@.len() && (#[trigger] pp[a]@[k]).0 == b
}

/// The first `k` entries of the list at `og`, and all the lists before it, have been gone through,
/// and one of them at position `a` names `b`.
pub open spec fn listed_before(pp: Seq<Vec<OgRank>>, og: int, k: int, a: int, b: int) -> bool {
    ||| 0 <= a < og && lists(pp, a, b)
    ||| a == og && 0 <= og < pp.len() && exists|kk: int| 0 <= kk < k && (#[trigger] pp[og]@[kk]).0 == b
}

/// For each event, the events that may be reordered with it: those that its list of preceding
/// permutable events names, and those whose lists name it. The trace gives the number of events.
pub fn all_permutables_from_preceding_permutables(
    preceding_permutables: &Vec<Vec<OgRank>>,
    ogtrace: &Vec<TraceRecord>,
) -> (r: Vec<RankSet>)
    requires
        ogtrace@.len() <= u32::MAX,
        preceding_permutables@.len() <= ogtrace@.len(),
        forall|i: int, k: int|
            0 <= i < preceding_permutables@.len() && 0 <= k < preceding_permutables@[i]@.len()
                ==> (#[trigger] preceding_permutables@[i]@[k]).0 < ogtrace@.len(),
    ensures
        r@.len() == ogtrace@.len(),
        forall|i: int| 0 <= i < r@.len() ==> (#[trigger] r@[i]).wf() && r@[i].universe() == ogtrace@.len(),
        forall|i: int, j: int|
            0 <= i < r@.len() ==> (#[trigger] r@[i]@.contains(j) <==> (lists(preceding_permutables@, i, j)
                || lists(preceding_permutables@, j, i))),
{
    let n = ogtrace.len();
    let ghost pp = preceding_permutables@;
    let mut all: Vec<RankSet> = Vec::new();
    let mut i: usize = 0;
    while i < n
        invariant
            i <= n,
            all@.len() == i,
            forall|q: int| 0 <= q < i ==> (#[trigger] all@[q]).wf() && all@[q].universe() == n && all@[q]@ == Set::<int>::empty(),
        decreases n - i,
    {
        all.push(RankSet::new(n));
        i += 1;
    }
    let mut og: usize = 0;
    while og < preceding_permutables.len()
        invariant
            n == ogtrace@.len() <= u32::MAX,
            pp == preceding_permutables@,
            pp.len() <= n,
            forall|a: int, k: int| 0 <= a < pp.len() && 0 <= k < pp[a]@.len() ==> (#[trigger] pp[a]@[k]).0 < n,
            og <= pp.len(),
            all@.len() == n,
            forall|q: int| 0 <= q < n ==> (#[trigger] all@[q]).wf() && all@[q].universe() == n,
            forall|a: int, b: int| 0 <= a < n ==> (#[trigger] all@[a]@.contains(b) <==> (listed_before(pp, og as int, 0, a, b)
                || listed_before(pp, og as int, 0, b, a))),
        decreases pp.len() - og,
    {
        let list = &preceding_permutables[og];
        let mut k: usize = 0;
        while k < list.len()
            invariant
                n == ogtrace@.len() <= u32::MAX,
                pp == preceding_permutables@,
                pp.len() <= n,
                forall|a: int, k: int| 0 <= a < pp.len() && 0 <= k < pp[a]@.len() ==> (#[trigger] pp[a]@[k]).0 < n,
                og < pp.len(),
                *list == pp[og as int],
                k <= list@.len(),
                all@.len() == n,
                forall|q: int| 0 <= q < n ==> (#[trigger] all@[q]).wf() && all@[q].universe() == n,
                forall|a: int, b: int| 0 <= a < n ==> (#[trigger] all@[a]@.contains(b) <==> (listed_before(pp, og as int, k as int, a, b)
                    || listed_before(pp, og as int, k as int, b, a))),
            decreases list@.len() - k,
        {
            let ogr = list[k];
            assert(pp[og as int]@[k as int] == ogr);
            let ghost before = all@;
            all[ogr.0 as usize].insert(og as u32);
            all[og].insert(ogr.0);
            proof {
                assert forall|a: int, b: int| 0 <= a < n implies (#[trigger] all@[a]@.contains(b) <==> (listed_before(pp, og as int, k + 1, a, b)
                    || listed_before(pp, og as int, k + 1, b, a))) by {
                    if listed_before(pp, og as int, k + 1, a, b) && !listed_before(pp, og as int, k as int, a, b) {
                        let kk = choose|kk: int| 0 <= kk < k + 1 && (#[trigger] pp[og as int]@[kk]).0 == b;
                        if kk < k {
                            assert(listed_before(pp, og as int, k as int, a, b));
                        }
                    }
                    if listed_before(pp, og as int, k + 1, b, a) && !listed_before(pp, og as int, k as int, b, a) {
                        let kk = choose|kk: int| 0 <= kk < k + 1 && (#[trigger] pp[og as int]@[kk]).0 == a;
                        if kk < k {
                            assert(listed_before(pp, og as int, k as int, b, a));
                        }
                    }
                    if a == og && b == ogr.0 {
                        assert(listed_before(pp, og as int, k + 1, a, b));
                    }
                    if b == og && a == ogr.0 {
                        assert(listed_before(pp, og as int, k + 1, b, a));
                    }
                }
            }
            k += 1;
        }
        proof {
            assert forall|a: int, b: int| 0 <= a < n implies (#[trigger] all@[a]@.contains(b) <==> (listed_before(pp, og + 1, 0, a, b)
                || listed_before(pp, og + 1, 0, b, a))) by {
                assert(listed_before(pp, og as int, list@.len() as int, a, b) <==> listed_before(pp, og + 1, 0, a, b));
                assert(listed_before(pp, og as int, list@.len() as int, b, a) <==> listed_before(pp, og + 1, 0, b, a));
            }
        }
        og += 1;
    }
    proof {
        assert forall|a: int, b: int| 0 <= a < n implies (#[trigger] all@[a]@.contains(b) <==> (lists(pp, a, b) || lists(pp, b, a))) by {
            assert(listed_before(pp, pp.len() as int, 0, a, b) <==> lists(pp, a, b));
            assert(listed_before(pp, pp.len() as int, 0, b, a) <==> lists(pp, b, a));
        }
    }
    all
}

/// Adds `x` to the list unless it is there already.
fn insert_distinct(v: &mut Vec<u32>, x: u32)
    requires
        old(v)@.no_duplicates(),
    ensures
        final(v)@.no_duplicates(),
        forall|y: u32| #[trigger] final(v)@.contains(y) <==> (old(v)@.contains(y) || y == x),
{
    let mut i: usize = 0;
    while i < v.len()
        invariant
            v@ == old(v)@,
            old(v)@.no_duplicates(),
            i <= v@.len(),
            forall|j: int| 0 <= j < i ==> v@[j] != x,
        decreases v@.len() - i,
    {
        if v[i] == x {
            assert(old(v)@.contains(x));
            return;
        }
        i += 1;
    }
    v.push(x);
    proof {
        assert forall|y: u32| #[trigger] v@.contains(y) <==> (old(v)@.contains(y) || y == x) by {
            if v@.contains(y) && y != x {
                let j = choose|j: int| 0 <= j < v@.len() && v@[j] == y;
                assert(old(v)@[j] == y);
            }
            if old(v)@.contains(y) {
                let j = choose|j: int| 0 <= j < old(v)@.len() && old(v)@[j] == y;
                assert(v@[j] == y);
            }
            if y == x {
                assert(v@[v@.len() - 1] == y);
            }
        }
    }
}

/// The events on both sides of the event at `og`, as the stream and its ancestors hold them.
pub open spec fn known_at(st: StreamingTranspositions, og: int) -> Set<int> {
    st.inner.pairs()[og].union(st.ancestor_pairs()[og])
}

/// The event at `og` moves to `c`, and `p`, one of the events found on both sides of it and a
/// position below `len`, moves to `x`.
pub open spec fn translated_pair(st: StreamingTranspositions, og2: Seq<crate::transpositions::CurRank>, len: int, og: int, p: int, c: int, x: int) -> bool {
    &&& 0 <= og < st.inner.og_trace_length
    &&& og2[og].0 == c
    &&& known_at(st, og).contains(p)
    &&& p < len
    &&& og2[p].0 == x
}

/// For each position below `len` of a trace, the positions there of the events that were seen on
/// both sides of the events that moved to it: the pairs found by the stream, moved to the
/// positions that `ogog2og` gives them. Events that move to `len` or beyond are left out, and so
/// are partners at or beyond `len` in the original order.
pub fn empirical_all_permutables_translated(
    strans_out: &StreamingTranspositions,
    ogog2og: &OgRank2CurRank,
    len: usize,
) -> (r: Vec<Vec<u32>>)
    requires
        strans_out.wf(),
        ogog2og.0@.len() >= strans_out.inner.og_trace_length,
    ensures
        r@.len() == len,
        forall|c: int| 0 <= c < len ==> (#[trigger] r@[c])@.no_duplicates(),
        forall|c: int, x: u32| 0 <= c < len ==> ((#[trigger] r@[c]@.contains(x)) <==> exists|og: int, p: int|
            #[trigger] translated_pair(*strans_out, ogog2og.0@, len as int, og, p, c, x as int)),
{
    let n = strans_out.inner.og_trace_length;
    let ghost og2 = ogog2og.0@;
    let ghost st = *strans_out;
    let mut all: Vec<Vec<u32>> = Vec::new();
    let mut i: usize = 0;
    while i < len
        invariant
            i <= len,
            all@.len() == i,
            forall|q: int| 0 <= q < i ==> (#[trigger] all@[q])@ == Seq::<u32>::empty(),
        decreases len - i,
    {
        all.push(Vec::new());
        i += 1;
    }
    let ords = strans_out.orderings();
    let mut it = ords.iter();
    let mut og: usize = 0;
    proof {
        assert forall|q: int| 0 <= q < n implies #[trigger] ords.at(q) == known_at(st, q) by {
            assert(ords.at(q) =~= known_at(st, q));
        }
    }
    while og < n
        invariant
            st == *strans_out,
            st.wf(),
            n == st.inner.og_trace_length,
            n <= i32::MAX,
            og2 == ogog2og.0@,
            og2.len() >= n,
            ords.wf(),
            ords.before_and_afters@.len() == n,
            forall|q: int| 0 <= q < n ==> #[trigger] ords.at(q) == known_at(st, q),
            *it.0 == ords,
            it.1 == og,
            og <= n,
            all@.len() == len,
            forall|c: int| 0 <= c < len ==> (#[trigger] all@[c])@.no_duplicates(),
            forall|c: int, x: u32| 0 <= c < len ==> ((#[trigger] all@[c]@.contains(x)) <==> exists|o: int, p: int|
                o < og && #[trigger] translated_pair(st, og2, len as int, o, p, c, x as int)),
        decreases n - og,
    {
        let next = it.next();
        let set = match next {
            Some(set) => set,
            None => {
                assert(false);
                RankSet::new(0)
            },
        };
        let cur = ogog2og.0[og].0 as usize;
        if cur < len {
            let members = set.to_sorted_vec();
            let mut j: usize = 0;
            while j < members.len()
                invariant
                    st == *strans_out,
                    st.wf(),
                    n == st.inner.og_trace_length,
                    og2 == ogog2og.0@,
                    og2.len() >= n,
                    og < n,
                    cur < len,
                    cur == og2[og as int].0,
                    set@ == known_at(st, og as int),
                    forall|x: int| set@.contains(x) <==> (exists|a: int| 0 <= a < members@.len() && members@[a] == x),
                    j <= members@.len(),
                    all@.len() == len,
                    forall|c: int| 0 <= c < len ==> (#[trigger] all@[c])@.no_duplicates(),
                    forall|c: int, x: u32| 0 <= c < len ==> ((#[trigger] all@[c]@.contains(x)) <==> ((exists|o: int, p: int|
                        o < og && #[trigger] translated_pair(st, og2, len as int, o, p, c, x as int)) || (c == cur && exists|a: int|
                        0 <= a < j && #[trigger] members@[a] < len && og2[members@[a] as int].0 == x))),
                decreases members@.len() - j,
            {
                let p = members[j];
                assert(set@.contains(p as int));
                if (p as usize) < len {
                    assert(p < n) by {
                        st.inner.before_and_afters@[og as int].lemma_bounded();
                        assert(st.inner.pairs()[og as int] == st.inner.before_and_afters@[og as int]@);
                        if let Some(a) = st.all_ancestors {
                            a.inner.before_and_afters@[og as int].lemma_bounded();
                            assert(st.ancestor_pairs()[og as int] == a.inner.before_and_afters@[og as int]@);
                        }
                    }
                    let x = ogog2og.0[p as usize].0;
                    let ghost before = all@;
                    insert_distinct(&mut all[cur], x);
                    proof {
                        assert forall|c: int, y: u32| 0 <= c < len implies ((#[trigger] all@[c]@.contains(y)) <==> ((exists|o: int, q: int|
                            o < og && #[trigger] translated_pair(st, og2, len as int, o, q, c, y as int)) || (c == cur && exists|a: int|
                            0 <= a < j + 1 && #[trigger] members@[a] < len && og2[members@[a] as int].0 == y))) by {
                            if c == cur && y == x {
                                assert(members@[j as int] < len && og2[members@[j as int] as int].0 == y);
                            }
                            if c == cur && (exists|a: int| 0 <= a < j + 1 && #[trigger] members@[a] < len && og2[members@[a] as int].0 == y) {
                                let a = choose|a: int| 0 <= a < j + 1 && #[trigger] members@[a] < len && og2[members@[a] as int].0 == y;
                                if a < j {
                                    assert(before[c]@.contains(y));
                                }
                            }
                            if c != cur {
                                assert(all@[c] == before[c]);
                            }
                        }
                    }
                } else {
                    proof {
                        assert forall|c: int, y: u32| 0 <= c < len implies ((#[trigger] all@[c]@.contains(y)) <==> ((exists|o: int, q: int|
                            o < og && #[trigger] translated_pair(st, og2, len as int, o, q, c, y as int)) || (c == cur && exists|a: int|
                            0 <= a < j + 1 && #[trigger] members@[a] < len && og2[members@[a] as int].0 == y))) by {
                            if c == cur && (exists|a: int| 0 <= a < j + 1 && #[trigger] members@[a] < len && og2[members@[a] as int].0 == y) {
                                let a = choose|a: int| 0 <= a < j + 1 && #[trigger] members@[a] < len && og2[members@[a] as int].0 == y;
                                assert(a < j);
                            }
                        }
                    }
                }
                j += 1;
            }
            proof {
                assert forall|c: int, y: u32| 0 <= c < len implies ((#[trigger] all@[c]@.contains(y)) <==> exists|o: int, q: int|
                    o < og + 1 && #[trigger] translated_pair(st, og2, len as int, o, q, c, y as int)) by {
                    if c == cur && (exists|a: int| 0 <= a < members@.len() && #[trigger] members@[a] < len && og2[members@[a] as int].0 == y) {
                        let a = choose|a: int| 0 <= a < members@.len() && #[trigger] members@[a] < len && og2[members@[a] as int].0 == y;
                        assert(set@.contains(members@[a] as int));
                        assert(translated_pair(st, og2, len as int, og as int, members@[a] as int, c, y as int));
                    }
                    if exists|o: int, q: int| o < og + 1 && #[trigger] translated_pair(st, og2, len as int, o, q, c, y as int) {
                        let (o, q) = choose|o: int, q: int| o < og + 1 && #[trigger] translated_pair(st, og2, len as int, o, q, c, y as int);
                        if o == og {
                            assert(set@.contains(q));
                            let a = choose|a: int| 0 <= a < members@.len() && members@[a] == q;
                            assert(members@[a] < len && og2[members@[a] as int].0 == y);
                        }
                    }
                }
            }
        } else {
            proof {
                assert forall|c: int, y: u32| 0 <= c < len implies ((#[trigger] all@[c]@.contains(y)) <==> exists|o: int, q: int|
                    o < og + 1 && #[trigger] translated_pair(st, og2, len as int, o, q, c, y as int)) by {
                    if exists|o: int, q: int| o < og + 1 && #[trigger] translated_pair(st, og2, len as int, o, q, c, y as int) {
                        let (o, q) = choose|o: int, q: int| o < og + 1 && #[trigger] translated_pair(st, og2, len as int, o, q, c, y as int);
                        assert(o != og);
                    }
                }
            }
        }
        og += 1;
    }
    proof {
        assert forall|c: int, y: u32| 0 <= c < len implies ((#[trigger] all@[c]@.contains(y)) <==> exists|o: int, q: int|
            #[trigger] translated_pair(st, og2, len as int, o, q, c, y as int)) by {
            if exists|o: int, q: int| #[trigger] translated_pair(st, og2, len as int, o, q, c, y as int) {
                let (o, q) = choose|o: int, q: int| #[trigger] translated_pair(st, og2, len as int, o, q, c, y as int);
                assert(o < og);
            }
        }
    }
    all
}

/// For each position that both lists have: whether the allowed pairs contain the observed ones,
/// and how many pairs were observed and are allowed.
pub fn superset_checks(all_permutables: &Vec<RankSet>, empirical: &Vec<Vec<u32>>) -> (r: Vec<(bool, usize, usize)>)
    requires
        forall|i: int| 0 <= i < all_permutables@.len() ==> (#[trigger] all_permutables@[i]).wf(),
        forall|i: int| 0 <= i < empirical@.len() ==> (#[trigger] empirical@[i])@.no_duplicates(),
    ensures
        r@.len() == if all_permutables@.len() <= empirical@.len() { all_permutables@.len() } else { empirical@.len() },
        forall|i: int| 0 <= i < r@.len() ==> {
            &&& (#[trigger] r@[i]).0 == forall|a: int| 0 <= a < empirical@[i]@.len() ==> all_permutables@[i]@.contains(#[trigger] empirical@[i]@[a] as int)
            &&& r@[i].1 == empirical@[i]@.len()
            &&& r@[i].2 == all_permutables@[i]@.len()
        },
{
    let n = if all_permutables.len() <= empirical.len() { all_permutables.len() } else { empirical.len() };
    let mut r: Vec<(bool, usize, usize)> = Vec::new();
    let mut i: usize = 0;
    while i < n
        invariant
            n <= all_permutables@.len(),
            n <= empirical@.len(),
            i <= n,
            r@.len() == i,
            forall|q: int| 0 <= q < all_permutables@.len() ==> (#[trigger] all_permutables@[q]).wf(),
            forall|q: int| 0 <= q < i ==> {
                &&& (#[trigger] r@[q]).0 == forall|a: int| 0 <= a < empirical@[q]@.len() ==> all_permutables@[q]@.contains(#[trigger] empirical@[q]@[a] as int)
                &&& r@[q].1 == empirical@[q]@.len()
                &&& r@[q].2 == all_permutables@[q]@.len()
            },
        decreases n - i,
    {
        let upper = &all_permutables[i];
        let lower = &empirical[i];
        let mut ok = true;
        let mut a: usize = 0;
        while a < lower.len()
            invariant
                a <= lower@.len(),
                ok == forall|b: int| 0 <= b < a ==> upper@.contains(#[trigger] lower@[b] as int),
            decreases lower@.len() - a,
        {
            if !upper.contains(lower[a]) {
                ok = false;
            }
            a += 1;
        }
        r.push((ok, lower.len(), upper.len()));
        i += 1;
    }
    r
}

/// The event at `a` was observed before the event at `b`, or at the same rank and earlier in the
/// original order.
pub open spec fn observed_before(og2cur: Seq<CurRank>, a: int, b: int) -> bool {
    og2cur[a].0 < og2cur[b].0 || (og2cur[a].0 == og2cur[b].0 && a < b)
}

/// The original positions of the observed events (those whose rank is below `sentinel`), in the
/// order in which they were observed; events observed at the same rank keep their original order.
pub fn observed_order(og2cur: &Vec<CurRank>, sentinel: u32) -> (r: Vec<usize>)
    ensures
        forall|i: int, j: int| 0 <= i < j < r@.len() ==> observed_before(og2cur@, r@[i] as int, r@[j] as int),
        forall|og: int| (exists|k: int| 0 <= k < r@.len() && r@[k] == og) <==> (0 <= og < og2cur@.len()
            && og2cur@[og].0 < sentinel),
{
    let mut r: Vec<usize> = Vec::new();
    let mut og: usize = 0;
    while og < og2cur.len()
        invariant
            og <= og2cur@.len(),
            forall|k: int| 0 <= k < r@.len() ==> r@[k] < og,
            forall|i: int, j: int| 0 <= i < j < r@.len() ==> observed_before(og2cur@, r@[i] as int, r@[j] as int),
            forall|x: int| (exists|k: int| 0 <= k < r@.len() && r@[k] == x) <==> (0 <= x < og && og2cur@[x].0 < sentinel),
        decreases og2cur@.len() - og,
    {
        let c = og2cur[og].0;
        if c < sentinel {
            let mut p: usize = r.len();
            while p > 0 && og2cur[r[p - 1]].0 > c
                invariant
                    p <= r@.len(),
                    og < og2cur@.len(),
                    c == og2cur@[og as int].0,
                    forall|k: int| 0 <= k < r@.len() ==> r@[k] < og,
                    forall|q: int| p <= q < r@.len() ==> og2cur@[r@[q] as int].0 > c,
                decreases p,
            {
                p = p - 1;
            }
            let ghost before = r@;
            r.insert(p, og);
            proof {
                assert forall|i: int, j: int| 0 <= i < j < r@.len() implies observed_before(og2cur@, r@[i] as int, r@[j] as int) by {
                    if j < p {
                        assert(r@[i] == before[i] && r@[j] == before[j]);
                    } else if j == p {
                        assert(r@[i] == before[i]);
                        if p > 0 {
                            assert(og2cur@[before[p - 1] as int].0 <= c);
                            if i < p - 1 {
                                assert(observed_before(og2cur@, before[i] as int, before[p - 1] as int));
                            }
                        }
                    } else if i < p {
                        assert(r@[i] == before[i] && r@[j] == before[j - 1]);
                    } else if i == p {
                        assert(r@[j] == before[j - 1]);
                    } else {
                        assert(r@[i] == before[i - 1] && r@[j] == before[j - 1]);
                    }
                }
                assert forall|x: int| (exists|k: int| 0 <= k < r@.len() && r@[k] == x) <==> (0 <= x < og + 1 && og2cur@[x].0 < sentinel) by {
                    if 0 <= x < og && og2cur@[x].0 < sentinel {
                        let k = choose|k: int| 0 <= k < before.len() && before[k] == x;
                        if k < p {
                            assert(r@[k] == x);
                        } else {
                            assert(r@[k + 1] == x);
                        }
                    }
                    if x == og {
                        assert(r@[p as int] == x);
                    }
                    if exists|k: int| 0 <= k < r@.len() && r@[k] == x {
                        let k = choose|k: int| 0 <= k < r@.len() && r@[k] == x;
                        if k < p {
                            assert(before[k] == x);
                        } else if k > p {
                            assert(before[k - 1] == x);
                        }
                    }
                }
            }
        } else {
            proof {
                assert forall|x: int| (exists|k: int| 0 <= k < r@.len() && r@[k] == x) <==> (0 <= x < og + 1 && og2cur@[x].0 < sentinel) by {
                    if exists|k: int| 0 <= k < r@.len() && r@[k] == x {
                        let k = choose|k: int| 0 <= k < r@.len() && r@[k] == x;
                        assert(r@[k] < og);
                    }
                }
            }
        }
        og += 1;
    }
    r
}

} // verus!
