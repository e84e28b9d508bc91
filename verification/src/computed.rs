//! The precedences computed for a collection of tests: for each test, its trace and, for each
//! event, the earlier events that may appear after it.
use vstd::prelude::*;
use crate::conninfo::ConnInfo;
use crate::rankset::RankSet;
use crate::relation::{ConcEvent, OgRank};
use crate::text::{chars_eq, chars_of};
use crate::trace::TraceRecord;

verus! {

broadcast use vstd::seq_lib::group_seq_properties;

/// A test's trace, the permutable predecessors of each of its events, and its connection
/// information.
pub type OgtraceOgtracePrecs = (Vec<TraceRecord>, Vec<Vec<OgRank>>, ConnInfo);

/// A map from test name to the test's trace and, for each event of the trace, the earlier events
/// that can appear later.
pub struct ComputedPrecedences(pub Vec<(String, OgtraceOgtracePrecs)>);

impl Default for ComputedPrecedences {
    fn default() -> (r: Self)
        ensures
            r.0@.len() == 0,
    {
        ComputedPrecedences(Vec::new())
    }
}

/// The ranks are in increasing order, ties allowed.
pub open spec fn ranks_sorted(s: Seq<OgRank>) -> bool {
    forall|i: int, j: int| 0 <= i < j < s.len() ==> s[i].0 <= s[j].0
}

/// `members` lists the members of `s` in increasing order.
pub open spec fn enumerates(members: Seq<u32>, s: Set<int>) -> bool {
    &&& forall|a: int, b: int| 0 <= a < b < members.len() ==> members[a] < members[b]
    &&& forall|x: int| s.contains(x) <==> exists|a: int| 0 <= a < members.len() && members[a] == x
}

/// The original ranks of the events at the given positions of the elaborated trace.
pub open spec fn ogranks_at(etrace: Seq<ConcEvent>, positions: Seq<u32>) -> Seq<OgRank> {
    positions.map_values(|p: u32| etrace[p as int].ogrank)
}

/// `f` holds, in increasing order, the original ranks of the events of `etrace` whose positions
/// make up `s`.
pub open spec fn ranks_of_set(f: Seq<OgRank>, etrace: Seq<ConcEvent>, s: Set<int>) -> bool {
    &&& ranks_sorted(f)
    &&& exists|members: Seq<u32>| #[trigger] enumerates(members, s) && f.to_multiset() == ogranks_at(etrace, members).to_multiset()
}

/// Sorts ranks in increasing order.
fn sort_ogranks(v: Vec<OgRank>) -> (r: Vec<OgRank>)
    ensures
        ranks_sorted(r@),
        r@.to_multiset() == v@.to_multiset(),
{
    let mut r: Vec<OgRank> = Vec::new();
    let mut i: usize = 0;
    while i < v.len()
        invariant
            i <= v.len(),
            ranks_sorted(r@),
            r@.to_multiset() == v@.take(i as int).to_multiset(),
        decreases v.len() - i,
    {
        let x = v[i];
        let mut p: usize = r.len();
        while p > 0 && r[p - 1].0 > x.0
            invariant
                p <= r.len(),
                forall|q: int| p <= q < r.len() ==> r@[q].0 > x.0,
            decreases p,
        {
            p = p - 1;
        }
        let ghost before = r@;
        r.insert(p, x);
        proof {
            vstd::seq_lib::to_multiset_insert(before, p as int, x);
            assert(v@.take(i + 1) =~= v@.take(i as int).push(x));
            assert forall|a: int, b: int| 0 <= a < b < r@.len() implies r@[a].0 <= r@[b].0 by {
                if b < p {
                    assert(r@[a] == before[a] && r@[b] == before[b]);
                } else if b == p {
                    assert(r@[a] == before[a]);
                    if p > 0 {
                        assert(before[a].0 <= before[p - 1].0 || a == p - 1);
                    }
                } else if a < p {
                    assert(r@[a] == before[a] && r@[b] == before[b - 1]);
                } else if a == p {
                    assert(r@[b] == before[b - 1]);
                } else {
                    assert(r@[a] == before[a - 1] && r@[b] == before[b - 1]);
                }
            }
        }
        i = i + 1;
    }
    assert(v@.take(v.len() as int) =~= v@);
    r
}

fn str_eq(a: &str, b: &str) -> (r: bool)
    ensures
        r == (a@ == b@),
{
    let x = chars_of(a);
    let y = chars_of(b);
    chars_eq(x.as_slice(), y.as_slice())
}

/// The position of the first entry named `name`.
pub open spec fn first_named(entries: Seq<(String, OgtraceOgtracePrecs)>, name: Seq<char>, k: int) -> bool {
    0 <= k < entries.len() && entries[k].0@ == name && forall|j: int| 0 <= j < k ==> #[trigger] entries[j].0@ != name
}

/// The total number of permutable predecessors.
pub open spec fn total_len(s: Seq<Vec<OgRank>>) -> nat
    decreases s.len(),
{
    if s.len() == 0 {
        0
    } else {
        total_len(s.drop_last()) + s.last()@.len()
    }
}

impl ComputedPrecedences {
    /// Records a test: for each event of the elaborated trace (paired with the permutable sets
    /// in order), the original ranks of its permutable predecessors, in increasing order.
    #[verifier::spinoff_prover]
    pub fn add_test(
        &mut self,
        test_name: String,
        ogtrace: Vec<TraceRecord>,
        etrace: Vec<ConcEvent>,
        permutables: Vec<RankSet>,
        conninfo: ConnInfo,
    )
        requires
            forall|k: int| 0 <= k < permutables.len() ==> (#[trigger] permutables[k]).wf() && permutables[k].universe() <= u32::MAX + 1,
            (if permutables.len() <= etrace.len() { permutables.len() } else { etrace.len() }) == ogtrace.len(),
            forall|k: int, x: int| 0 <= k < permutables.len() && k < etrace.len() && #[trigger] permutables[k]@.contains(x) ==> 0 <= x < etrace.len() && etrace@[x].ogrank.0 < k,
        ensures
            final(self).0@.len() == old(self).0@.len() + 1,
            final(self).0@.take(old(self).0@.len() as int) == old(self).0@,
            final(self).0@.last().0 == test_name,
            final(self).0@.last().1.0 == ogtrace,
            final(self).0@.last().1.2 == conninfo,
            final(self).0@.last().1.1.len() == ogtrace.len(),
            forall|k: int| 0 <= k < ogtrace.len() ==> ranks_of_set(#[trigger] final(self).0@.last().1.1@[k]@, etrace@, permutables[k]@),
    {
        let n: usize = if permutables.len() <= etrace.len() { permutables.len() } else { etrace.len() };
        let mut filtered: Vec<Vec<OgRank>> = Vec::new();
        let mut k: usize = 0;
        while k < n
            invariant
                k <= n,
                n <= permutables.len(),
                n <= etrace.len(),
                n == ogtrace.len(),
                filtered.len() == k,
                forall|q: int| 0 <= q < permutables.len() ==> (#[trigger] permutables[q]).wf() && permutables[q].universe() <= u32::MAX + 1,
                forall|q: int, x: int| 0 <= q < permutables.len() && q < etrace.len() && #[trigger] permutables[q]@.contains(x) ==> 0 <= x < etrace.len() && etrace@[x].ogrank.0 < q,
                forall|q: int| 0 <= q < k ==> ranks_of_set(#[trigger] filtered@[q]@, etrace@, permutables[q]@),
            decreases n - k,
        {
            let members = permutables[k].to_sorted_vec();
            let mut collected: Vec<OgRank> = Vec::new();
            let mut j: usize = 0;
            while j < members.len()
                invariant
                    j <= members.len(),
                    k < n <= etrace.len(),
                    k < permutables.len(),
                    forall|x: int| permutables[k as int]@.contains(x) <==> (exists|a: int| 0 <= a < members@.len() && members@[a] == x),
                    forall|q: int, x: int| 0 <= q < permutables.len() && q < etrace.len() && #[trigger] permutables[q]@.contains(x) ==> 0 <= x < etrace.len() && etrace@[x].ogrank.0 < q,
                    collected@ == ogranks_at(etrace@, members@.take(j as int)),
                decreases members.len() - j,
            {
                let m = members[j];
                assert(permutables[k as int]@.contains(m as int));
                collected.push(etrace[m as usize].ogrank);
                assert(members@.take(j + 1) =~= members@.take(j as int).push(m));
                assert(collected@ =~= ogranks_at(etrace@, members@.take(j + 1)));
                j = j + 1;
            }
            assert(members@.take(members.len() as int) =~= members@);
            let sorted = sort_ogranks(collected);
            let ghost before = filtered@;
            filtered.push(sorted);
            assert(enumerates(members@, permutables[k as int]@));
            assert(ranks_of_set(sorted@, etrace@, permutables[k as int]@));
            assert forall|q: int| 0 <= q < k + 1 implies ranks_of_set(#[trigger] filtered@[q]@, etrace@, permutables[q]@) by {
                if q < k {
                    assert(filtered@[q] == before[q]);
                } else {
                    assert(filtered@[q]@ == sorted@);
                }
            }
            k = k + 1;
        }
        let ghost fv = filtered@;
        assert(fv.len() == ogtrace.len());
        self.0.push((test_name, (ogtrace, filtered, conninfo)));
        assert(self.0@.last().1.1@ == fv);
        assert forall|k: int| 0 <= k < fv.len() implies ranks_of_set(#[trigger] self.0@.last().1.1@[k]@, etrace@, permutables[k]@) by {
            assert(self.0@.last().1.1@[k] == fv[k]);
        }
        assert(self.0@.take(self.0@.len() - 1) =~= old(self).0@);
    }

    /// The entry of the test named `test_name`, the first one if there are several.
    pub fn get(&self, test_name: &str) -> (r: &OgtraceOgtracePrecs)
        requires
            exists|k: int| 0 <= k < self.0@.len() && #[trigger] self.0@[k].0@ == test_name@,
        ensures
            exists|k: int| first_named(self.0@, test_name@, k) && *r == self.0@[k].1,
    {
        let mut k: usize = 0;
        while k < self.0.len()
            invariant
                k <= self.0.len(),
                exists|q: int| 0 <= q < self.0@.len() && #[trigger] self.0@[q].0@ == test_name@,
                forall|j: int| 0 <= j < k ==> #[trigger] self.0@[j].0@ != test_name@,
            decreases self.0.len() - k,
        {
            if str_eq(self.0[k].0.as_str(), test_name) {
                assert(first_named(self.0@, test_name@, k as int));
                return &self.0[k].1;
            }
            k = k + 1;
        }
        proof {
            let q = choose|q: int| 0 <= q < self.0@.len() && #[trigger] self.0@[q].0@ == test_name@;
            assert(self.0@[q].0@ != test_name@);
        }
        &self.0[0].1
    }

    /// The number of permutable pairs of the test named `test_name`.
    pub fn n_permutables(&self, test_name: &str) -> (r: usize)
        requires
            exists|k: int| 0 <= k < self.0@.len() && #[trigger] self.0@[k].0@ == test_name@,
            forall|k: int| #[trigger] first_named(self.0@, test_name@, k) ==> total_len(self.0@[k].1.1@) <= usize::MAX,
        ensures
            exists|k: int| first_named(self.0@, test_name@, k) && r == total_len(self.0@[k].1.1@),
    {
        let entry = self.get(test_name);
        let lists = &entry.1;
        let mut total: usize = 0;
        let mut i: usize = 0;
        proof {
            let k = choose|k: int| first_named(self.0@, test_name@, k) && *entry == self.0@[k].1;
            assert(total_len(self.0@[k].1.1@) <= usize::MAX);
        }
        while i < lists.len()
            invariant
                i <= lists.len(),
                total == total_len(lists@.take(i as int)),
                total_len(lists@) <= usize::MAX,
            decreases lists.len() - i,
        {
            assert(lists@.take(i + 1).drop_last() =~= lists@.take(i as int));
            proof {
                lemma_total_len_prefix(lists@, i + 1);
            }
            total = total + lists[i].len();
            i = i + 1;
        }
        assert(lists@.take(lists.len() as int) =~= lists@);
        total
    }

    /// The number of pairs of events of the test named `test_name`: the most permutable pairs
    /// there can be.
    pub fn max_n_permutables(&self, test_name: &str) -> (r: usize)
        requires
            exists|k: int| 0 <= k < self.0@.len() && #[trigger] self.0@[k].0@ == test_name@,
            forall|k: int| #[trigger] first_named(self.0@, test_name@, k) ==> {
                let len = self.0@[k].1.1@.len();
                len >= 1 && len * (len - 1) <= usize::MAX
            },
        ensures
            exists|k: int| first_named(self.0@, test_name@, k) && r == self.0@[k].1.1@.len() * (self.0@[k].1.1@.len() - 1) / 2,
    {
        let entry = self.get(test_name);
        let len = entry.1.len();
        proof {
            let k = choose|k: int| first_named(self.0@, test_name@, k) && *entry == self.0@[k].1;
            assert(len >= 1 && len * (len - 1) <= usize::MAX);
        }
        len * (len - 1) / 2
    }
}

/// Distinct positions below `i` are at most `i`.
proof fn lemma_distinct_below(s: Seq<OgRank>, i: int)
    requires
        0 <= i,
        forall|a: int, b: int| 0 <= a < b < s.len() ==> #[trigger] s[a] != #[trigger] s[b],
        forall|a: int| 0 <= a < s.len() ==> (#[trigger] s[a]).0 < i,
    ensures
        s.len() <= i,
{
    let t = s.map_values(|o: OgRank| o.0 as int);
    assert(t.no_duplicates()) by {
        assert forall|a: int, b: int| 0 <= a < t.len() && 0 <= b < t.len() && a != b implies t[a] != t[b] by {
            if a < b {
                assert(s[a] != s[b]);
            } else {
                assert(s[b] != s[a]);
            }
        }
    }
    t.unique_seq_to_set();
    vstd::set_lib::lemma_int_range(0, i);
    assert(t.to_set().subset_of(vstd::set_lib::set_int_range(0, i))) by {
        assert forall|x: int| t.to_set().contains(x) implies vstd::set_lib::set_int_range(0, i).contains(x) by {
            let a = choose|a: int| 0 <= a < t.len() && t[a] == x;
            assert(s[a].0 < i);
        }
    }
    vstd::set_lib::lemma_len_subset(t.to_set(), vstd::set_lib::set_int_range(0, i));
}

/// Where the permutable predecessors of each event are distinct events that come before it,
/// there are at most as many of them in all as there are pairs of events: the count that
/// `n_permutables` gives is at most the one that `max_n_permutables` gives.
pub proof fn lemma_permutables_at_most_pairs(lists: Seq<Vec<OgRank>>)
    requires
        forall|i: int, a: int, b: int|
            0 <= i < lists.len() && 0 <= a < b < lists[i]@.len() ==> #[trigger] lists[i]@[a] != #[trigger] lists[i]@[b],
        forall|i: int, a: int| 0 <= i < lists.len() && 0 <= a < lists[i]@.len() ==> (#[trigger] lists[i]@[a]).0 < i,
    ensures
        total_len(lists) <= lists.len() * (lists.len() - 1) / 2,
    decreases lists.len(),
{
    let n = lists.len() as int;
    if n > 0 {
        let init = lists.drop_last();
        assert forall|i: int, a: int, b: int|
            0 <= i < init.len() && 0 <= a < b < init[i]@.len() implies #[trigger] init[i]@[a] != #[trigger] init[i]@[b] by {
            assert(init[i] == lists[i]);
        }
        assert forall|i: int, a: int| 0 <= i < init.len() && 0 <= a < init[i]@.len() implies (#[trigger] init[i]@[a]).0 < i by {
            assert(init[i] == lists[i]);
        }
        lemma_permutables_at_most_pairs(init);
        let last = lists[n - 1]@;
        assert forall|a: int, b: int| 0 <= a < b < last.len() implies #[trigger] last[a] != #[trigger] last[b] by {
            assert(lists[n - 1]@[a] != lists[n - 1]@[b]);
        }
        assert forall|a: int| 0 <= a < last.len() implies (#[trigger] last[a]).0 < n - 1 by {
            assert(lists[n - 1]@[a].0 < n - 1);
        }
        lemma_distinct_below(last, n - 1);
        let t0 = total_len(init) as int;
        assert(total_len(lists) == t0 + last.len());
        assert(t0 + last.len() <= n * (n - 1) / 2) by (nonlinear_arith)
            requires
                t0 <= (n - 1) * (n - 2) / 2,
                last.len() <= n - 1,
                n >= 1,
        ;
    }
}

proof fn lemma_total_len_prefix(s: Seq<Vec<OgRank>>, i: int)
    requires
        0 <= i <= s.len(),
    ensures
        total_len(s.take(i)) <= total_len(s),
    decreases s.len() - i,
{
    if i < s.len() {
        lemma_total_len_prefix(s, i + 1);
        assert(s.take(i + 1).drop_last() =~= s.take(i));
    } else {
        assert(s.take(i) =~= s);
    }
}

} // verus!
