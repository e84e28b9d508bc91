//! Sets of positions in a trace, stored as bitmaps over a fixed universe `0..universe`.
use vstd::prelude::*;

verus! {

/// The number of `true` entries of `s`.
pub open spec fn count_true(s: Seq<bool>) -> nat
    decreases s.len(),
{
    if s.len() == 0 {
        0
    } else {
        count_true(s.drop_last()) + (if s.last() {
            1nat
        } else {
            0nat
        })
    }
}

/// Changing one entry changes the count by the difference.
pub proof fn lemma_count_update(s: Seq<bool>, i: int, v: bool)
    requires
        0 <= i < s.len(),
    ensures
        count_true(s.update(i, v)) + (if s[i] {
            1int
        } else {
            0int
        }) == count_true(s) + (if v {
            1int
        } else {
            0int
        }),
    decreases s.len(),
{
    if i < s.len() - 1 {
        assert(s.update(i, v).drop_last() =~= s.drop_last().update(i, v));
        lemma_count_update(s.drop_last(), i, v);
    } else {
        assert(s.update(i, v).drop_last() =~= s.drop_last());
    }
}

/// Appending an entry adds it to the count.
pub proof fn lemma_count_push(s: Seq<bool>, v: bool)
    ensures
        count_true(s.push(v)) == count_true(s) + (if v {
            1nat
        } else {
            0nat
        }),
{
    assert(s.push(v).drop_last() =~= s);
}

/// No more entries are true than there are entries.
pub proof fn lemma_count_bound(s: Seq<bool>)
    ensures
        count_true(s) <= s.len(),
    decreases s.len(),
{
    if s.len() > 0 {
        lemma_count_bound(s.drop_last());
    }
}

/// A set of ranks below `universe`.
pub struct RankSet {
    members: Vec<bool>,
    count: usize,
}

impl View for RankSet {
    type V = Set<int>;

    closed spec fn view(&self) -> Set<int> {
        Set::new(|x: int| 0 <= x < self.members@.len() && self.members@[x])
    }
}

impl RankSet {
    /// The ranks that the set may hold are `0..universe`.
    pub closed spec fn universe(&self) -> nat {
        self.members@.len()
    }

    pub closed spec fn wf(&self) -> bool {
        self.count == count_true(self.members@)
    }

    /// Every member is below the universe.
    pub proof fn lemma_bounded(&self)
        ensures
            forall|x: int| #[trigger] self@.contains(x) ==> 0 <= x < self.universe(),
    {
    }

    /// The empty set over `0..universe`.
    pub fn new(universe: usize) -> (r: RankSet)
        ensures
            r.wf(),
            r@ == Set::<int>::empty(),
            r.universe() == universe,
    {
        let mut members: Vec<bool> = Vec::new();
        let mut i: usize = 0;
        while i < universe
            invariant
                i <= universe,
                members@.len() == i,
                forall|j: int| 0 <= j < i ==> !members@[j],
                count_true(members@) == 0,
            decreases universe - i,
        {
            proof {
                lemma_count_push(members@, false);
            }
            members.push(false);
            i += 1;
        }
        let r = RankSet { members, count: 0 };
        assert(r@ =~= Set::<int>::empty());
        r
    }

    /// The set of all ranks below `universe`.
    pub fn full(universe: usize) -> (r: RankSet)
        ensures
            r.wf(),
            r@ == Set::new(|x: int| 0 <= x < universe),
            r.universe() == universe,
    {
        let mut members: Vec<bool> = Vec::new();
        let mut i: usize = 0;
        while i < universe
            invariant
                i <= universe,
                members@.len() == i,
                forall|j: int| 0 <= j < i ==> members@[j],
                count_true(members@) == i,
            decreases universe - i,
        {
            proof {
                lemma_count_push(members@, true);
            }
            members.push(true);
            i += 1;
        }
        let r = RankSet { members, count: universe };
        assert(r@ =~= Set::new(|x: int| 0 <= x < universe));
        r
    }

    /// The number of ranks that the set may hold.
    pub fn universe_len(&self) -> (r: usize)
        ensures
            r == self.universe(),
    {
        self.members.len()
    }

    pub fn contains(&self, x: u32) -> (r: bool)
        ensures
            r == self@.contains(x as int),
    {
        (x as usize) < self.members.len() && self.members[x as usize]
    }

    pub fn insert(&mut self, x: u32)
        requires
            old(self).wf(),
            (x as int) < old(self).universe(),
        ensures
            final(self).wf(),
            final(self)@ == old(self)@.insert(x as int),
            final(self).universe() == old(self).universe(),
    {
        let i = x as usize;
        let _len = self.members.len();
        if !self.members[i] {
            proof {
                lemma_count_update(self.members@, i as int, true);
                lemma_count_bound(self.members@.update(i as int, true));
            }
            self.members.set(i, true);
            self.count = self.count + 1;
        }
        assert(self@ =~= old(self)@.insert(x as int));
    }

    pub fn remove(&mut self, x: u32)
        requires
            old(self).wf(),
        ensures
            final(self).wf(),
            final(self)@ == old(self)@.remove(x as int),
            final(self).universe() == old(self).universe(),
    {
        let i = x as usize;
        if i < self.members.len() && self.members[i] {
            proof {
                lemma_count_update(self.members@, i as int, false);
            }
            self.members.set(i, false);
            self.count = self.count - 1;
        }
        assert(self@ =~= old(self)@.remove(x as int));
    }

    /// The number of members.
    pub fn len(&self) -> (r: usize)
        requires
            self.wf(),
        ensures
            r == self@.len(),
    {
        proof {
            self.lemma_len();
        }
        self.count
    }

    pub fn is_empty(&self) -> (r: bool)
        requires
            self.wf(),
        ensures
            r == (self@.len() == 0),
    {
        proof {
            self.lemma_len();
        }
        self.count == 0
    }

    /// There are no more members than ranks in the universe.
    pub proof fn lemma_len_bound(&self)
        requires
            self.wf(),
        ensures
            self@.len() <= self.universe(),
    {
        self.lemma_len();
        lemma_count_bound(self.members@);
    }

    /// A well-formed set is finite.
    pub proof fn lemma_finite(&self)
        requires
            self.wf(),
        ensures
            self@.finite(),
    {
        self.lemma_len();
    }

    proof fn lemma_len(&self)
        requires
            self.wf(),
        ensures
            self@.finite(),
            self@.len() == self.count,
    {
        lemma_set_of_bits(self.members@);
    }

    /// Adds every member of `other`, whose universe is no larger.
    pub fn union_with(&mut self, other: &RankSet)
        requires
            old(self).wf(),
            other.universe() <= old(self).universe() <= u32::MAX,
        ensures
            final(self).wf(),
            final(self)@ == old(self)@.union(other@),
            final(self).universe() == old(self).universe(),
    {
        let n = other.members.len();
        let mut x: usize = 0;
        while x < n
            invariant
                x <= n == other.members@.len() <= self.universe() <= u32::MAX,
                self.wf(),
                self.universe() == old(self).universe(),
                forall|y: int| #[trigger] self@.contains(y) == (old(self)@.contains(y) || (y < x && other@.contains(y))),
            decreases n - x,
        {
            if other.members[x] {
                self.insert(x as u32);
            }
            x += 1;
        }
        assert(self@ =~= old(self)@.union(other@));
    }

    /// A copy of the set over a universe of at least the same size.
    pub fn copy_with_universe(&self, universe: usize) -> (r: RankSet)
        requires
            self.wf(),
            universe >= self.universe(),
        ensures
            r.wf(),
            r@ == self@,
            r.universe() == universe,
    {
        let mut members: Vec<bool> = Vec::new();
        let mut i: usize = 0;
        while i < universe
            invariant
                i <= universe,
                universe >= self.members@.len(),
                members@.len() == i,
                forall|j: int|
                    0 <= j < i ==> members@[j] == (j < self.members@.len() && self.members@[j]),
                count_true(members@) == count_true(self.members@.take(
                    if i <= self.members@.len() {
                        i as int
                    } else {
                        self.members@.len() as int
                    },
                )),
            decreases universe - i,
        {
            let b = i < self.members.len() && self.members[i];
            proof {
                lemma_count_push(members@, b);
                if i < self.members@.len() {
                    assert(self.members@.take(i + 1).drop_last() =~= self.members@.take(i as int));
                }
            }
            members.push(b);
            i += 1;
        }
        proof {
            assert(self.members@.take(self.members@.len() as int) =~= self.members@);
        }
        let r = RankSet { members, count: self.count };
        assert(r@ =~= self@);
        r
    }

    /// The members in ascending order.
    pub fn to_sorted_vec(&self) -> (r: Vec<u32>)
        requires
            self.universe() <= u32::MAX + 1,
        ensures
            forall|i: int, j: int| 0 <= i < j < r@.len() ==> r@[i] < r@[j],
            forall|x: int|
                self@.contains(x) <==> (exists|a: int| 0 <= a < r@.len() && r@[a] == x),
    {
        let mut r: Vec<u32> = Vec::new();
        let mut i: usize = 0;
        while i < self.members.len()
            invariant
                i <= self.members@.len(),
                self.members@.len() <= u32::MAX + 1,
                forall|a: int, b: int| 0 <= a < b < r@.len() ==> r@[a] < r@[b],
                forall|a: int| 0 <= a < r@.len() ==> r@[a] < i,
                forall|x: int|
                    0 <= x < i ==> (self.members@[x] <==> (exists|a: int|
                        0 <= a < r@.len() && r@[a] == x)),
                forall|a: int| 0 <= a < r@.len() ==> self.members@[r@[a] as int],
            decreases self.members@.len() - i,
        {
            let ghost old_r = r@;
            if self.members[i] {
                r.push(i as u32);
                assert(r@[r@.len() - 1] == i);
            }
            proof {
                assert forall|x: int| 0 <= x < i + 1 implies (self.members@[x] <==> (exists|a: int|
                    0 <= a < r@.len() && r@[a] == x)) by {
                    if x < i {
                        if self.members@[x] {
                            let a = choose|a: int| 0 <= a < old_r.len() && old_r[a] == x;
                            assert(r@[a] == x);
                        }
                        if exists|a: int| 0 <= a < r@.len() && r@[a] == x {
                            let a = choose|a: int| 0 <= a < r@.len() && r@[a] == x;
                            assert(self.members@[r@[a] as int]);
                        }
                    } else {
                        if exists|a: int| 0 <= a < r@.len() && r@[a] == x {
                            let a = choose|a: int| 0 <= a < r@.len() && r@[a] == x;
                            assert(self.members@[r@[a] as int]);
                        }
                    }
                }
            }
            i += 1;
        }
        proof {
            assert forall|x: int|
                self@.contains(x) <==> (exists|a: int| 0 <= a < r@.len() && r@[a] == x) by {
                if exists|a: int| 0 <= a < r@.len() && r@[a] == x {
                    let a = choose|a: int| 0 <= a < r@.len() && r@[a] == x;
                    assert(self.members@[r@[a] as int]);
                }
            }
        }
        r
    }
}

/// The set of positions of `true` entries is finite and has `count_true` elements.
pub proof fn lemma_set_of_bits(s: Seq<bool>)
    ensures
        Set::new(|x: int| 0 <= x < s.len() && s[x]).finite(),
        Set::new(|x: int| 0 <= x < s.len() && s[x]).len() == count_true(s),
    decreases s.len(),
{
    let st = Set::new(|x: int| 0 <= x < s.len() && s[x]);
    if s.len() == 0 {
        assert(st =~= Set::<int>::empty());
    } else {
        let p = s.drop_last();
        let sp = Set::new(|x: int| 0 <= x < p.len() && p[x]);
        lemma_set_of_bits(p);
        if s.last() {
            assert(st =~= sp.insert(s.len() - 1));
        } else {
            assert(st =~= sp);
        }
    }
}

} // verus!
