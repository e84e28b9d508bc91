//! Enumeration of predicates by fuel: the combinations of smaller predicates that make up a
//! larger one, and the three-valued abstraction that prunes predicates that cannot hold.
use vstd::prelude::*;
use crate::relation::{unary_eq, UnaryRelation};

verus! {

/// Values that can be copied exactly.
pub trait Duplicate: Sized + View {
    /// What a copy keeps besides the view.
    spec fn dup_inv(&self) -> bool;

    fn duplicate(&self) -> (r: Self)
        ensures
            r@ == self@,
            self.dup_inv() ==> r.dup_inv(),
    ;
}

/// Every item of every vector keeps what a copy keeps.
pub open spec fn all_dup_inv<T: Duplicate>(v: Seq<Vec<T>>) -> bool {
    forall|i: int, j: int| 0 <= i < v.len() && 0 <= j < v[i].len() ==> (#[trigger] v[i][j]).dup_inv()
}

impl Duplicate for u32 {
    open spec fn dup_inv(&self) -> bool {
        true
    }

    fn duplicate(&self) -> (r: Self) {
        *self
    }
}

impl Duplicate for u64 {
    open spec fn dup_inv(&self) -> bool {
        true
    }

    fn duplicate(&self) -> (r: Self) {
        *self
    }
}

impl Duplicate for usize {
    open spec fn dup_inv(&self) -> bool {
        true
    }

    fn duplicate(&self) -> (r: Self) {
        *self
    }
}

/// The views of the items.
pub open spec fn item_views<T: View>(v: Seq<T>) -> Seq<T::V> {
    v.map_values(|e: T| e@)
}

/// A copy of a vector of copyable values.
pub fn duplicate_vec<T: Duplicate>(v: &Vec<T>) -> (r: Vec<T>)
    ensures
        item_views(r@) == item_views(v@),
        r.len() == v.len(),
        forall|i: int| 0 <= i < v.len() && (#[trigger] v[i]).dup_inv() ==> r[i].dup_inv(),
{
    let mut r: Vec<T> = Vec::new();
    let mut i: usize = 0;
    while i < v.len()
        invariant
            i <= v.len(),
            r.len() == i,
            item_views(r@) == item_views(v@.take(i as int)),
            forall|q: int| 0 <= q < i && (#[trigger] v[q]).dup_inv() ==> r[q].dup_inv(),
        decreases v.len() - i,
    {
        let x = v[i].duplicate();
        proof {
            lemma_item_views_push(r@, x);
            lemma_item_views_push(v@.take(i as int), v@[i as int]);
            assert(v@.take(i + 1) =~= v@.take(i as int).push(v@[i as int]));
        }
        r.push(x);
        i = i + 1;
    }
    assert(v@.take(v.len() as int) =~= v@);
    r
}

// ---------------------------------------------------------------------------------------------
// The three-valued booleans
// ---------------------------------------------------------------------------------------------

/// What a predicate may evaluate to: true, false, both (unknown), or neither (impossible).
#[derive(Debug, Clone, Copy, PartialEq, Eq, Structural)]
pub struct PowerBool {
    pub maybe_true: bool,
    pub maybe_false: bool,
}

/// The value that knows nothing.
pub open spec fn pb_top() -> PowerBool {
    PowerBool { maybe_true: true, maybe_false: true }
}

pub open spec fn pb_and(a: PowerBool, b: PowerBool) -> PowerBool {
    PowerBool { maybe_true: a.maybe_true && b.maybe_true, maybe_false: a.maybe_false && b.maybe_false }
}

pub open spec fn pb_or(a: PowerBool, b: PowerBool) -> PowerBool {
    PowerBool { maybe_true: a.maybe_true || b.maybe_true, maybe_false: a.maybe_false || b.maybe_false }
}

pub open spec fn pb_is_top(a: PowerBool) -> bool {
    a.maybe_true && a.maybe_false
}

pub open spec fn pb_is_true(a: PowerBool) -> bool {
    a.maybe_true && !a.maybe_false
}

pub open spec fn pb_is_false(a: PowerBool) -> bool {
    !a.maybe_true && a.maybe_false
}

pub open spec fn pb_uninhabitable(a: PowerBool) -> bool {
    !a.maybe_true && !a.maybe_false
}

/// The negation: a definite value is flipped; anything else is not known afterwards.
pub open spec fn pb_not(a: PowerBool) -> PowerBool {
    if pb_is_false(a) {
        PowerBool { maybe_true: true, maybe_false: false }
    } else if pb_is_true(a) {
        PowerBool { maybe_true: false, maybe_false: true }
    } else {
        pb_top()
    }
}

impl Default for PowerBool {
    fn default() -> (r: Self)
        ensures
            r == pb_top(),
    {
        PowerBool { maybe_true: true, maybe_false: true }
    }
}

impl PowerBool {
    pub fn and(&mut self, other: &Self)
        ensures
            *final(self) == pb_and(*old(self), *other),
    {
        self.maybe_true = self.maybe_true && other.maybe_true;
        self.maybe_false = self.maybe_false && other.maybe_false;
    }

    pub fn or(&mut self, other: &Self)
        ensures
            *final(self) == pb_or(*old(self), *other),
    {
        self.maybe_true = self.maybe_true || other.maybe_true;
        self.maybe_false = self.maybe_false || other.maybe_false;
    }

    pub fn not(&self) -> (r: Self)
        ensures
            r == pb_not(*self),
    {
        if self.is_false() {
            Self::new_true()
        } else if self.is_true() {
            Self::new_false()
        } else {
            Self::default()
        }
    }

    pub fn is_top(&self) -> (r: bool)
        ensures
            r == pb_is_top(*self),
    {
        self.maybe_true && self.maybe_false
    }

    pub fn is_true(&self) -> (r: bool)
        ensures
            r == pb_is_true(*self),
    {
        self.maybe_true && !self.maybe_false
    }

    pub fn is_false(&self) -> (r: bool)
        ensures
            r == pb_is_false(*self),
    {
        !self.maybe_true && self.maybe_false
    }

    pub fn new_true() -> (r: Self)
        ensures
            r.maybe_true && !r.maybe_false,
    {
        Self { maybe_true: true, maybe_false: false }
    }

    pub fn new_false() -> (r: Self)
        ensures
            !r.maybe_true && r.maybe_false,
    {
        Self { maybe_true: false, maybe_false: true }
    }

    pub fn uninhabitable(&self) -> (r: bool)
        ensures
            r == pb_uninhabitable(*self),
    {
        !self.maybe_true && !self.maybe_false
    }
}

/// Negating twice gives back any value that is possible at all.
pub proof fn lemma_pb_not_not(a: PowerBool)
    requires
        !pb_uninhabitable(a),
    ensures
        pb_not(pb_not(a)) == a,
{
}

/// Conjunction with the unknown value changes nothing; disjunction with it gives it back.
pub proof fn lemma_pb_top_identities(a: PowerBool)
    ensures
        pb_and(pb_top(), a) == a,
        pb_and(a, pb_top()) == a,
        pb_or(pb_top(), a) == pb_top(),
        pb_or(a, pb_top()) == pb_top(),
{
}

/// Conjunction and disjunction are commutative and associative.
pub proof fn lemma_pb_lattice(a: PowerBool, b: PowerBool, c: PowerBool)
    ensures
        pb_and(a, b) == pb_and(b, a),
        pb_or(a, b) == pb_or(b, a),
        pb_and(pb_and(a, b), c) == pb_and(a, pb_and(b, c)),
        pb_or(pb_or(a, b), c) == pb_or(a, pb_or(b, c)),
{
}

// ---------------------------------------------------------------------------------------------
// Combinations of smaller predicates
// ---------------------------------------------------------------------------------------------

/// The fuels of the parts of a predicate of the given fuel: halving down to one.
pub open spec fn subfuels_of(fuel: nat) -> Seq<nat>
    decreases fuel,
{
    if fuel == 0 {
        seq![]
    } else {
        seq![fuel].add(subfuels_of(fuel / 2))
    }
}

proof fn lemma_subfuels_bounded(fuel: nat)
    ensures
        forall|i: int| 0 <= i < subfuels_of(fuel).len() ==> 1 <= #[trigger] subfuels_of(fuel)[i] <= fuel,
        forall|i: int, j: int| 0 <= i <= j < subfuels_of(fuel).len() ==> subfuels_of(fuel)[j] <= subfuels_of(fuel)[i],
        subfuels_of(fuel).len() <= fuel,
    decreases fuel,
{
    if fuel > 0 {
        lemma_subfuels_bounded(fuel / 2);
    }
}

fn subfuels(fuel: usize) -> (r: Vec<usize>)
    ensures
        r@.map_values(|x: usize| x as nat) == subfuels_of(fuel as nat),
{
    let mut r: Vec<usize> = Vec::new();
    let mut subfuel = fuel;
    while subfuel > 0
        invariant
            r@.map_values(|x: usize| x as nat) + subfuels_of(subfuel as nat) == subfuels_of(fuel as nat),
        decreases subfuel,
    {
        let ghost before = r@;
        r.push(subfuel);
        assert(r@.map_values(|x: usize| x as nat) =~= before.map_values(|x: usize| x as nat).push(subfuel as nat));
        let ghost old_sub = subfuel;
        subfuel = subfuel / 2;
        assert(subfuels_of(old_sub as nat) == seq![old_sub as nat].add(subfuels_of(subfuel as nat)));
        assert(r@.map_values(|x: usize| x as nat) + subfuels_of(subfuel as nat) =~= before.map_values(
            |x: usize| x as nat,
        ) + subfuels_of(old_sub as nat));
    }
    assert(subfuels_of(0) =~= Seq::<nat>::empty());
    assert(r@.map_values(|x: usize| x as nat) + subfuels_of(0) =~= r@.map_values(|x: usize| x as nat));
    r
}

/// How many items of the next list are appended to combination `k`: where the list is the one
/// the combinations started with, only the items before the last one appended.
pub open spec fn comb_limit(row_len: nat, idxs: Seq<nat>, restrict: bool, k: int) -> nat {
    if restrict && idxs[k] < row_len {
        idxs[k]
    } else {
        row_len
    }
}

pub open spec fn comb_block<T>(row: Seq<T>, combos: Seq<Seq<T>>, idxs: Seq<nat>, restrict: bool, k: int) -> Seq<Seq<T>> {
    Seq::new(comb_limit(row.len(), idxs, restrict, k), |j: int| combos[k].push(row[j]))
}

pub open spec fn idx_block(row_len: nat, idxs: Seq<nat>, restrict: bool, k: int) -> Seq<nat> {
    Seq::new(comb_limit(row_len, idxs, restrict, k), |j: int| j as nat)
}

/// The combinations after appending one item of the next list to each combination so far.
pub open spec fn extend_combinations<T>(row: Seq<T>, combos: Seq<Seq<T>>, idxs: Seq<nat>, restrict: bool) -> (Seq<Seq<T>>, Seq<nat>) {
    (
        Seq::new(combos.len(), |k: int| comb_block(row, combos, idxs, restrict, k)).flatten(),
        Seq::new(combos.len(), |k: int| idx_block(row.len(), idxs, restrict, k)).flatten(),
    )
}

/// The combinations that take one item from each of the lists named by `exact`, in order, as
/// built after the first `n` of them: the combinations, the index in its list of the item each
/// one ended with, and the list that the combinations started with.
pub open spec fn combinations_upto<T>(lists: Seq<Seq<T>>, exact: Seq<nat>, n: nat) -> (Seq<Seq<T>>, Seq<nat>, nat)
    decreases n,
{
    if n == 0 || n > exact.len() {
        (seq![], seq![], 0)
    } else {
        let prev = combinations_upto(lists, exact, (n - 1) as nat);
        let subfuel = exact[n - 1];
        let row = lists[subfuel as int];
        if prev.0.len() == 0 {
            (Seq::new(row.len(), |j: int| seq![row[j]]), Seq::new(row.len(), |j: int| j as nat), subfuel)
        } else {
            let next = extend_combinations(row, prev.0, prev.1, prev.2 == subfuel);
            (next.0, next.1, prev.2)
        }
    }
}

/// All combinations of items with fuels exactly `exact`.
pub open spec fn exact_combinations_of<T>(lists: Seq<Seq<T>>, exact: Seq<nat>) -> Seq<Seq<T>> {
    combinations_upto(lists, exact, exact.len()).0
}

pub open spec fn vec_views<T: View>(v: Seq<Vec<T>>) -> Seq<Seq<T::V>> {
    v.map_values(|x: Vec<T>| item_views(x@))
}

pub open spec fn nat_views(v: Seq<usize>) -> Seq<nat> {
    v.map_values(|x: usize| x as nat)
}

proof fn lemma_vec_views_push<T: View>(s: Seq<Vec<T>>, x: Vec<T>)
    ensures
        vec_views(s.push(x)) == vec_views(s).push(item_views(x@)),
{
    assert(vec_views(s.push(x)) =~= vec_views(s).push(item_views(x@)));
}

proof fn lemma_item_views_push<T: View>(s: Seq<T>, x: T)
    ensures
        item_views(s.push(x)) == item_views(s).push(x@),
{
    assert(item_views(s.push(x)) =~= item_views(s).push(x@));
}

proof fn lemma_vec_views_append<T: View>(a: Seq<Vec<T>>, b: Seq<Vec<T>>)
    ensures
        vec_views(a + b) == vec_views(a) + vec_views(b),
{
    assert(vec_views(a + b) =~= vec_views(a) + vec_views(b));
}

proof fn lemma_all_dup_inv_append<T: Duplicate>(a: Seq<Vec<T>>, b: Seq<Vec<T>>)
    requires
        all_dup_inv(a),
        all_dup_inv(b),
    ensures
        all_dup_inv(a + b),
{
    assert forall|i: int, j: int| 0 <= i < (a + b).len() && 0 <= j < (a + b)[i].len() implies (#[trigger] (a + b)[i][j]).dup_inv() by {
        if i < a.len() {
            assert((a + b)[i] == a[i]);
        } else {
            assert((a + b)[i] == b[i - a.len()]);
        }
    }
}

proof fn lemma_nat_views_push(s: Seq<usize>, x: usize)
    ensures
        nat_views(s.push(x)) == nat_views(s).push(x as nat),
{
    assert(nat_views(s.push(x)) =~= nat_views(s).push(x as nat));
}

fn exact_combinations<T: Duplicate>(lists_by_subfuel: &Vec<Vec<T>>, exact_subfuels: &Vec<usize>) -> (r: Vec<Vec<T>>)
    requires
        forall|i: int| 0 <= i < exact_subfuels.len() ==> #[trigger] exact_subfuels[i] < lists_by_subfuel.len(),
    ensures
        all_dup_inv(lists_by_subfuel@) ==> all_dup_inv(r@),
        vec_views(r@) == exact_combinations_of(vec_views(lists_by_subfuel@), nat_views(exact_subfuels@)),
{
    let ghost lists = vec_views(lists_by_subfuel@);
    let ghost exact = nat_views(exact_subfuels@);
    let mut combinations: Vec<Vec<T>> = Vec::new();
    let mut idxs: Vec<usize> = Vec::new();
    let mut last_subfuel: usize = 0;
    let mut n: usize = 0;
    while n < exact_subfuels.len()
        invariant
            n <= exact_subfuels.len(),
            lists == vec_views(lists_by_subfuel@),
            exact == nat_views(exact_subfuels@),
            forall|i: int| 0 <= i < exact_subfuels.len() ==> #[trigger] exact_subfuels[i] < lists_by_subfuel.len(),
            combinations_upto(lists, exact, n as nat) == (vec_views(combinations@), nat_views(idxs@), last_subfuel as nat),
            idxs.len() == combinations.len(),
            all_dup_inv(lists_by_subfuel@) ==> all_dup_inv(combinations@),
        decreases exact_subfuels.len() - n,
    {
        let subfuel = exact_subfuels[n];
        let row = &lists_by_subfuel[subfuel];
        let ghost rv = item_views(row@);
        assert(rv == lists[subfuel as int]);
        if combinations.len() == 0 {
            let mut c: Vec<Vec<T>> = Vec::new();
            let mut ix: Vec<usize> = Vec::new();
            let mut j: usize = 0;
            while j < row.len()
                invariant
                    j <= row.len(),
                    rv == item_views(row@),
                    row == lists_by_subfuel[subfuel as int],
                    subfuel < lists_by_subfuel.len(),
                    all_dup_inv(lists_by_subfuel@) ==> all_dup_inv(c@),
                    c.len() == j,
                    ix.len() == j,
                    vec_views(c@) == Seq::new(j as nat, |q: int| seq![rv[q]]),
                    nat_views(ix@) == Seq::new(j as nat, |q: int| q as nat),
                decreases row.len() - j,
            {
                let x = row[j].duplicate();
                let mut one: Vec<T> = Vec::new();
                one.push(x);
                assert(item_views(one@) =~= seq![rv[j as int]]);
                proof {
                    if all_dup_inv(lists_by_subfuel@) {
                        assert(lists_by_subfuel@[subfuel as int][j as int] == row@[j as int]);
                        assert(row@[j as int].dup_inv());
                        assert(one[0].dup_inv());
                        assert(all_dup_inv(c@.push(one))) by {
                            assert forall|a: int, b: int| 0 <= a < c@.push(one).len() && 0 <= b < c@.push(one)[a].len() implies (#[trigger] c@.push(one)[a][b]).dup_inv() by {
                                if a < c@.len() {
                                    assert(c@.push(one)[a] == c@[a]);
                                }
                            }
                        }
                    }
                }
                proof {
                    lemma_vec_views_push(c@, one);
                    lemma_nat_views_push(ix@, j);
                }
                c.push(one);
                ix.push(j);
                j = j + 1;
                assert(vec_views(c@) =~= Seq::new(j as nat, |q: int| seq![rv[q]]));
                assert(nat_views(ix@) =~= Seq::new(j as nat, |q: int| q as nat));
            }
            combinations = c;
            idxs = ix;
            last_subfuel = subfuel;
        } else {
            let ghost combos = vec_views(combinations@);
            let ghost ids = nat_views(idxs@);
            let restrict = last_subfuel == subfuel;
            let mut next_c: Vec<Vec<T>> = Vec::new();
            let mut next_i: Vec<usize> = Vec::new();
            let mut k: usize = 0;
            while k < combinations.len()
                invariant
                    k <= combinations.len(),
                    rv == item_views(row@),
                    row == lists_by_subfuel[subfuel as int],
                    subfuel < lists_by_subfuel.len(),
                    all_dup_inv(lists_by_subfuel@) ==> all_dup_inv(combinations@),
                    all_dup_inv(lists_by_subfuel@) ==> all_dup_inv(next_c@),
                    combos == vec_views(combinations@),
                    ids == nat_views(idxs@),
                    idxs.len() == combinations.len(),
                    next_c.len() == next_i.len(),
                    vec_views(next_c@) == Seq::new(k as nat, |q: int| comb_block(rv, combos, ids, restrict, q)).flatten(),
                    nat_views(next_i@) == Seq::new(k as nat, |q: int| idx_block(rv.len(), ids, restrict, q)).flatten(),
                decreases combinations.len() - k,
            {
                let limit: usize = if restrict && idxs[k] < row.len() { idxs[k] } else { row.len() };
                assert(limit == comb_limit(rv.len(), ids, restrict, k as int));
                let ghost base_c = vec_views(next_c@);
                let ghost base_i = nat_views(next_i@);
                let mut j: usize = 0;
                while j < limit
                    invariant
                        j <= limit,
                        limit <= row.len(),
                        rv == item_views(row@),
                        row == lists_by_subfuel[subfuel as int],
                        subfuel < lists_by_subfuel.len(),
                        all_dup_inv(lists_by_subfuel@) ==> all_dup_inv(combinations@),
                        all_dup_inv(lists_by_subfuel@) ==> all_dup_inv(next_c@),
                        k < combinations.len(),
                        next_c.len() == next_i.len(),
                        combos == vec_views(combinations@),
                        vec_views(next_c@) == base_c + Seq::new(j as nat, |q: int| combos[k as int].push(rv[q])),
                        nat_views(next_i@) == base_i + Seq::new(j as nat, |q: int| q as nat),
                    decreases limit - j,
                {
                    let mut comb = duplicate_vec(&combinations[k]);
                    let x = row[j].duplicate();
                    proof {
                        lemma_item_views_push(comb@, x);
                    }
                    comb.push(x);
                    assert(item_views(comb@) == combos[k as int].push(rv[j as int]));
                    proof {
                        if all_dup_inv(lists_by_subfuel@) {
                            assert(lists_by_subfuel@[subfuel as int][j as int] == row@[j as int]);
                            assert forall|b: int| 0 <= b < comb.len() implies (#[trigger] comb[b]).dup_inv() by {
                                if b < combinations[k as int].len() {
                                    assert(combinations@[k as int][b].dup_inv());
                                }
                            }
                            assert(all_dup_inv(next_c@.push(comb))) by {
                                assert forall|a: int, b: int| 0 <= a < next_c@.push(comb).len() && 0 <= b < next_c@.push(comb)[a].len() implies (#[trigger] next_c@.push(comb)[a][b]).dup_inv() by {
                                    if a < next_c@.len() {
                                        assert(next_c@.push(comb)[a] == next_c@[a]);
                                    }
                                }
                            }
                        }
                    }
                    proof {
                        lemma_vec_views_push(next_c@, comb);
                        lemma_nat_views_push(next_i@, j);
                    }
                    next_c.push(comb);
                    next_i.push(j);
                    j = j + 1;
                    assert(vec_views(next_c@) =~= base_c + Seq::new(j as nat, |q: int| combos[k as int].push(rv[q])));
                    assert(nat_views(next_i@) =~= base_i + Seq::new(j as nat, |q: int| q as nat));
                }
                proof {
                    let fc = |q: int| comb_block(rv, combos, ids, restrict, q);
                    let fi = |q: int| idx_block(rv.len(), ids, restrict, q);
                    assert(Seq::new((k + 1) as nat, fc) =~= Seq::new(k as nat, fc).push(fc(k as int)));
                    assert(Seq::new((k + 1) as nat, fi) =~= Seq::new(k as nat, fi).push(fi(k as int)));
                    Seq::new(k as nat, fc).lemma_flatten_push(fc(k as int));
                    Seq::new(k as nat, fi).lemma_flatten_push(fi(k as int));
                    assert(fc(k as int) =~= Seq::new(j as nat, |q: int| combos[k as int].push(rv[q])));
                    assert(fi(k as int) =~= Seq::new(j as nat, |q: int| q as nat));
                }
                k = k + 1;
            }
            combinations = next_c;
            idxs = next_i;
        }
        n = n + 1;
    }
    combinations
}

/// The increments still owed: the sum of the remaining differences.
pub open spec fn diff_total(incr: Seq<(nat, nat)>) -> nat
    decreases incr.len(),
{
    if incr.len() == 0 {
        0
    } else {
        diff_total(incr.drop_last()) + incr.last().1
    }
}

pub proof fn lemma_diff_total_update(incr: Seq<(nat, nat)>, i: int, d: nat)
    requires
        0 <= i < incr.len(),
    ensures
        diff_total(incr.update(i, (incr[i].0, d))) + incr[i].1 == diff_total(incr) + d,
    decreases incr.len(),
{
    let u = incr.update(i, (incr[i].0, d));
    if i == incr.len() - 1 {
        assert(u.drop_last() =~= incr.drop_last());
    } else {
        lemma_diff_total_update(incr.drop_last(), i, d);
        assert(u.drop_last() =~= incr.drop_last().update(i, (incr[i].0, d)));
    }
}

pub proof fn lemma_diff_total_remove(incr: Seq<(nat, nat)>, i: int)
    requires
        0 <= i < incr.len(),
    ensures
        diff_total(incr.remove(i)) + incr[i].1 == diff_total(incr),
    decreases incr.len(),
{
    let r = incr.remove(i);
    if i == incr.len() - 1 {
        assert(r =~= incr.drop_last());
    } else {
        lemma_diff_total_remove(incr.drop_last(), i);
        assert(r.drop_last() =~= incr.drop_last().remove(i));
        assert(r.last() == incr.last());
    }
}

/// The fuel vectors that the round-robin schedule visits: it visits the current one, then adds
/// one to the position whose turn it is; a position whose difference is used up down to one
/// leaves the rotation, and when the last one leaves, the schedule ends without visiting again.
pub open spec fn visits(exact: Seq<nat>, incr: Seq<(nat, nat)>, i: nat) -> Seq<Seq<nat>>
    decreases diff_total(incr),
{
    if incr.len() == 0 || i >= incr.len() || incr[i as int].1 < 2 {
        seq![exact]
    } else {
        let p = incr[i as int].0;
        let d = incr[i as int].1;
        let exact2 = exact.update(p as int, exact[p as int] + 1);
        if d - 1 == 1 {
            let incr2 = incr.remove(i as int);
            proof {
                lemma_diff_total_remove(incr, i as int);
            }
            if incr2.len() == 0 {
                seq![exact]
            } else {
                seq![exact] + visits(exact2, incr2, ((i + 1) % incr2.len()) as nat)
            }
        } else {
            let incr2 = incr.update(i as int, (p, (d - 1) as nat));
            proof {
                lemma_diff_total_update(incr, i as int, (d - 1) as nat);
            }
            seq![exact] + visits(exact2, incr2, ((i + 1) % incr.len()) as nat)
        }
    }
}

/// The positions whose fuel can still grow by more than one, with how far.
pub open spec fn incrementables_of(maxs: Seq<nat>, init: Seq<nat>) -> Seq<(nat, nat)> {
    Seq::new(maxs.len(), |idx: int| (idx as nat, (maxs[idx] - init[idx]) as nat)).filter(|p: (nat, nat)| p.1 > 1)
}

/// All combinations for each fuel vector in turn.
pub open spec fn combinations_over<T>(lists: Seq<Seq<T>>, vs: Seq<Seq<nat>>) -> Seq<Seq<T>> {
    vs.map_values(|e: Seq<nat>| exact_combinations_of(lists, e)).flatten()
}

proof fn lemma_combinations_over_cons<T>(lists: Seq<Seq<T>>, e: Seq<nat>, rest: Seq<Seq<nat>>)
    ensures
        combinations_over(lists, seq![e] + rest) == exact_combinations_of(lists, e) + combinations_over(lists, rest),
{
    let f = |e: Seq<nat>| exact_combinations_of(lists, e);
    assert((seq![e] + rest).map_values(f) =~= seq![f(e)] + rest.map_values(f));
    vstd::seq_lib::lemma_flatten_concat(seq![f(e)], rest.map_values(f));
    assert(seq![f(e)].flatten() =~= f(e)) by {
        seq![f(e)].lemma_flatten_one_element();
    }
}

pub open spec fn pair_views(v: Seq<(usize, usize)>) -> Seq<(nat, nat)> {
    v.map_values(|p: (usize, usize)| (p.0 as nat, p.1 as nat))
}

/// The rotation's bookkeeping: distinct positions in increasing order, each still able to grow by
/// its difference up to its maximum.
pub open spec fn schedule_ok(exact: Seq<nat>, incr: Seq<(nat, nat)>, maxs: Seq<nat>, bound: nat) -> bool {
    &&& exact.len() == maxs.len()
    &&& forall|k: int| 0 <= k < exact.len() ==> #[trigger] exact[k] < bound
    &&& forall|k: int| 0 <= k < maxs.len() ==> #[trigger] maxs[k] <= bound
    &&& forall|q: int| 0 <= q < incr.len() ==> {
        &&& #[trigger] incr[q].0 < exact.len()
        &&& incr[q].1 >= 2
        &&& exact[incr[q].0 as int] + incr[q].1 <= maxs[incr[q].0 as int]
    }
    &&& forall|q: int, w: int| 0 <= q < w < incr.len() ==> #[trigger] incr[q].0 < #[trigger] incr[w].0
}

fn inexact_combinations_with_init<T: Duplicate>(
    lists_by_subfuel: &Vec<Vec<T>>,
    max_subfuels: Vec<usize>,
    init: Vec<usize>,
) -> (r: Vec<Vec<T>>)
    requires
        max_subfuels.len() == init.len(),
        forall|k: int| 0 <= k < init.len() ==> {
            &&& #[trigger] init[k] <= max_subfuels[k]
            &&& max_subfuels[k] <= lists_by_subfuel.len()
            &&& init[k] < lists_by_subfuel.len()
        },
    ensures
        all_dup_inv(lists_by_subfuel@) ==> all_dup_inv(r@),
        vec_views(r@) == combinations_over(
            vec_views(lists_by_subfuel@),
            visits(nat_views(init@), incrementables_of(nat_views(max_subfuels@), nat_views(init@)), 0),
        ),
{
    let ghost lists = vec_views(lists_by_subfuel@);
    let ghost maxs = nat_views(max_subfuels@);
    let ghost bound = lists_by_subfuel.len() as nat;
    let ghost all_diffs = Seq::new(maxs.len(), |idx: int| (idx as nat, (maxs[idx] - nat_views(init@)[idx]) as nat));
    let mut exact = init;
    let mut incrementables: Vec<(usize, usize)> = Vec::new();
    let mut idx: usize = 0;
    while idx < max_subfuels.len()
        invariant
            idx <= max_subfuels.len(),
            max_subfuels.len() == exact.len(),
            exact@ == init@,
            maxs == nat_views(max_subfuels@),
            all_diffs == Seq::new(maxs.len(), |idx: int| (idx as nat, (maxs[idx] - nat_views(exact@)[idx]) as nat)),
            forall|k: int| 0 <= k < exact.len() ==> #[trigger] exact[k] <= max_subfuels[k],
            pair_views(incrementables@) == all_diffs.take(idx as int).filter(|p: (nat, nat)| p.1 > 1),
            forall|q: int| 0 <= q < incrementables.len() ==> #[trigger] incrementables[q].0 < idx,
            forall|q: int| 0 <= q < incrementables.len() ==> {
                &&& #[trigger] incrementables[q].1 >= 2
                &&& incrementables[q].1 == max_subfuels[incrementables[q].0 as int] - exact[incrementables[q].0 as int]
            },
            forall|q: int, w: int| 0 <= q < w < incrementables.len() ==> #[trigger] incrementables[q].0 < #[trigger] incrementables[w].0,
        decreases max_subfuels.len() - idx,
    {
        let diff = max_subfuels[idx] - exact[idx];
        proof {
            crate::seqs::lemma_filter_take_step(all_diffs, |p: (nat, nat)| p.1 > 1, idx as int);
            assert(all_diffs[idx as int] == (idx as nat, diff as nat));
        }
        if diff > 1 {
            assert(pair_views(incrementables@.push((idx, diff))) =~= pair_views(incrementables@).push((idx as nat, diff as nat)));
            incrementables.push((idx, diff));
        }
        idx = idx + 1;
    }
    assert(all_diffs.take(max_subfuels.len() as int) =~= all_diffs);
    let ghost init_incr = pair_views(incrementables@);
    assert(init_incr == incrementables_of(maxs, nat_views(exact@)));
    let ghost total = combinations_over(lists, visits(nat_views(exact@), init_incr, 0));
    proof {
        let ev = nat_views(exact@);
        let iv = pair_views(incrementables@);
        assert forall|k: int| 0 <= k < ev.len() implies #[trigger] ev[k] < bound by {
            assert(init[k] < lists_by_subfuel.len());
        }
        assert forall|k: int| 0 <= k < maxs.len() implies #[trigger] maxs[k] <= bound by {
            assert(init[k] <= max_subfuels[k]);
        }
        assert forall|q: int| 0 <= q < iv.len() implies {
            &&& #[trigger] iv[q].0 < ev.len()
            &&& iv[q].1 >= 2
            &&& ev[iv[q].0 as int] + iv[q].1 <= maxs[iv[q].0 as int]
        } by {
            assert(iv[q] == (incrementables[q].0 as nat, incrementables[q].1 as nat));
            assert(incrementables[q].1 >= 2);
        }
        assert forall|q: int, w: int| 0 <= q < w < iv.len() implies #[trigger] iv[q].0 < #[trigger] iv[w].0 by {
            assert(incrementables[q].0 < incrementables[w].0);
        }
    }
    let mut increment_idx: usize = 0;
    let mut combinations: Vec<Vec<T>> = Vec::new();
    assert(vec_views(combinations@) =~= Seq::<Seq<T::V>>::empty());
    assert(all_dup_inv(combinations@));
    loop
        invariant_except_break
            vec_views(combinations@) + combinations_over(lists, visits(nat_views(exact@), pair_views(incrementables@), increment_idx as nat)) == total,
        invariant
            lists == vec_views(lists_by_subfuel@),
            maxs == nat_views(max_subfuels@),
            bound == lists_by_subfuel.len(),
            schedule_ok(nat_views(exact@), pair_views(incrementables@), maxs, bound),
            incrementables.len() > 0 ==> increment_idx < incrementables.len(),
            incrementables.len() == 0 ==> increment_idx == 0,
            all_dup_inv(lists_by_subfuel@) ==> all_dup_inv(combinations@),
        ensures
            vec_views(combinations@) == total,
        decreases diff_total(pair_views(incrementables@)),
    {
        let ghost ev = nat_views(exact@);
        let ghost iv = pair_views(incrementables@);
        let ghost i0 = increment_idx as nat;
        let ghost before = vec_views(combinations@);
        assert forall|k: int| 0 <= k < exact.len() implies #[trigger] exact[k] < lists_by_subfuel.len() by {
            assert(ev[k] == exact[k]);
        }
        let mut next_combinations = exact_combinations(lists_by_subfuel, &exact);
        proof {
            lemma_vec_views_append(combinations@, next_combinations@);
            if all_dup_inv(lists_by_subfuel@) {
                lemma_all_dup_inv_append(combinations@, next_combinations@);
            }
        }
        combinations.append(&mut next_combinations);
        assert(vec_views(combinations@) == before + exact_combinations_of(lists, ev));
        if incrementables.len() == 0 {
            proof {
                lemma_combinations_over_cons(lists, ev, seq![]);
                assert(seq![ev] + Seq::<Seq<nat>>::empty() =~= seq![ev]);
                assert(combinations_over(lists, Seq::<Seq<nat>>::empty()) =~= Seq::<Seq<T::V>>::empty());
                assert(vec_views(combinations@) =~= total);
            }
            break;
        }
        let p = incrementables[increment_idx].0;
        let d = incrementables[increment_idx].1;
        assert(iv[increment_idx as int] == (p as nat, d as nat));
        let bumped = exact[p] + 1;
        exact.set(p, bumped);
        incrementables.set(increment_idx, (p, d - 1));
        let ghost ev2 = nat_views(exact@);
        assert(ev2 =~= ev.update(p as int, ev[p as int] + 1));
        if d - 1 == 1 {
            let _ = incrementables.remove(increment_idx);
            let ghost iv2 = pair_views(incrementables@);
            assert(iv2 =~= iv.remove(increment_idx as int));
            proof {
                lemma_diff_total_remove(iv, increment_idx as int);
            }
            if incrementables.len() == 0 {
                proof {
                    assert(visits(ev, iv, i0) == seq![ev]);
                    lemma_combinations_over_cons(lists, ev, seq![]);
                    assert(seq![ev] + Seq::<Seq<nat>>::empty() =~= seq![ev]);
                    assert(combinations_over(lists, Seq::<Seq<nat>>::empty()) =~= Seq::<Seq<T::V>>::empty());
                    assert(vec_views(combinations@) =~= total);
                }
                break;
            }
            increment_idx = (increment_idx + 1) % incrementables.len();
            proof {
                assert(visits(ev, iv, i0) == seq![ev] + visits(ev2, iv2, increment_idx as nat));
                lemma_combinations_over_cons(lists, ev, visits(ev2, iv2, increment_idx as nat));
                assert(vec_views(combinations@) + combinations_over(lists, visits(ev2, iv2, increment_idx as nat))
                    =~= before + combinations_over(lists, visits(ev, iv, i0)));
                assert forall|q: int| 0 <= q < iv2.len() implies {
                    &&& #[trigger] iv2[q].0 < ev2.len()
                    &&& iv2[q].1 >= 2
                    &&& ev2[iv2[q].0 as int] + iv2[q].1 <= maxs[iv2[q].0 as int]
                } by {
                    if q < i0 {
                        assert(iv2[q] == iv[q]);
                        assert(iv[q].0 < iv[i0 as int].0);
                    } else {
                        assert(iv2[q] == iv[q + 1]);
                        assert(iv[i0 as int].0 < iv[q + 1].0);
                    }
                }
                assert forall|q: int, w: int| 0 <= q < w < iv2.len() implies #[trigger] iv2[q].0 < #[trigger] iv2[w].0 by {
                    if w < i0 {
                    } else if q < i0 {
                        assert(iv2[w] == iv[w + 1]);
                    } else {
                        assert(iv2[q] == iv[q + 1]);
                        assert(iv2[w] == iv[w + 1]);
                    }
                }
            }
        } else {
            let ghost iv2 = pair_views(incrementables@);
            assert(iv2 =~= iv.update(increment_idx as int, (p as nat, (d - 1) as nat)));
            proof {
                lemma_diff_total_update(iv, increment_idx as int, (d - 1) as nat);
            }
            increment_idx = (increment_idx + 1) % incrementables.len();
            proof {
                assert(visits(ev, iv, i0) == seq![ev] + visits(ev2, iv2, increment_idx as nat));
                lemma_combinations_over_cons(lists, ev, visits(ev2, iv2, increment_idx as nat));
                assert(vec_views(combinations@) + combinations_over(lists, visits(ev2, iv2, increment_idx as nat))
                    =~= before + combinations_over(lists, visits(ev, iv, i0)));
                assert forall|q: int| 0 <= q < iv2.len() implies {
                    &&& #[trigger] iv2[q].0 < ev2.len()
                    &&& iv2[q].1 >= 2
                    &&& ev2[iv2[q].0 as int] + iv2[q].1 <= maxs[iv2[q].0 as int]
                } by {
                    if q != i0 {
                        assert(iv2[q] == iv[q]);
                        if q < i0 {
                            assert(iv[q].0 < iv[i0 as int].0);
                        } else {
                            assert(iv[i0 as int].0 < iv[q].0);
                        }
                    }
                }
                assert forall|q: int, w: int| 0 <= q < w < iv2.len() implies #[trigger] iv2[q].0 < #[trigger] iv2[w].0 by {
                    assert(iv2[q].0 == iv[q].0);
                    assert(iv2[w].0 == iv[w].0);
                }
            }
        }
    }
    combinations
}

proof fn lemma_subfuels_monotone(a: nat, b: nat)
    requires
        a <= b,
    ensures
        subfuels_of(a).len() <= subfuels_of(b).len(),
        forall|i: int| 0 <= i < subfuels_of(a).len() ==> #[trigger] subfuels_of(a)[i] <= subfuels_of(b)[i],
    decreases a,
{
    if a > 0 {
        lemma_subfuels_monotone(a / 2, b / 2);
        assert forall|i: int| 0 <= i < subfuels_of(a).len() implies #[trigger] subfuels_of(a)[i] <= subfuels_of(b)[i] by {
            if i > 0 {
                assert(subfuels_of(a)[i] == subfuels_of(a / 2)[i - 1]);
                assert(subfuels_of(b)[i] == subfuels_of(b / 2)[i - 1]);
            }
        }
    }
}

pub open spec fn get_or_zero(s: Seq<nat>, i: int) -> nat {
    if 0 <= i < s.len() {
        s[i]
    } else {
        0
    }
}

/// How many parts the combinations have whose last envelope break is at `l`.
pub open spec fn range_count(fuel: nat, l: int) -> nat {
    let lesser = subfuels_of((fuel - 1) as nat);
    if l + 1 >= lesser.len() {
        (l + 1) as nat
    } else {
        lesser.len()
    }
}

/// The largest fuel of each part: up to the break, those of the given fuel; after it, those of
/// one fuel less.
pub open spec fn range_maxs(fuel: nat, l: int) -> Seq<nat> {
    Seq::new(
        range_count(fuel, l),
        |idx: int|
            if idx <= l {
                subfuels_of(fuel)[idx]
            } else {
                subfuels_of((fuel - 1) as nat)[idx]
            },
    )
}

/// The fuel that each part starts from.
pub open spec fn range_inits(fuel: nat, l: int) -> Seq<nat> {
    Seq::new(range_count(fuel, l), |idx: int| if idx <= l { get_or_zero(subfuels_of((fuel - 1) as nat), l) } else { 0 })
}

/// The combinations of predicates that make up a predicate of the given fuel, where
/// `lists[f]` holds the predicates of fuel `f`.
pub open spec fn inexact_combinations_of<T>(lists: Seq<Seq<T>>, fuel: nat) -> Seq<Seq<T>> {
    if fuel <= 3 {
        seq![]
    } else {
        Seq::new(
            subfuels_of(fuel).len(),
            |l: int|
                combinations_over(
                    lists,
                    visits(range_inits(fuel, l), incrementables_of(range_maxs(fuel, l), range_inits(fuel, l)), 0),
                ),
        ).flatten()
    }
}

/// The combinations of predicates that make up a predicate of fuel `fuel`, given the predicates
/// of each smaller fuel.
pub fn inexact_combinations<T: Duplicate>(lists_by_subfuel: &Vec<Vec<T>>, fuel: usize) -> (r: Vec<Vec<T>>)
    requires
        fuel <= 3 || lists_by_subfuel.len() >= fuel,
    ensures
        vec_views(r@) == inexact_combinations_of(vec_views(lists_by_subfuel@), fuel as nat),
        all_dup_inv(lists_by_subfuel@) ==> all_dup_inv(r@),
{
    if fuel <= 3 {
        let r: Vec<Vec<T>> = Vec::new();
        assert(all_dup_inv(r@));
        return r;
    }
    let ghost lists = vec_views(lists_by_subfuel@);
    let max_subfuels = subfuels(fuel);
    let lesser_subfuels = subfuels(fuel - 1);
    let ghost mx = subfuels_of(fuel as nat);
    let ghost ls = subfuels_of((fuel - 1) as nat);
    proof {
        assert(nat_views(max_subfuels@) == mx);
        assert(nat_views(lesser_subfuels@) == ls);
        lemma_subfuels_bounded(fuel as nat);
        lemma_subfuels_bounded((fuel - 1) as nat);
        lemma_subfuels_monotone((fuel - 1) as nat, fuel as nat);
    }
    let mut combinations: Vec<Vec<T>> = Vec::new();
    let mut l: usize = 0;
    while l < max_subfuels.len()
        invariant
            l <= max_subfuels.len(),
            4 <= fuel <= lists_by_subfuel.len(),
            all_dup_inv(lists_by_subfuel@) ==> all_dup_inv(combinations@),
            lists == vec_views(lists_by_subfuel@),
            nat_views(max_subfuels@) == mx,
            nat_views(lesser_subfuels@) == ls,
            mx == subfuels_of(fuel as nat),
            ls == subfuels_of((fuel - 1) as nat),
            ls.len() <= mx.len(),
            forall|i: int| 0 <= i < mx.len() ==> 1 <= #[trigger] mx[i] <= fuel,
            forall|i: int, j: int| 0 <= i <= j < mx.len() ==> mx[j] <= mx[i],
            forall|i: int| 0 <= i < ls.len() ==> 1 <= #[trigger] ls[i] <= fuel - 1,
            forall|i: int| 0 <= i < ls.len() ==> #[trigger] ls[i] <= mx[i],
            vec_views(combinations@) == Seq::new(
                l as nat,
                |l: int|
                    combinations_over(
                        lists,
                        visits(range_inits(fuel as nat, l), incrementables_of(range_maxs(fuel as nat, l), range_inits(fuel as nat, l)), 0),
                    ),
            ).flatten(),
        decreases max_subfuels.len() - l,
    {
        let ghost cnt = range_count(fuel as nat, l as int);
        let ghost rm = range_maxs(fuel as nat, l as int);
        let ghost ri = range_inits(fuel as nat, l as int);
        let init_value: usize = if l < lesser_subfuels.len() { lesser_subfuels[l] } else { 0 };
        assert(init_value == get_or_zero(ls, l as int));
        let mut maxs: Vec<usize> = Vec::new();
        let mut inits: Vec<usize> = Vec::new();
        let mut idx: usize = 0;
        while idx < max_subfuels.len()
            invariant
                idx <= max_subfuels.len(),
                l < max_subfuels.len(),
                nat_views(max_subfuels@) == mx,
                nat_views(lesser_subfuels@) == ls,
                ls.len() <= mx.len(),
                cnt == range_count(fuel as nat, l as int),
                rm == range_maxs(fuel as nat, l as int),
                ri == range_inits(fuel as nat, l as int),
                mx == subfuels_of(fuel as nat),
                ls == subfuels_of((fuel - 1) as nat),
                init_value == get_or_zero(ls, l as int),
                maxs.len() == inits.len(),
                maxs.len() == (if idx <= cnt { idx as nat } else { cnt }),
                nat_views(maxs@) == rm.take(maxs.len() as int),
                nat_views(inits@) == ri.take(inits.len() as int),
            decreases max_subfuels.len() - idx,
        {
            if idx <= l {
                assert(rm[idx as int] == max_subfuels[idx as int]);
                proof {
                    lemma_nat_views_push(maxs@, max_subfuels[idx as int]);
                    lemma_nat_views_push(inits@, init_value);
                }
                maxs.push(max_subfuels[idx]);
                inits.push(init_value);
                assert(nat_views(maxs@) =~= rm.take(maxs.len() as int));
                assert(nat_views(inits@) =~= ri.take(inits.len() as int));
            } else if idx < lesser_subfuels.len() {
                assert(rm[idx as int] == lesser_subfuels[idx as int]);
                proof {
                    lemma_nat_views_push(maxs@, lesser_subfuels[idx as int]);
                    lemma_nat_views_push(inits@, 0);
                }
                maxs.push(lesser_subfuels[idx]);
                inits.push(0);
                assert(nat_views(maxs@) =~= rm.take(maxs.len() as int));
                assert(nat_views(inits@) =~= ri.take(inits.len() as int));
            }
            idx = idx + 1;
        }
        assert(maxs.len() == cnt);
        assert(nat_views(maxs@) =~= rm);
        assert(nat_views(inits@) =~= ri);
        assert forall|k: int| 0 <= k < inits.len() implies {
            &&& #[trigger] inits[k] <= maxs[k]
            &&& maxs[k] <= lists_by_subfuel.len()
            &&& inits[k] < lists_by_subfuel.len()
        } by {
            assert(nat_views(maxs@)[k] == maxs[k]);
            assert(nat_views(inits@)[k] == inits[k]);
            if k <= l {
                assert(mx[k] >= mx[l as int]);
                if l < ls.len() {
                    assert(ls[l as int] <= mx[l as int]);
                }
            } else {
                assert(ls[k] <= fuel - 1);
            }
        }
        let ghost before = vec_views(combinations@);
        let mut next = inexact_combinations_with_init(lists_by_subfuel, maxs, inits);
        proof {
            lemma_vec_views_append(combinations@, next@);
            if all_dup_inv(lists_by_subfuel@) {
                lemma_all_dup_inv_append(combinations@, next@);
            }
        }
        combinations.append(&mut next);
        proof {
            let f = |l: int|
                combinations_over(
                    lists,
                    visits(range_inits(fuel as nat, l), incrementables_of(range_maxs(fuel as nat, l), range_inits(fuel as nat, l)), 0),
                );
            assert(Seq::new((l + 1) as nat, f) =~= Seq::new(l as nat, f).push(f(l as int)));
            Seq::new(l as nat, f).lemma_flatten_push(f(l as int));
        }
        l = l + 1;
    }
    combinations
}

// ---------------------------------------------------------------------------------------------
// The abstraction of a predicate by what other predicates may evaluate to where it holds
// ---------------------------------------------------------------------------------------------

/// The map that a list of entries with distinct keys stands for.
pub open spec fn entries_map(v: Seq<(UnaryRelation, PowerBool)>) -> Map<UnaryRelation, PowerBool>
    decreases v.len(),
{
    if v.len() == 0 {
        Map::empty()
    } else {
        entries_map(v.drop_last()).insert(v.last().0, v.last().1)
    }
}

pub open spec fn keys_distinct(v: Seq<(UnaryRelation, PowerBool)>) -> bool {
    forall|i: int, j: int| 0 <= i < j < v.len() ==> #[trigger] v[i].0 != #[trigger] v[j].0
}

pub proof fn lemma_entries_map_index(v: Seq<(UnaryRelation, PowerBool)>)
    requires
        keys_distinct(v),
    ensures
        forall|k: UnaryRelation| #[trigger] entries_map(v).contains_key(k) <==> exists|i: int| 0 <= i < v.len() && v[i].0 == k,
        forall|i: int| 0 <= i < v.len() ==> #[trigger] entries_map(v)[v[i].0] == v[i].1,
        entries_map(v).dom().finite(),
        entries_map(v).dom().len() == v.len(),
    decreases v.len(),
{
    if v.len() > 0 {
        let d = v.drop_last();
        assert(keys_distinct(d));
        lemma_entries_map_index(d);
        assert forall|k: UnaryRelation| #[trigger] entries_map(v).contains_key(k) <==> exists|i: int| 0 <= i < v.len() && v[i].0 == k by {
            if entries_map(v).contains_key(k) && k != v.last().0 {
                let i = choose|i: int| 0 <= i < d.len() && d[i].0 == k;
                assert(v[i].0 == k);
            }
            if exists|i: int| 0 <= i < v.len() && v[i].0 == k {
                let i = choose|i: int| 0 <= i < v.len() && v[i].0 == k;
                if i < v.len() - 1 {
                    assert(d[i].0 == k);
                }
            }
        }
        assert forall|i: int| 0 <= i < v.len() implies #[trigger] entries_map(v)[v[i].0] == v[i].1 by {
            if i < v.len() - 1 {
                assert(d[i] == v[i]);
                assert(v[i].0 != v.last().0);
            }
        }
        assert(!entries_map(d).contains_key(v.last().0)) by {
            if entries_map(d).contains_key(v.last().0) {
                let i = choose|i: int| 0 <= i < d.len() && d[i].0 == v.last().0;
                assert(v[i].0 == v[v.len() - 1].0);
            }
        }
    }
}

pub proof fn lemma_entries_map_update(v: Seq<(UnaryRelation, PowerBool)>, i: int, pb: PowerBool)
    requires
        keys_distinct(v),
        0 <= i < v.len(),
    ensures
        keys_distinct(v.update(i, (v[i].0, pb))),
        entries_map(v.update(i, (v[i].0, pb))) == entries_map(v).insert(v[i].0, pb),
    decreases v.len(),
{
    let u = v.update(i, (v[i].0, pb));
    assert(keys_distinct(u)) by {
        assert forall|a: int, b: int| 0 <= a < b < u.len() implies #[trigger] u[a].0 != #[trigger] u[b].0 by {
            assert(u[a].0 == v[a].0);
            assert(u[b].0 == v[b].0);
        }
    }
    if i == v.len() - 1 {
        assert(u.drop_last() =~= v.drop_last());
        assert(entries_map(u) =~= entries_map(v).insert(v[i].0, pb));
    } else {
        let d = v.drop_last();
        assert(keys_distinct(d));
        lemma_entries_map_update(d, i, pb);
        assert(u.drop_last() =~= d.update(i, (d[i].0, pb)));
        assert(v[i].0 != v.last().0);
        assert(entries_map(u) =~= entries_map(v).insert(v[i].0, pb));
    }
}

/// Finds the entry for `key`.
fn find_entry(v: &Vec<(UnaryRelation, PowerBool)>, key: &UnaryRelation) -> (r: Option<usize>)
    ensures
        match r {
            Some(i) => i < v.len() && v@[i as int].0 == *key,
            None => forall|i: int| 0 <= i < v.len() ==> #[trigger] v@[i].0 != *key,
        },
{
    let mut i: usize = 0;
    while i < v.len()
        invariant
            i <= v.len(),
            forall|q: int| 0 <= q < i ==> #[trigger] v@[q].0 != *key,
        decreases v.len() - i,
    {
        if unary_eq(&v[i].0, key) {
            return Some(i);
        }
        i = i + 1;
    }
    None
}

/// The value of `key` in `m`, or the unknown value where it has none.
pub open spec fn get_or_top(m: Map<UnaryRelation, PowerBool>, key: UnaryRelation) -> PowerBool {
    if m.contains_key(key) {
        m[key]
    } else {
        pb_top()
    }
}

/// The conjunction of two abstractions, key by key.
pub open spec fn meet(m: Map<UnaryRelation, PowerBool>, a: Map<UnaryRelation, PowerBool>) -> Map<UnaryRelation, PowerBool> {
    Map::new(|k: UnaryRelation| m.contains_key(k) || a.contains_key(k), |k: UnaryRelation| pb_and(get_or_top(m, k), get_or_top(a, k)))
}

pub open spec fn meet_all(s: Seq<Map<UnaryRelation, PowerBool>>) -> Map<UnaryRelation, PowerBool>
    decreases s.len(),
{
    if s.len() == 0 {
        Map::empty()
    } else {
        meet(meet_all(s.drop_last()), s.last())
    }
}

pub open spec fn min_len(a: nat, b: nat) -> nat {
    if a <= b {
        a
    } else {
        b
    }
}

pub open spec fn has_impossible(m: Map<UnaryRelation, PowerBool>) -> bool {
    exists|k: UnaryRelation| m.contains_key(k) && #[trigger] pb_uninhabitable(m[k])
}

/// The conjunction of the abstractions of the operands (paired up with the operands): none when
/// an operand is itself a conjunction, or when some predicate could have no value at all.
pub open spec fn sa_and(concterms: Seq<UnaryRelation>, absterms: Seq<Map<UnaryRelation, PowerBool>>) -> Option<Map<UnaryRelation, PowerBool>> {
    let n = min_len(concterms.len(), absterms.len());
    if exists|k: int| 0 <= k < n && #[trigger] concterms[k] is And {
        None
    } else if has_impossible(meet_all(absterms.take(n as int))) {
        None
    } else {
        Some(meet_all(absterms.take(n as int)))
    }
}

/// The disjunction of the abstractions of the operands: none when an operand is itself a
/// disjunction; otherwise nothing is known of any predicate.
pub open spec fn sa_or(concterms: Seq<UnaryRelation>, absterms: Seq<Map<UnaryRelation, PowerBool>>) -> Option<Map<UnaryRelation, PowerBool>> {
    let n = min_len(concterms.len(), absterms.len());
    if exists|k: int| 0 <= k < n && #[trigger] concterms[k] is Or {
        None
    } else {
        Some(Map::empty())
    }
}

/// The negation of an abstraction: each value negated, and the entries that are then unknown
/// left out; none when the predicate is itself a negation.
pub open spec fn sa_not(m: Map<UnaryRelation, PowerBool>, concterm: UnaryRelation) -> Option<Map<UnaryRelation, PowerBool>> {
    if concterm is Not {
        None
    } else {
        Some(Map::new(|k: UnaryRelation| m.contains_key(k) && !pb_is_top(pb_not(m[k])), |k: UnaryRelation| pb_not(m[k])))
    }
}

/// What is known of other predicates wherever a predicate holds.
#[derive(Debug)]
pub struct SimpleAbstraction {
    pub predicate2powerbool: Vec<(UnaryRelation, PowerBool)>,
}

impl View for SimpleAbstraction {
    type V = Map<UnaryRelation, PowerBool>;

    open spec fn view(&self) -> Map<UnaryRelation, PowerBool> {
        entries_map(self.predicate2powerbool@)
    }
}

pub open spec fn sa_views(s: Seq<SimpleAbstraction>) -> Seq<Map<UnaryRelation, PowerBool>> {
    s.map_values(|a: SimpleAbstraction| a@)
}

impl Default for SimpleAbstraction {
    fn default() -> (r: Self)
        ensures
            r.wf(),
            r@ == Map::<UnaryRelation, PowerBool>::empty(),
    {
        SimpleAbstraction { predicate2powerbool: Vec::new() }
    }
}

impl SimpleAbstraction {
    pub open spec fn wf(&self) -> bool {
        keys_distinct(self.predicate2powerbool@)
    }

    pub fn duplicate(&self) -> (r: Self)
        ensures
            r.predicate2powerbool@ == self.predicate2powerbool@,
    {
        let mut v: Vec<(UnaryRelation, PowerBool)> = Vec::new();
        let mut i: usize = 0;
        while i < self.predicate2powerbool.len()
            invariant
                i <= self.predicate2powerbool.len(),
                v@ == self.predicate2powerbool@.take(i as int),
            decreases self.predicate2powerbool.len() - i,
        {
            let k = self.predicate2powerbool[i].0.duplicate();
            let pb = self.predicate2powerbool[i].1;
            v.push((k, pb));
            i = i + 1;
            assert(v@ =~= self.predicate2powerbool@.take(i as int));
        }
        assert(self.predicate2powerbool@.take(i as int) =~= self.predicate2powerbool@);
        SimpleAbstraction { predicate2powerbool: v }
    }

    /// The abstraction of a predicate that is known to hold.
    pub fn fact(fact: &UnaryRelation) -> (r: Self)
        ensures
            r.wf(),
            r@ == Map::<UnaryRelation, PowerBool>::empty().insert(*fact, PowerBool { maybe_true: true, maybe_false: false }),
    {
        let mut v: Vec<(UnaryRelation, PowerBool)> = Vec::new();
        v.push((fact.duplicate(), PowerBool::new_true()));
        let r = SimpleAbstraction { predicate2powerbool: v };
        assert(r.predicate2powerbool@.drop_last() =~= Seq::<(UnaryRelation, PowerBool)>::empty());
        assert(entries_map(Seq::<(UnaryRelation, PowerBool)>::empty()) == Map::<UnaryRelation, PowerBool>::empty());
        assert(r@ =~= Map::<UnaryRelation, PowerBool>::empty().insert(*fact, PowerBool { maybe_true: true, maybe_false: false }));
        r
    }

    /// Whether some predicate could have no value at all.
    pub fn uninhabitable(&self) -> (r: bool)
        requires
            self.wf(),
        ensures
            r == has_impossible(self@),
    {
        proof {
            lemma_entries_map_index(self.predicate2powerbool@);
        }
        let mut i: usize = 0;
        while i < self.predicate2powerbool.len()
            invariant
                i <= self.predicate2powerbool.len(),
                self.wf(),
                forall|q: int| 0 <= q < i ==> !pb_uninhabitable(#[trigger] self.predicate2powerbool@[q].1),
            decreases self.predicate2powerbool.len() - i,
        {
            if self.predicate2powerbool[i].1.uninhabitable() {
                proof {
                    lemma_entries_map_index(self.predicate2powerbool@);
                    let key = self.predicate2powerbool@[i as int].0;
                    assert(self@.contains_key(key));
                    assert(self@[key] == self.predicate2powerbool@[i as int].1);
                    assert(pb_uninhabitable(self@[key]));
                }
                return true;
            }
            i = i + 1;
        }
        assert forall|k: UnaryRelation| self@.contains_key(k) implies !#[trigger] pb_uninhabitable(self@[k]) by {
            let q = choose|q: int| 0 <= q < self.predicate2powerbool@.len() && self.predicate2powerbool@[q].0 == k;
            assert(self@[self.predicate2powerbool@[q].0] == self.predicate2powerbool@[q].1);
        }
        false
    }

    /// The conjunction of the abstractions of the operands, paired up in order.
    pub fn and(concterms: &Vec<UnaryRelation>, absterms: &Vec<SimpleAbstraction>) -> (r: Option<Self>)
        requires
            forall|k: int| 0 <= k < absterms.len() ==> (#[trigger] absterms[k]).wf(),
        ensures
            match r {
                Some(x) => x.wf() && sa_and(concterms@, sa_views(absterms@)) == Some(x@),
                None => sa_and(concterms@, sa_views(absterms@)) is None,
            },
    {
        let ghost abss = sa_views(absterms@);
        let n: usize = if concterms.len() <= absterms.len() { concterms.len() } else { absterms.len() };
        let mut k: usize = 0;
        while k < n
            invariant
                k <= n,
                n <= concterms.len(),
                n == min_len(concterms@.len(), absterms@.len()),
                forall|q: int| 0 <= q < k ==> !(#[trigger] concterms@[q] is And),
            decreases n - k,
        {
            if let UnaryRelation::And(_) = &concterms[k] {
                assert(concterms@[k as int] is And);
                assert(n == min_len(concterms@.len(), sa_views(absterms@).len()));
                return None;
            }
            k = k + 1;
        }
        let mut acc: Vec<(UnaryRelation, PowerBool)> = Vec::new();
        assert(entries_map(acc@) =~= meet_all(abss.take(0)));
        k = 0;
        while k < n
            invariant
                k <= n,
                n <= absterms.len(),
                abss == sa_views(absterms@),
                forall|q: int| 0 <= q < absterms.len() ==> (#[trigger] absterms[q]).wf(),
                keys_distinct(acc@),
                entries_map(acc@) == meet_all(abss.take(k as int)),
            decreases n - k,
        {
            let ghost m = meet_all(abss.take(k as int));
            let a = &absterms[k].predicate2powerbool;
            assert(keys_distinct(a@)) by {
                assert(absterms[k as int].wf());
            }
            assert(meet(m, entries_map(a@.take(0))) =~= m);
            let mut j: usize = 0;
            while j < a.len()
                invariant
                    j <= a.len(),
                    keys_distinct(a@),
                    keys_distinct(acc@),
                    entries_map(acc@) == meet(m, entries_map(a@.take(j as int))),
                decreases a.len() - j,
            {
                let ghost pre = a@.take(j as int);
                let ghost am = entries_map(pre);
                assert(a@.take(j + 1).drop_last() =~= pre);
                assert(keys_distinct(pre));
                proof {
                    lemma_entries_map_index(pre);
                }
                let key = &a[j].0;
                let pb = a[j].1;
                assert(!am.contains_key(*key)) by {
                    if am.contains_key(*key) {
                        let w = choose|w: int| 0 <= w < pre.len() && pre[w].0 == *key;
                        assert(a@[w].0 == a@[j as int].0);
                    }
                }
                let ghost target = meet(m, am.insert(*key, pb));
                assert(target =~= meet(m, am).insert(*key, pb_and(get_or_top(m, *key), pb)));
                proof {
                    lemma_entries_map_index(acc@);
                }
                match find_entry(&acc, key) {
                    Some(i) => {
                        let mut e = acc[i].1;
                        assert(e == entries_map(acc@)[*key]);
                        e.and(&pb);
                        let kk = acc[i].0.duplicate();
                        proof {
                            lemma_entries_map_update(acc@, i as int, e);
                        }
                        acc.set(i, (kk, e));
                    },
                    None => {
                        let ghost before = acc@;
                        acc.push((key.duplicate(), pb));
                        assert(acc@.drop_last() =~= before);
                        assert(!meet(m, am).contains_key(*key)) by {
                            if meet(m, am).contains_key(*key) {
                                let w = choose|w: int| 0 <= w < before.len() && before[w].0 == *key;
                            }
                        }
                        assert(keys_distinct(acc@)) by {
                            assert forall|x: int, y: int| 0 <= x < y < acc@.len() implies #[trigger] acc@[x].0 != #[trigger] acc@[y].0 by {
                                if y == acc@.len() - 1 {
                                    assert(before[x].0 != *key);
                                }
                            }
                        }
                    },
                }
                assert(entries_map(acc@) =~= target);
                j = j + 1;
            }
            assert(a@.take(a.len() as int) =~= a@);
            assert(abss.take(k + 1).drop_last() =~= abss.take(k as int));
            assert(abss[k as int] == entries_map(a@));
            k = k + 1;
        }
        let result = SimpleAbstraction { predicate2powerbool: acc };
        if result.uninhabitable() {
            return None;
        }
        Some(result)
    }

    /// The disjunction of the abstractions of the operands, paired up in order.
    pub fn or(concterms: &Vec<UnaryRelation>, absterms: &Vec<SimpleAbstraction>) -> (r: Option<Self>)
        ensures
            match r {
                Some(x) => x.wf() && sa_or(concterms@, sa_views(absterms@)) == Some(x@),
                None => sa_or(concterms@, sa_views(absterms@)) is None,
            },
    {
        let n: usize = if concterms.len() <= absterms.len() { concterms.len() } else { absterms.len() };
        let mut acc: Vec<(UnaryRelation, PowerBool)> = Vec::new();
        let mut k: usize = 0;
        while k < n
            invariant
                k <= n,
                n <= concterms.len(),
                n <= absterms.len(),
                n == min_len(concterms@.len(), absterms@.len()),
                acc@.len() == 0,
                forall|q: int| 0 <= q < k ==> !(#[trigger] concterms@[q] is Or),
            decreases n - k,
        {
            if let UnaryRelation::Or(_) = &concterms[k] {
                assert(concterms@[k as int] is Or);
                assert(n == min_len(concterms@.len(), sa_views(absterms@).len()));
                return None;
            }
            let a = &absterms[k].predicate2powerbool;
            let mut j: usize = 0;
            while j < a.len()
                invariant
                    j <= a.len(),
                    acc@.len() == 0,
                decreases a.len() - j,
            {
                let key = &a[j].0;
                let pb = a[j].1;
                match find_entry(&acc, key) {
                    Some(i) => {
                        let mut e = acc[i].1;
                        e.or(&pb);
                        if e.is_top() {
                            let _ = acc.remove(i);
                        } else {
                            let kk = acc[i].0.duplicate();
                            acc.set(i, (kk, e));
                        }
                    },
                    None => {
                        let mut e = PowerBool::default();
                        e.or(&pb);
                        if !e.is_top() {
                            acc.push((key.duplicate(), e));
                        }
                    },
                }
                j = j + 1;
            }
            k = k + 1;
        }
        let r = SimpleAbstraction { predicate2powerbool: acc };
        assert(r@ =~= Map::<UnaryRelation, PowerBool>::empty());
        Some(r)
    }

    /// The negation of this abstraction, for the negation of `concterm`.
    pub fn not(&self, concterm: &UnaryRelation) -> (r: Option<Self>)
        requires
            self.wf(),
        ensures
            match r {
                Some(x) => x.wf() && sa_not(self@, *concterm) == Some(x@),
                None => sa_not(self@, *concterm) is None,
            },
    {
        if let UnaryRelation::Not(_) = concterm {
            return None;
        }
        let ghost src = self.predicate2powerbool@;
        let ghost target = Map::new(|k: UnaryRelation| self@.contains_key(k) && !pb_is_top(pb_not(self@[k])), |k: UnaryRelation| pb_not(self@[k]));
        let mut out: Vec<(UnaryRelation, PowerBool)> = Vec::new();
        let mut i: usize = 0;
        while i < self.predicate2powerbool.len()
            invariant
                i <= src.len(),
                src == self.predicate2powerbool@,
                keys_distinct(src),
                keys_distinct(out@),
                forall|q: int| 0 <= q < out@.len() ==> exists|w: int| 0 <= w < i && #[trigger] out@[q].0 == src[w].0,
                entries_map(out@) == Map::new(
                    |k: UnaryRelation| entries_map(src.take(i as int)).contains_key(k) && !pb_is_top(pb_not(entries_map(src.take(i as int))[k])),
                    |k: UnaryRelation| pb_not(entries_map(src.take(i as int))[k]),
                ),
            decreases src.len() - i,
        {
            let ghost pre = src.take(i as int);
            let ghost post = src.take(i + 1);
            assert(post.drop_last() =~= pre);
            assert(keys_distinct(pre));
            proof {
                lemma_entries_map_index(pre);
            }
            assert(!entries_map(pre).contains_key(src[i as int].0)) by {
                if entries_map(pre).contains_key(src[i as int].0) {
                    let w = choose|w: int| 0 <= w < pre.len() && pre[w].0 == src[i as int].0;
                    assert(src[w].0 == src[i as int].0);
                }
            }
            let pb = self.predicate2powerbool[i].1.not();
            if !pb.is_top() {
                let k = self.predicate2powerbool[i].0.duplicate();
                let ghost before = out@;
                out.push((k, pb));
                assert(out@.drop_last() =~= before);
                assert(keys_distinct(out@)) by {
                    assert forall|a: int, b: int| 0 <= a < b < out@.len() implies #[trigger] out@[a].0 != #[trigger] out@[b].0 by {
                        if b == out@.len() - 1 {
                            let w = choose|w: int| 0 <= w < i && #[trigger] before[a].0 == src[w].0;
                            assert(src[w].0 != src[i as int].0);
                        }
                    }
                }
                assert forall|q: int| 0 <= q < out@.len() implies exists|w: int| 0 <= w < i + 1 && #[trigger] out@[q].0 == src[w].0 by {
                    if q == out@.len() - 1 {
                        assert(out@[q].0 == src[i as int].0);
                    } else {
                        let w = choose|w: int| 0 <= w < i && #[trigger] before[q].0 == src[w].0;
                        assert(out@[q].0 == src[w].0);
                    }
                }
            } else {
                assert forall|q: int| 0 <= q < out@.len() implies exists|w: int| 0 <= w < i + 1 && #[trigger] out@[q].0 == src[w].0 by {
                    let w = choose|w: int| 0 <= w < i && #[trigger] out@[q].0 == src[w].0;
                }
            }
            assert(entries_map(out@) =~= Map::new(
                |k: UnaryRelation| entries_map(post).contains_key(k) && !pb_is_top(pb_not(entries_map(post)[k])),
                |k: UnaryRelation| pb_not(entries_map(post)[k]),
            ));
            i = i + 1;
        }
        assert(src.take(src.len() as int) =~= src);
        assert(entries_map(out@) =~= target);
        Some(SimpleAbstraction { predicate2powerbool: out })
    }
}

} // verus!
