//! The abstraction of the predicates on RTI events used to enumerate them, and their enumeration
//! by fuel.
use vstd::prelude::*;
use crate::enumerate::{
    all_dup_inv, has_impossible, inexact_combinations, inexact_combinations_of, item_views, sa_and, sa_not,
    sa_or, sa_views, vec_views, Duplicate, PowerBool, SimpleAbstraction,
};
use crate::relation::{all_of, any_of, unary_list, EventKind, UnaryRelation, UnaryRelationAtom};
use crate::unpermutables::Rule;

verus! {

/// The set of the kinds in the vector.
pub open spec fn events_view(o: Option<Vec<EventKind>>) -> Option<Set<EventKind>> {
    match o {
        Some(v) => Some(v@.to_set()),
        None => None,
    }
}

/// The event kinds that every operand allows: none known when no operand restricts them.
pub open spec fn events_meet(s: Seq<Option<Set<EventKind>>>) -> Option<Set<EventKind>>
    decreases s.len(),
{
    if s.len() == 0 {
        None
    } else {
        match (events_meet(s.drop_last()), s.last()) {
            (None, x) => x,
            (Some(a), None) => Some(a),
            (Some(a), Some(b)) => Some(a.intersect(b)),
        }
    }
}

/// The event kinds that some operand allows, over the operands that restrict them.
pub open spec fn events_join(s: Seq<Option<Set<EventKind>>>) -> Option<Set<EventKind>>
    decreases s.len(),
{
    if s.len() == 0 {
        None
    } else {
        match (events_join(s.drop_last()), s.last()) {
            (None, x) => x,
            (Some(a), None) => Some(a),
            (Some(a), Some(b)) => Some(a.union(b)),
        }
    }
}

/// The meaning of an abstraction: the event kinds it allows (when it restricts them), and what
/// is known of other predicates.
pub type AbstractionView = (Option<Set<EventKind>>, Map<UnaryRelation, PowerBool>);

/// Where a predicate holds, what kind the event can be and what other predicates can evaluate to.
#[derive(Debug)]
pub struct UnaryRelationAbstraction {
    pub possible_events: Option<Vec<EventKind>>,
    pub sabs: SimpleAbstraction,
}

impl View for UnaryRelationAbstraction {
    type V = AbstractionView;

    open spec fn view(&self) -> AbstractionView {
        (events_view(self.possible_events), self.sabs@)
    }
}

pub open spec fn ura_views(s: Seq<UnaryRelationAbstraction>) -> Seq<AbstractionView> {
    s.map_values(|a: UnaryRelationAbstraction| a@)
}

pub open spec fn ura_uninhabitable(v: AbstractionView) -> bool {
    v.0 == Some(Set::<EventKind>::empty()) || has_impossible(v.1)
}

pub open spec fn ura_fact(predicate: UnaryRelation) -> AbstractionView {
    match predicate {
        UnaryRelation::Atom(UnaryRelationAtom::EventIs(kind)) => (Some(set![kind]), Map::empty()),
        _ => (None, Map::empty().insert(predicate, PowerBool { maybe_true: true, maybe_false: false })),
    }
}

pub open spec fn ura_and(concterms: Seq<UnaryRelation>, absterms: Seq<AbstractionView>) -> Option<(UnaryRelation, AbstractionView)> {
    let possible = events_meet(absterms.map_values(|a: AbstractionView| a.0));
    match sa_and(concterms, absterms.map_values(|a: AbstractionView| a.1)) {
        None => None,
        Some(m) => if ura_uninhabitable((possible, m)) {
            None
        } else {
            Some((UnaryRelation::And(unary_list(concterms)), (possible, m)))
        },
    }
}

pub open spec fn ura_or(concterms: Seq<UnaryRelation>, absterms: Seq<AbstractionView>) -> Option<(UnaryRelation, AbstractionView)> {
    let possible = events_join(absterms.map_values(|a: AbstractionView| a.0));
    match sa_or(concterms, absterms.map_values(|a: AbstractionView| a.1)) {
        None => None,
        Some(m) => Some((UnaryRelation::Or(unary_list(concterms)), (possible, m))),
    }
}

/// Negations of event kinds are left out: they are reached as disjunctions of the other kinds.
pub open spec fn ura_not(v: AbstractionView, concterm: UnaryRelation) -> Option<(UnaryRelation, AbstractionView)> {
    if concterm matches UnaryRelation::Atom(UnaryRelationAtom::EventIs(_)) {
        None
    } else {
        match sa_not(v.1, concterm) {
            None => None,
            Some(m) => Some((UnaryRelation::Not(Box::new(concterm)), (None, m))),
        }
    }
}

/// The view of an optional pair of a predicate and its abstraction.
pub open spec fn opt_view(o: Option<(UnaryRelation, UnaryRelationAbstraction)>) -> Option<(UnaryRelation, AbstractionView)> {
    match o {
        Some(p) => Some((p.0, p.1@)),
        None => None,
    }
}

/// The operations that build the abstractions of larger predicates from those of their parts.
pub trait Abstraction: Sized {
    /// Whether the abstraction is well formed.
    spec fn wf(&self) -> bool;

    fn fact(fact: &UnaryRelation) -> (r: Self)
        ensures
            r.wf(),
    ;

    fn and(concterms: &Vec<UnaryRelation>, absterms: &Vec<Self>) -> (r: Option<(UnaryRelation, Self)>)
        requires
            forall|k: int| 0 <= k < absterms.len() ==> (#[trigger] absterms[k]).wf(),
        ensures
            r matches Some(p) ==> p.1.wf(),
    ;

    fn or(concterms: &Vec<UnaryRelation>, absterms: &Vec<Self>) -> (r: Option<(UnaryRelation, Self)>)
        requires
            forall|k: int| 0 <= k < absterms.len() ==> (#[trigger] absterms[k]).wf(),
        ensures
            r matches Some(p) ==> p.1.wf(),
    ;

    fn not(&self, concterm: &UnaryRelation) -> (r: Option<(UnaryRelation, Self)>)
        requires
            self.wf(),
        ensures
            r matches Some(p) ==> p.1.wf(),
    ;
}

fn contains_kind(v: &Vec<EventKind>, x: EventKind) -> (r: bool)
    ensures
        r == v@.contains(x),
{
    let mut j: usize = 0;
    while j < v.len()
        invariant
            j <= v.len(),
            forall|q: int| 0 <= q < j ==> v@[q] != x,
        decreases v.len() - j,
    {
        if v[j] == x {
            assert(v@[j as int] == x);
            return true;
        }
        j = j + 1;
    }
    false
}

fn intersect_kinds(a: &Vec<EventKind>, b: &Vec<EventKind>) -> (r: Vec<EventKind>)
    ensures
        r@.to_set() == a@.to_set().intersect(b@.to_set()),
{
    broadcast use vstd::seq_lib::group_seq_properties;

    let mut r: Vec<EventKind> = Vec::new();
    let mut i: usize = 0;
    while i < a.len()
        invariant
            i <= a.len(),
            forall|e: EventKind| #[trigger] r@.contains(e) <==> (a@.take(i as int).contains(e) && b@.contains(e)),
        decreases a.len() - i,
    {
        let x = a[i];
        let found = contains_kind(b, x);
        proof {
            crate::seqs::lemma_contains_push(r@, x);
            crate::seqs::lemma_contains_push(a@.take(i as int), x);
        }
        if found {
            r.push(x);
        }
        assert(a@.take(i + 1) =~= a@.take(i as int).push(x));
        i = i + 1;
    }
    assert(a@.take(a.len() as int) =~= a@);
    assert(r@.to_set() =~= a@.to_set().intersect(b@.to_set()));
    r
}

fn union_kinds(a: &Vec<EventKind>, b: &Vec<EventKind>) -> (r: Vec<EventKind>)
    ensures
        r@.to_set() == a@.to_set().union(b@.to_set()),
{
    broadcast use vstd::seq_lib::group_seq_properties;

    let mut r: Vec<EventKind> = Vec::new();
    let mut i: usize = 0;
    while i < a.len()
        invariant
            i <= a.len(),
            forall|e: EventKind| #[trigger] r@.contains(e) <==> a@.take(i as int).contains(e),
        decreases a.len() - i,
    {
        proof {
            crate::seqs::lemma_contains_push(r@, a@[i as int]);
            crate::seqs::lemma_contains_push(a@.take(i as int), a@[i as int]);
        }
        r.push(a[i]);
        assert(a@.take(i + 1) =~= a@.take(i as int).push(a@[i as int]));
        i = i + 1;
    }
    assert(a@.take(a.len() as int) =~= a@);
    let mut j: usize = 0;
    while j < b.len()
        invariant
            j <= b.len(),
            forall|e: EventKind| #[trigger] r@.contains(e) <==> (a@.contains(e) || b@.take(j as int).contains(e)),
        decreases b.len() - j,
    {
        let x = b[j];
        proof {
            crate::seqs::lemma_contains_push(r@, x);
            crate::seqs::lemma_contains_push(b@.take(j as int), x);
        }
        if !contains_kind(&r, x) {
            r.push(x);
        }
        assert(b@.take(j + 1) =~= b@.take(j as int).push(x));
        j = j + 1;
    }
    assert(b@.take(b.len() as int) =~= b@);
    assert(r@.to_set() =~= a@.to_set().union(b@.to_set()));
    r
}

impl View for UnaryRelation {
    type V = UnaryRelation;

    open spec fn view(&self) -> UnaryRelation {
        *self
    }
}

impl Duplicate for UnaryRelation {
    open spec fn dup_inv(&self) -> bool {
        true
    }

    fn duplicate(&self) -> (r: Self) {
        UnaryRelation::duplicate(self)
    }
}

fn copy_kinds(v: &Vec<EventKind>) -> (r: Vec<EventKind>)
    ensures
        r@ == v@,
{
    let mut r: Vec<EventKind> = Vec::new();
    let mut i: usize = 0;
    while i < v.len()
        invariant
            i <= v.len(),
            r@ == v@.take(i as int),
        decreases v.len() - i,
    {
        r.push(v[i]);
        i = i + 1;
        assert(r@ =~= v@.take(i as int));
    }
    assert(v@.take(v.len() as int) =~= v@);
    r
}

fn copy_possible(o: &Option<Vec<EventKind>>) -> (r: Option<Vec<EventKind>>)
    ensures
        events_view(r) == events_view(*o),
{
    match o {
        Some(v) => Some(copy_kinds(v)),
        None => None,
    }
}

impl Duplicate for UnaryRelationAbstraction {
    open spec fn dup_inv(&self) -> bool {
        self.wf()
    }

    fn duplicate(&self) -> (r: Self) {
        UnaryRelationAbstraction { possible_events: copy_possible(&self.possible_events), sabs: self.sabs.duplicate() }
    }
}

impl Duplicate for (UnaryRelation, UnaryRelationAbstraction) {
    open spec fn dup_inv(&self) -> bool {
        self.1.wf()
    }

    fn duplicate(&self) -> (r: Self) {
        (UnaryRelation::duplicate(&self.0), self.1.duplicate())
    }
}

impl UnaryRelationAbstraction {
    fn uninhabitable(&self) -> (r: bool)
        requires
            self.wf(),
        ensures
            r == ura_uninhabitable(self@),
    {
        let empty_kinds = match &self.possible_events {
            Some(v) => v.len() == 0,
            None => false,
        };
        proof {
            if let Some(v) = &self.possible_events {
                if v.len() == 0 {
                    assert(v@.to_set() =~= Set::<EventKind>::empty());
                } else {
                    assert(v@.to_set().contains(v@[0]));
                }
            }
        }
        empty_kinds || self.sabs.uninhabitable()
    }

    /// The abstraction of "the event is of this kind".
    fn event(kind: EventKind) -> (r: Self)
        ensures
            r.wf(),
            r@ == (Some(set![kind]), Map::<UnaryRelation, PowerBool>::empty()),
    {
        let mut v: Vec<EventKind> = Vec::new();
        v.push(kind);
        assert(v@.to_set() =~= set![kind]) by {
            assert(v@ =~= seq![kind]);
            assert(v@.contains(kind)) by {
                assert(v@[0] == kind);
            }
        }
        UnaryRelationAbstraction { possible_events: Some(v), sabs: SimpleAbstraction::default() }
    }
}

/// The abstractions' operations, each the conjunction, disjunction or negation of the
/// abstractions it is given.
impl Abstraction for UnaryRelationAbstraction {
    open spec fn wf(&self) -> bool {
        self.sabs.wf()
    }

    fn fact(predicate: &UnaryRelation) -> (r: Self)
        ensures
            r@ == ura_fact(*predicate),
    {
        match predicate {
            UnaryRelation::Atom(UnaryRelationAtom::EventIs(kind)) => Self::event(*kind),
            _ => UnaryRelationAbstraction { possible_events: None, sabs: SimpleAbstraction::fact(predicate) },
        }
    }

    fn and(concterms: &Vec<UnaryRelation>, absterms: &Vec<Self>) -> (r: Option<(UnaryRelation, Self)>)
        ensures
            opt_view(r) == ura_and(concterms@, ura_views(absterms@)),
    {
        let ghost avs = ura_views(absterms@);
        let mut possible: Option<Vec<EventKind>> = None;
        let mut sabs_list: Vec<SimpleAbstraction> = Vec::new();
        let mut k: usize = 0;
        while k < absterms.len()
            invariant
                k <= absterms.len(),
                avs == ura_views(absterms@),
                forall|q: int| 0 <= q < absterms.len() ==> (#[trigger] absterms[q]).wf(),
                events_view(possible) == events_meet(avs.take(k as int).map_values(|a: AbstractionView| a.0)),
                sabs_list.len() == k,
                sa_views(sabs_list@) == avs.take(k as int).map_values(|a: AbstractionView| a.1),
                forall|q: int| 0 <= q < sabs_list.len() ==> (#[trigger] sabs_list[q]).wf(),
            decreases absterms.len() - k,
        {
            let ghost pre = avs.take(k as int).map_values(|a: AbstractionView| a.0);
            let ghost post = avs.take(k + 1).map_values(|a: AbstractionView| a.0);
            assert(post.drop_last() =~= pre);
            assert(post.last() == events_view(absterms[k as int].possible_events));
            match &absterms[k].possible_events {
                Some(v) => {
                    possible = match possible {
                        None => Some(copy_kinds(v)),
                        Some(x) => Some(intersect_kinds(&x, v)),
                    };
                },
                None => {},
            }
            let d = absterms[k].sabs.duplicate();
            assert(d@ == avs[k as int].1);
            let ghost before = sabs_list@;
            sabs_list.push(d);
            assert(sabs_list@ == before.push(d));
            assert forall|q: int| 0 <= q < k + 1 implies #[trigger] sa_views(sabs_list@)[q] == avs.take(k + 1).map_values(|a: AbstractionView| a.1)[q] by {
                if q < k {
                    assert(sa_views(before)[q] == avs.take(k as int).map_values(|a: AbstractionView| a.1)[q]);
                }
            }
            assert(sa_views(sabs_list@) =~= avs.take(k + 1).map_values(|a: AbstractionView| a.1));
            k = k + 1;
        }
        assert(avs.take(absterms.len() as int) =~= avs);
        let sabs = match SimpleAbstraction::and(concterms, &sabs_list) {
            Some(x) => x,
            None => {
                return None;
            },
        };
        let ret = UnaryRelationAbstraction { possible_events: possible, sabs };
        if ret.uninhabitable() {
            return None;
        }
        let mut terms: Vec<UnaryRelation> = Vec::new();
        let mut i: usize = 0;
        while i < concterms.len()
            invariant
                i <= concterms.len(),
                terms@ == concterms@.take(i as int),
            decreases concterms.len() - i,
        {
            terms.push(UnaryRelation::duplicate(&concterms[i]));
            i = i + 1;
            assert(terms@ =~= concterms@.take(i as int));
        }
        assert(concterms@.take(concterms.len() as int) =~= concterms@);
        Some((all_of(terms), ret))
    }

    fn or(concterms: &Vec<UnaryRelation>, absterms: &Vec<Self>) -> (r: Option<(UnaryRelation, Self)>)
        ensures
            opt_view(r) == ura_or(concterms@, ura_views(absterms@)),
    {
        let ghost avs = ura_views(absterms@);
        let mut possible: Option<Vec<EventKind>> = None;
        let mut sabs_list: Vec<SimpleAbstraction> = Vec::new();
        let mut k: usize = 0;
        while k < absterms.len()
            invariant
                k <= absterms.len(),
                avs == ura_views(absterms@),
                events_view(possible) == events_join(avs.take(k as int).map_values(|a: AbstractionView| a.0)),
                sabs_list.len() == k,
                sa_views(sabs_list@) == avs.take(k as int).map_values(|a: AbstractionView| a.1),
            decreases absterms.len() - k,
        {
            let ghost pre = avs.take(k as int).map_values(|a: AbstractionView| a.0);
            let ghost post = avs.take(k + 1).map_values(|a: AbstractionView| a.0);
            assert(post.drop_last() =~= pre);
            assert(post.last() == events_view(absterms[k as int].possible_events));
            match &absterms[k].possible_events {
                Some(v) => {
                    possible = match possible {
                        None => Some(copy_kinds(v)),
                        Some(x) => Some(union_kinds(&x, v)),
                    };
                },
                None => {},
            }
            let d = absterms[k].sabs.duplicate();
            assert(d@ == avs[k as int].1);
            let ghost before = sabs_list@;
            sabs_list.push(d);
            assert(sabs_list@ == before.push(d));
            assert forall|q: int| 0 <= q < k + 1 implies #[trigger] sa_views(sabs_list@)[q] == avs.take(k + 1).map_values(|a: AbstractionView| a.1)[q] by {
                if q < k {
                    assert(sa_views(before)[q] == avs.take(k as int).map_values(|a: AbstractionView| a.1)[q]);
                }
            }
            assert(sa_views(sabs_list@) =~= avs.take(k + 1).map_values(|a: AbstractionView| a.1));
            k = k + 1;
        }
        assert(avs.take(absterms.len() as int) =~= avs);
        let sabs = match SimpleAbstraction::or(concterms, &sabs_list) {
            Some(x) => x,
            None => {
                return None;
            },
        };
        let mut terms: Vec<UnaryRelation> = Vec::new();
        let mut i: usize = 0;
        while i < concterms.len()
            invariant
                i <= concterms.len(),
                terms@ == concterms@.take(i as int),
            decreases concterms.len() - i,
        {
            terms.push(UnaryRelation::duplicate(&concterms[i]));
            i = i + 1;
            assert(terms@ =~= concterms@.take(i as int));
        }
        assert(concterms@.take(concterms.len() as int) =~= concterms@);
        Some((any_of(terms), UnaryRelationAbstraction { possible_events: possible, sabs }))
    }

    fn not(&self, concterm: &UnaryRelation) -> (r: Option<(UnaryRelation, Self)>)
        ensures
            opt_view(r) == ura_not(self@, *concterm),
    {
        if let UnaryRelation::Atom(UnaryRelationAtom::EventIs(_)) = concterm {
            return None;
        }
        let sabs = match self.sabs.not(concterm) {
            Some(x) => x,
            None => {
                return None;
            },
        };
        Some((UnaryRelation::Not(Box::new(UnaryRelation::duplicate(concterm))), UnaryRelationAbstraction { possible_events: None, sabs }))
    }
}

// ---------------------------------------------------------------------------------------------
// Enumeration by fuel
// ---------------------------------------------------------------------------------------------

/// All event kinds, in their declaration order.
pub open spec fn all_event_kinds() -> Seq<EventKind> {
    seq![
        EventKind::RecvFedId,
        EventKind::SendAck,
        EventKind::SendTimestamp,
        EventKind::RecvTimestamp,
        EventKind::RecvNet,
        EventKind::SendPortAbs,
        EventKind::RecvPortAbs,
        EventKind::SendPtag,
        EventKind::SendTaggedMsg,
        EventKind::RecvTaggedMsg,
        EventKind::SendTag,
        EventKind::RecvStopReq,
        EventKind::SendStopReq,
        EventKind::RecvStopReqRep,
        EventKind::SendStopGrn,
        EventKind::RecvLtc
    ]
}

/// All atomic predicates, in their declaration order, the event kinds in theirs.
pub open spec fn all_unary_atoms() -> Seq<UnaryRelationAtom> {
    seq![
        UnaryRelationAtom::FedHasNoneUpstreamWithDelayLessThanOrEqualCurrentTag,
        UnaryRelationAtom::TagNonzero,
        UnaryRelationAtom::TagFinite,
    ] + all_event_kinds().map_values(|k: EventKind| UnaryRelationAtom::EventIs(k))
}

fn all_atoms() -> (r: Vec<UnaryRelationAtom>)
    ensures
        r@ == all_unary_atoms(),
{
    let mut v: Vec<UnaryRelationAtom> = Vec::new();
    v.push(UnaryRelationAtom::FedHasNoneUpstreamWithDelayLessThanOrEqualCurrentTag);
    v.push(UnaryRelationAtom::TagNonzero);
    v.push(UnaryRelationAtom::TagFinite);
    v.push(UnaryRelationAtom::EventIs(EventKind::RecvFedId));
    v.push(UnaryRelationAtom::EventIs(EventKind::SendAck));
    v.push(UnaryRelationAtom::EventIs(EventKind::SendTimestamp));
    v.push(UnaryRelationAtom::EventIs(EventKind::RecvTimestamp));
    v.push(UnaryRelationAtom::EventIs(EventKind::RecvNet));
    v.push(UnaryRelationAtom::EventIs(EventKind::SendPortAbs));
    v.push(UnaryRelationAtom::EventIs(EventKind::RecvPortAbs));
    v.push(UnaryRelationAtom::EventIs(EventKind::SendPtag));
    v.push(UnaryRelationAtom::EventIs(EventKind::SendTaggedMsg));
    v.push(UnaryRelationAtom::EventIs(EventKind::RecvTaggedMsg));
    v.push(UnaryRelationAtom::EventIs(EventKind::SendTag));
    v.push(UnaryRelationAtom::EventIs(EventKind::RecvStopReq));
    v.push(UnaryRelationAtom::EventIs(EventKind::SendStopReq));
    v.push(UnaryRelationAtom::EventIs(EventKind::RecvStopReqRep));
    v.push(UnaryRelationAtom::EventIs(EventKind::SendStopGrn));
    v.push(UnaryRelationAtom::EventIs(EventKind::RecvLtc));
    assert(v@ =~= all_unary_atoms());
    v
}

pub open spec fn opt_seq<A>(o: Option<A>) -> Seq<A> {
    match o {
        Some(x) => seq![x],
        None => seq![],
    }
}

pub open spec fn firsts(c: Seq<(UnaryRelation, AbstractionView)>) -> Seq<UnaryRelation> {
    c.map_values(|p: (UnaryRelation, AbstractionView)| p.0)
}

pub open spec fn seconds(c: Seq<(UnaryRelation, AbstractionView)>) -> Seq<AbstractionView> {
    c.map_values(|p: (UnaryRelation, AbstractionView)| p.1)
}

/// The predicates of exactly the given fuel, with their abstractions, given those of each smaller
/// fuel: for fuel zero the atoms; otherwise the negations of the predicates of one fuel less,
/// then for each combination of smaller predicates its conjunction and its disjunction, leaving
/// out those that the abstractions rule out.
#[verifier::opaque]
pub open spec fn exact_fuel_of(levels: Seq<Seq<(UnaryRelation, AbstractionView)>>, fuel: nat) -> Seq<(UnaryRelation, AbstractionView)> {
    if fuel == 0 {
        all_unary_atoms().map_values(|a: UnaryRelationAtom| (UnaryRelation::Atom(a), ura_fact(UnaryRelation::Atom(a))))
    } else {
        levels[fuel - 1].map_values(|p: (UnaryRelation, AbstractionView)| opt_seq(ura_not(p.1, p.0))).flatten()
            + inexact_combinations_of(levels, fuel).map_values(
            |c: Seq<(UnaryRelation, AbstractionView)>|
                opt_seq(ura_and(firsts(c), seconds(c))) + opt_seq(ura_or(firsts(c), seconds(c))),
        ).flatten()
    }
}

/// Each level holds exactly the predicates of its fuel, with well-formed abstractions.
pub open spec fn levels_wf(v: Seq<Vec<(UnaryRelation, UnaryRelationAbstraction)>>) -> bool {
    &&& all_dup_inv(v)
    &&& forall|f: int| 0 <= f < v.len() ==> #[trigger] vec_views(v)[f] == exact_fuel_of(vec_views(v).take(f), f as nat)
}

proof fn lemma_levels_push(v: Seq<Vec<(UnaryRelation, UnaryRelationAbstraction)>>, exact: Vec<(UnaryRelation, UnaryRelationAbstraction)>)
    requires
        levels_wf(v),
        item_views(exact@) == exact_fuel_of(vec_views(v), v.len()),
        forall|i: int| 0 <= i < exact.len() ==> (#[trigger] exact[i]).1.wf(),
    ensures
        levels_wf(v.push(exact)),
        vec_views(v.push(exact)).take(v.len() as int) == vec_views(v),
{
    let before = vec_views(v);
    let after = vec_views(v.push(exact));
    assert(after =~= before.push(item_views(exact@)));
    assert(after.take(v.len() as int) =~= before);
    assert forall|g: int| 0 <= g < v.len() + 1 implies #[trigger] after[g] == exact_fuel_of(after.take(g), g as nat) by {
        if g < v.len() {
            assert(after.take(g) =~= before.take(g));
            assert(after[g] == before[g]);
        }
    }
    assert forall|i: int, j: int| 0 <= i < v.push(exact).len() && 0 <= j < v.push(exact)[i].len() implies (#[trigger] v.push(exact)[i][j]).dup_inv() by {
        if i < v.len() {
            assert(v.push(exact)[i] == v[i]);
        } else {
            assert(v.push(exact)[i] == exact);
        }
    }
}

/// The predicates enumerated so far, by fuel.
#[derive(Debug)]
pub struct ByFuel(pub Vec<Vec<(UnaryRelation, UnaryRelationAbstraction)>>);

impl Default for ByFuel {
    fn default() -> (r: Self)
        ensures
            r.wf(),
            r.0.len() == 0,
    {
        ByFuel(Vec::new())
    }
}

impl ByFuel {
    pub open spec fn levels(&self) -> Seq<Seq<(UnaryRelation, AbstractionView)>> {
        vec_views(self.0@)
    }

    /// Each level holds exactly the predicates of its fuel.
    pub open spec fn wf(&self) -> bool {
        levels_wf(self.0@)
    }

    /// Enumerates the predicates of each fuel up to `fuel` that are not enumerated yet, and
    /// returns them.
    pub fn advance(&mut self, fuel: usize) -> (r: Vec<(UnaryRelation, UnaryRelationAbstraction)>)
        requires
            old(self).wf(),
            fuel < usize::MAX,
        ensures
            final(self).wf(),
            final(self).0.len() == (if fuel < old(self).0.len() { old(self).0.len() as int } else { fuel + 1 }),
            final(self).levels().take(old(self).0.len() as int) == old(self).levels(),
            item_views(r@) == (if fuel < old(self).0.len() {
                Seq::<(UnaryRelation, AbstractionView)>::empty()
            } else {
                final(self).levels().subrange(old(self).0.len() as int, fuel + 1).flatten()
            }),
    {
        let len = self.0.len();
        let ghost old_levels = self.levels();
        let mut f: usize = len;
        while f <= fuel
            invariant
                len <= f,
                f <= fuel + 1 || f == len,
                fuel < usize::MAX,
                self.wf(),
                self.0.len() == f,
                self.levels().take(len as int) == old_levels,
            decreases fuel + 1 - f,
        {
            let exact = self.exact_fuel(f);
            let ghost before = self.levels();
            proof {
                lemma_levels_push(self.0@, exact);
                assert(self.levels().take(len as int) == before.take(len as int)) by {
                    let after = vec_views(self.0@.push(exact));
                    assert(after.take(len as int) =~= after.take(f as int).take(len as int));
                }
            }
            self.0.push(exact);
            f = f + 1;
        }
        let mut ret: Vec<(UnaryRelation, UnaryRelationAbstraction)> = Vec::new();
        let mut g: usize = len;
        while g <= fuel
            invariant
                len <= g,
                g <= fuel + 1 || g == len,
                fuel < usize::MAX,
                len <= fuel ==> self.0.len() == fuel + 1,
                self.wf(),
                item_views(ret@) == self.levels().subrange(len as int, g as int).flatten(),
            decreases fuel + 1 - g,
        {
            let level = &self.0[g];
            let ghost base = item_views(ret@);
            let mut i: usize = 0;
            while i < level.len()
                invariant
                    i <= level.len(),
                    item_views(ret@) == base + item_views(level@.take(i as int)),
                decreases level.len() - i,
            {
                let x = level[i].duplicate();
                proof {
                    assert(level@.take(i + 1) =~= level@.take(i as int).push(level@[i as int]));
                    assert(item_views(level@.take(i + 1)) =~= item_views(level@.take(i as int)).push(level@[i as int]@));
                    assert(item_views(ret@.push(x)) =~= item_views(ret@).push(x@));
                }
                ret.push(x);
                i = i + 1;
            }
            proof {
                let lv = self.levels();
                assert(level@.take(level.len() as int) =~= level@);
                assert(lv.subrange(len as int, g + 1) =~= lv.subrange(len as int, g as int).push(lv[g as int]));
                lv.subrange(len as int, g as int).lemma_flatten_push(lv[g as int]);
            }
            g = g + 1;
        }
        proof {
            if fuel < len {
                assert(self.levels().subrange(len as int, len as int) =~= Seq::<Seq<(UnaryRelation, AbstractionView)>>::empty());
            }
        }
        ret
    }

    fn exact_fuel(&self, fuel: usize) -> (r: Vec<(UnaryRelation, UnaryRelationAbstraction)>)
        requires
            self.0.len() == fuel,
            all_dup_inv(self.0@),
        ensures
            item_views(r@) == exact_fuel_of(self.levels(), fuel as nat),
            forall|i: int| 0 <= i < r.len() ==> (#[trigger] r[i]).1.wf(),
    {
        reveal(exact_fuel_of);
        let mut ret: Vec<(UnaryRelation, UnaryRelationAbstraction)> = Vec::new();
        if fuel == 0 {
            let atoms = all_atoms();
            let mut i: usize = 0;
            while i < atoms.len()
                invariant
                    i <= atoms.len(),
                    atoms@ == all_unary_atoms(),
                    forall|q: int| 0 <= q < ret.len() ==> (#[trigger] ret[q]).1.wf(),
                    item_views(ret@) == atoms@.take(i as int).map_values(
                        |a: UnaryRelationAtom| (UnaryRelation::Atom(a), ura_fact(UnaryRelation::Atom(a))),
                    ),
                decreases atoms.len() - i,
            {
                let it = UnaryRelation::Atom(atoms[i]);
                let ab = UnaryRelationAbstraction::fact(&it);
                proof {
                    assert(item_views(ret@.push((it, ab))) =~= item_views(ret@).push((it, ab@)));
                    assert(atoms@.take(i + 1) =~= atoms@.take(i as int).push(atoms@[i as int]));
                }
                ret.push((it, ab));
                i = i + 1;
            }
            assert(atoms@.take(atoms.len() as int) =~= atoms@);
            return ret;
        }
        let ghost lv = self.levels();
        let prev = &self.0[fuel - 1];
        let ghost pv = item_views(prev@);
        assert(pv == lv[fuel - 1]);
        let mut i: usize = 0;
        while i < prev.len()
            invariant
                i <= prev.len(),
                pv == item_views(prev@),
                forall|q: int| 0 <= q < prev.len() ==> (#[trigger] prev[q]).1.wf(),
                forall|q: int| 0 <= q < ret.len() ==> (#[trigger] ret[q]).1.wf(),
                item_views(ret@) == pv.take(i as int).map_values(|p: (UnaryRelation, AbstractionView)| opt_seq(ura_not(p.1, p.0))).flatten(),
            decreases prev.len() - i,
        {
            let ghost f = |p: (UnaryRelation, AbstractionView)| opt_seq(ura_not(p.1, p.0));
            let o = prev[i].1.not(&prev[i].0);
            proof {
                assert(pv.take(i + 1) =~= pv.take(i as int).push(pv[i as int]));
                assert(pv.take(i + 1).map_values(f) =~= pv.take(i as int).map_values(f).push(f(pv[i as int])));
                pv.take(i as int).map_values(f).lemma_flatten_push(f(pv[i as int]));
                assert(pv[i as int] == (prev@[i as int].0, prev@[i as int].1@));
            }
            match o {
                Some(x) => {
                    proof {
                        assert(item_views(ret@.push(x)) =~= item_views(ret@).push(x@));
                        assert(opt_seq(opt_view(Some(x))) =~= seq![x@]);
                    }
                    ret.push(x);
                },
                None => {
                    assert(f(pv[i as int]) =~= Seq::<(UnaryRelation, AbstractionView)>::empty());
                },
            }
            i = i + 1;
        }
        assert(pv.take(prev.len() as int) =~= pv);
        let ghost nots = item_views(ret@);
        let combinations = inexact_combinations(&self.0, fuel);
        let ghost cv = vec_views(combinations@);
        let ghost g = |c: Seq<(UnaryRelation, AbstractionView)>| opt_seq(ura_and(firsts(c), seconds(c))) + opt_seq(ura_or(firsts(c), seconds(c)));
        let mut k: usize = 0;
        while k < combinations.len()
            invariant
                k <= combinations.len(),
                cv == vec_views(combinations@),
                all_dup_inv(combinations@),
                forall|q: int| 0 <= q < ret.len() ==> (#[trigger] ret[q]).1.wf(),
                item_views(ret@) == nots + cv.take(k as int).map_values(g).flatten(),
                g == (|c: Seq<(UnaryRelation, AbstractionView)>| opt_seq(ura_and(firsts(c), seconds(c))) + opt_seq(ura_or(firsts(c), seconds(c)))),
            decreases combinations.len() - k,
        {
            let combination = &combinations[k];
            let ghost c = cv[k as int];
            let mut concterms: Vec<UnaryRelation> = Vec::new();
            let mut absterms: Vec<UnaryRelationAbstraction> = Vec::new();
            let mut j: usize = 0;
            while j < combination.len()
                invariant
                    j <= combination.len(),
                    c == item_views(combination@),
                    k < combinations.len(),
                    combination == combinations[k as int],
                    all_dup_inv(combinations@),
                    concterms.len() == j,
                    absterms.len() == j,
                    concterms@ == firsts(c.take(j as int)),
                    ura_views(absterms@) == seconds(c.take(j as int)),
                    forall|q: int| 0 <= q < absterms.len() ==> (#[trigger] absterms[q]).wf(),
                decreases combination.len() - j,
            {
                let t = UnaryRelation::duplicate(&combination[j].0);
                let a = combination[j].1.duplicate();
                proof {
                    assert(c[j as int] == (combination@[j as int].0, combination@[j as int].1@));
                    assert(combinations@[k as int][j as int].dup_inv());
                    assert(c.take(j + 1) =~= c.take(j as int).push(c[j as int]));
                    assert(concterms@.push(t) =~= firsts(c.take(j + 1)));
                    assert forall|q: int| 0 <= q < j + 1 implies #[trigger] ura_views(absterms@.push(a))[q] == seconds(c.take(j + 1))[q] by {
                        if q < j {
                            assert(ura_views(absterms@)[q] == seconds(c.take(j as int))[q]);
                        }
                    }
                    assert(ura_views(absterms@.push(a)) =~= seconds(c.take(j + 1)));
                }
                concterms.push(t);
                absterms.push(a);
                j = j + 1;
            }
            assert(c.take(combination.len() as int) =~= c);
            let concaband = UnaryRelationAbstraction::and(&concterms, &absterms);
            let concabor = UnaryRelationAbstraction::or(&concterms, &absterms);
            let ghost base = item_views(ret@);
            match concaband {
                Some(x) => {
                    proof {
                        assert(item_views(ret@.push(x)) =~= item_views(ret@).push(x@));
                    }
                    ret.push(x);
                },
                None => {},
            }
            let ghost mid = item_views(ret@);
            assert(mid == base + opt_seq(ura_and(firsts(c), seconds(c))));
            match concabor {
                Some(x) => {
                    proof {
                        assert(item_views(ret@.push(x)) =~= item_views(ret@).push(x@));
                    }
                    ret.push(x);
                },
                None => {},
            }
            proof {
                assert(item_views(ret@) =~= base + g(c));
                assert(cv.take(k + 1) =~= cv.take(k as int).push(c));
                assert(cv.take(k + 1).map_values(g) =~= cv.take(k as int).map_values(g).push(g(c)));
                cv.take(k as int).map_values(g).lemma_flatten_push(g(c));
            }
            k = k + 1;
        }
        assert(cv.take(combinations.len() as int) =~= cv);
        ret
    }
}

/// The unary predicates with bound binary relations, by fuel.
#[derive(Debug)]
pub struct UnaryRelationsWithBoundBinariesWithFuel(pub ByFuel);

/// Rules, by fuel.
#[derive(Debug)]
pub struct RulesWithFuel {
    pub rules_by_fuel: Vec<Vec<Rule>>,
}

impl Default for RulesWithFuel {
    fn default() -> (r: Self)
        ensures
            r.rules_by_fuel@.len() == 0,
    {
        RulesWithFuel { rules_by_fuel: Vec::new() }
    }
}

} // verus!
