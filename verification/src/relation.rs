//! Events of the RTI's traces and the unary and binary relations over them that the precedence
//! rules are written in.
use vstd::prelude::*;
use crate::conninfo::{
    add_ok_exec, strict_plus_ok_exec, add_ok, delay_le, delays_of, greatest, is_greatest, is_least, least, max_of, min_of, out_seq, second_components,
    seconds, spec_add, spec_strict_plus, src_and_delay, strict_plus_ok, tag_le, tag_lt, to_dest,
    ConnInfo, Delay, FedId, Tag,
};
use crate::conninfo::{dest_and_delay, from_src};

verus! {

/// The kinds of messages that the RTI sends or receives.
#[derive(Debug, Clone, Copy, PartialEq, Eq, Structural, Hash, PartialOrd, Ord)]
pub enum EventKind {
    RecvFedId,
    SendAck,
    SendTimestamp,
    RecvTimestamp,
    RecvNet,
    SendPortAbs,
    RecvPortAbs,
    SendPtag,
    SendTaggedMsg,
    RecvTaggedMsg,
    SendTag,
    RecvStopReq,
    SendStopReq,
    RecvStopReqRep,
    SendStopGrn,
    RecvLtc,
}

/// The position of an event in the trace that was observed first.
#[derive(Debug, Clone, Copy, PartialEq, Eq, Structural, Hash, PartialOrd, Ord)]
pub struct OgRank(pub u32);

impl OgRank {
    pub fn idx(&self) -> (r: usize)
        ensures
            r == self.0,
    {
        self.0 as usize
    }
}

/// An event that the RTI recorded.
#[derive(Debug, Clone, Copy, PartialEq, Eq, Structural, Hash, PartialOrd, Ord)]
pub struct ConcEvent {
    pub event: EventKind,
    pub tag: Tag,
    pub fedid: FedId,
    pub ogrank: OgRank,
}

/// A delay that can be computed from the connection information and a pair of federates.
#[derive(Debug, Clone, Copy, PartialEq, Eq, Structural, Hash, PartialOrd, Ord)]
pub enum DelayTerm {
    SmallestDelayBetween,
    SmallestDelayFrom,
    SmallestDelayFromSomeImmUpstreamFed,
    LargestDelayFrom,
    LargestDelayFromSomeImmUpstreamFed,
}

/// A tag that can be computed from an event.
#[derive(Debug, Clone, Copy, PartialEq, Eq, Structural, Hash, PartialOrd, Ord)]
pub enum Term {
    Tag,
    TagPlusDelay(DelayTerm),
    TagStrictPlusDelay(DelayTerm),
}

/// The atomic properties of pairs of events.
#[derive(Debug, Clone, Copy, PartialEq, Eq, Structural, Hash, PartialOrd, Ord)]
pub enum BinaryRelationAtom {
    LessThan(Term, Term),
    LessThanOrEqual(Term, Term),
    GreaterThanOrEqual(Term, Term),
    GreaterThan(Term, Term),
    Equal(Term, Term),
    FederateEquals,
    FederateZeroDelayDirectlyUpstreamOf,
    FederateDirectlyUpstreamOf,
}

/// The atomic properties of single events.
#[derive(Debug, Clone, Copy, PartialEq, Eq, Structural, Hash, PartialOrd, Ord)]
pub enum UnaryRelationAtom {
    FedHasNoneUpstreamWithDelayLessThanOrEqualCurrentTag,
    TagNonzero,
    TagFinite,
    EventIs(EventKind),
}

/// An event of an elaborated trace: either a recorded event, or the (virtual) first event that
/// satisfies a predicate, possibly the first one for each federate.
#[derive(Debug, PartialEq, Eq, Hash, PartialOrd, Ord)]
pub enum Event {
    Concrete(ConcEvent),
    First(UnaryRelation),
    FirstInEquivClass { proj: FedId, set: UnaryRelation },
}

/// A predicate on events.
#[derive(Debug, PartialEq, Eq, Hash, PartialOrd, Ord)]
pub enum UnaryRelation {
    Atom(UnaryRelationAtom),
    IsFirst(Box<BinaryRelation>),
    IsFirstForFederate(Box<BinaryRelation>),
    And(UnaryRelations),
    Or(UnaryRelations),
    Not(Box<UnaryRelation>),
    /// The binary relation with its second event bound.
    BoundMary(Box<Event>, Box<BinaryRelation>),
}

/// A list of predicates, the operands of a conjunction or a disjunction.
#[derive(Debug, PartialEq, Eq, Hash, PartialOrd, Ord)]
pub enum UnaryRelations {
    Nil,
    Cons(Box<UnaryRelation>, Box<UnaryRelations>),
}

/// A relation between an earlier event (first) and a later event (second).
#[derive(Debug, PartialEq, Eq, Hash, PartialOrd, Ord)]
pub enum BinaryRelation {
    Atom(BinaryRelationAtom),
    /// The first event is the first one that is related to the second event by the relation.
    IsFirst(Box<BinaryRelation>),
    /// The first event is the first one of its federate that is related to the second event.
    IsFirstForFederate(Box<BinaryRelation>),
    And(BinaryRelations),
    Or(BinaryRelations),
    Not(Box<BinaryRelation>),
    /// The predicate, applied to the first event.
    BoundMary(Box<UnaryRelation>),
}

/// A list of binary relations, the operands of a conjunction or a disjunction.
#[derive(Debug, PartialEq, Eq, Hash, PartialOrd, Ord)]
pub enum BinaryRelations {
    Nil,
    Cons(Box<BinaryRelation>, Box<BinaryRelations>),
}

// ---------------------------------------------------------------------------------------------
// Meaning of delay terms and terms
// ---------------------------------------------------------------------------------------------

/// The least element of `s`, if `s` is not empty.
pub open spec fn spec_least(s: Seq<Delay>) -> Option<Delay> {
    if s.len() == 0 {
        None
    } else {
        Some(choose|m: Delay| is_least(m, delays_of(s)))
    }
}

/// The greatest element of `s`, if `s` is not empty.
pub open spec fn spec_greatest(s: Seq<Delay>) -> Option<Delay> {
    if s.len() == 0 {
        None
    } else {
        Some(choose|m: Delay| is_greatest(m, delays_of(s)))
    }
}

proof fn lemma_least_is(r: Option<Delay>, s: Seq<Delay>)
    requires
        min_of(r, delays_of(s)),
    ensures
        r == spec_least(s),
{
    if s.len() == 0 {
        if r is Some {
            assert(delays_of(s).contains(r->0));
        }
    } else {
        assert(delays_of(s).contains(s[0]));
        let m = r->0;
        let c = choose|c: Delay| is_least(c, delays_of(s));
        assert(delay_le(m, c) && delay_le(c, m));
    }
}

proof fn lemma_greatest_is(r: Option<Delay>, s: Seq<Delay>)
    requires
        max_of(r, delays_of(s)),
    ensures
        r == spec_greatest(s),
{
    if s.len() == 0 {
        if r is Some {
            assert(delays_of(s).contains(r->0));
        }
    } else {
        assert(delays_of(s).contains(s[0]));
        let m = r->0;
        let c = choose|c: Delay| is_greatest(c, delays_of(s));
        assert(delay_le(m, c) && delay_le(c, m));
    }
}

/// Evaluating the delay term does not panic.
pub open spec fn delay_term_ok(dt: DelayTerm, fedid: FedId, ci: ConnInfo) -> bool {
    match dt {
        DelayTerm::LargestDelayFromSomeImmUpstreamFed => 0 <= fedid.0 < ci.fed2uds@.len(),
        _ => true,
    }
}

/// The value of a delay term for the federate `fedid` of an event and the pair `fedids` of
/// federates of the two events being compared.
pub open spec fn spec_delay_term(
    dt: DelayTerm,
    fedid: FedId,
    fedids: (FedId, FedId),
    ci: ConnInfo,
) -> Option<Delay> {
    match dt {
        DelayTerm::SmallestDelayBetween => ci.spec_get(fedids.0, fedids.1),
        DelayTerm::SmallestDelayFrom => spec_least(seconds(out_seq(ci, fedid))),
        DelayTerm::SmallestDelayFromSomeImmUpstreamFed => spec_least(
            seconds(ci.stdp2d.entries@.filter(to_dest(fedid)).map_values(src_and_delay())),
        ),
        DelayTerm::LargestDelayFrom => spec_greatest(seconds(out_seq(ci, fedid))),
        DelayTerm::LargestDelayFromSomeImmUpstreamFed => spec_greatest(ci.delays_into(fedid)),
    }
}

/// A nonempty sequence of delays has a least and a greatest one.
proof fn lemma_extremes_exist(s: Seq<Delay>)
    requires
        s.len() > 0,
    ensures
        exists|m: Delay| is_least(m, delays_of(s)),
        exists|m: Delay| is_greatest(m, delays_of(s)),
    decreases s.len(),
{
    let x = s.last();
    let t = s.drop_last();
    assert(s =~= t.push(x));
    assert(delays_of(s).contains(x));
    if t.len() == 0 {
        assert forall|d: Delay| delays_of(s).contains(d) implies d == x by {
            let i = choose|i: int| 0 <= i < s.len() && s[i] == d;
        }
        assert(is_least(x, delays_of(s)));
        assert(is_greatest(x, delays_of(s)));
    } else {
        lemma_extremes_exist(t);
        let lo = choose|m: Delay| is_least(m, delays_of(t));
        let hi = choose|m: Delay| is_greatest(m, delays_of(t));
        let i_lo = choose|i: int| 0 <= i < t.len() && t[i] == lo;
        let i_hi = choose|i: int| 0 <= i < t.len() && t[i] == hi;
        assert(s[i_lo] == lo && s[i_hi] == hi);
        assert forall|d: Delay| delays_of(s).contains(d) implies d == x || delays_of(t).contains(d) by {
            let i = choose|i: int| 0 <= i < s.len() && s[i] == d;
            if i < t.len() {
                assert(t[i] == d);
            }
        }
        let m_lo = if delay_le(lo, x) { lo } else { x };
        let m_hi = if delay_le(x, hi) { hi } else { x };
        assert(delays_of(s).contains(m_lo));
        assert(delays_of(s).contains(m_hi));
        assert(is_least(m_lo, delays_of(s)));
        assert(is_greatest(m_hi, delays_of(s)));
    }
}

/// The least of a sequence of delays is none exactly when it is empty, and otherwise one of them
/// that is not after any of them; the greatest likewise.
proof fn lemma_extremes(s: Seq<Delay>)
    ensures
        min_of(spec_least(s), delays_of(s)),
        max_of(spec_greatest(s), delays_of(s)),
{
    if s.len() == 0 {
        assert(delays_of(s) =~= Set::<Delay>::empty());
    } else {
        lemma_extremes_exist(s);
    }
}

/// The delays of the entries of the RTI's table that `pred` selects.
pub open spec fn table_delays(ci: ConnInfo, pred: spec_fn((FedId, FedId, Delay)) -> bool) -> Set<Delay> {
    Set::new(
        |d: Delay|
            exists|k: int|
                0 <= k < ci.stdp2d.entries@.len() && pred(ci.stdp2d.entries@[k]) && #[trigger] ci.stdp2d.entries@[k].2 == d,
    )
}

proof fn lemma_filtered_delays(
    ci: ConnInfo,
    pred: spec_fn((FedId, FedId, Delay)) -> bool,
    f: spec_fn((FedId, FedId, Delay)) -> (FedId, Delay),
)
    requires
        forall|e: (FedId, FedId, Delay)| #[trigger] f(e).1 == e.2,
    ensures
        delays_of(seconds(ci.stdp2d.entries@.filter(pred).map_values(f))) == table_delays(ci, pred),
{
    broadcast use vstd::seq_lib::group_filter_ensures;
    let es = ci.stdp2d.entries@;
    let fl = es.filter(pred);
    let s = seconds(fl.map_values(f));
    assert(s.len() == fl.len());
    assert forall|d: Delay| delays_of(s).contains(d) implies table_delays(ci, pred).contains(d) by {
        let i = choose|i: int| 0 <= i < s.len() && s[i] == d;
        assert(s[i] == f(fl[i]).1);
        assert(pred(fl[i]));
        assert(fl.contains(fl[i]));
        es.lemma_filter_contains_rev(pred, fl[i]);
        let k = choose|k: int| 0 <= k < es.len() && es[k] == fl[i];
        assert(es[k].2 == d);
    }
    assert forall|d: Delay| table_delays(ci, pred).contains(d) implies delays_of(s).contains(d) by {
        let k = choose|k: int| 0 <= k < es.len() && pred(es[k]) && #[trigger] es[k].2 == d;
        es.lemma_filter_contains(pred, k);
        let i = choose|i: int| 0 <= i < fl.len() && fl[i] == es[k];
        assert(s[i] == f(fl[i]).1);
        assert(s[i] == d);
    }
    assert(delays_of(s) =~= table_delays(ci, pred));
}

/// What each delay term denotes, in terms of the connections: the smallest delay between the
/// two federates; the least (or greatest) delay of the connections out of the federate; the
/// least delay of the connections into it, as the RTI knows them; and the greatest delay that
/// the federate knows of its incoming connections. Each is none exactly where there is no such
/// connection, and otherwise one of those delays that none of them comes before (or after).
pub proof fn lemma_delay_terms(fedid: FedId, fedids: (FedId, FedId), ci: ConnInfo)
    ensures
        spec_delay_term(DelayTerm::SmallestDelayBetween, fedid, fedids, ci) == ci.spec_get(fedids.0, fedids.1),
        min_of(
            spec_delay_term(DelayTerm::SmallestDelayFrom, fedid, fedids, ci),
            table_delays(ci, |e: (FedId, FedId, Delay)| e.0 == fedid),
        ),
        max_of(
            spec_delay_term(DelayTerm::LargestDelayFrom, fedid, fedids, ci),
            table_delays(ci, |e: (FedId, FedId, Delay)| e.0 == fedid),
        ),
        min_of(
            spec_delay_term(DelayTerm::SmallestDelayFromSomeImmUpstreamFed, fedid, fedids, ci),
            table_delays(ci, |e: (FedId, FedId, Delay)| e.1 == fedid),
        ),
        max_of(
            spec_delay_term(DelayTerm::LargestDelayFromSomeImmUpstreamFed, fedid, fedids, ci),
            delays_of(ci.delays_into(fedid)),
        ),
{
    let out = seconds(out_seq(ci, fedid));
    let into = seconds(ci.stdp2d.entries@.filter(to_dest(fedid)).map_values(src_and_delay()));
    lemma_extremes(out);
    lemma_extremes(into);
    lemma_extremes(ci.delays_into(fedid));
    lemma_filtered_delays(ci, from_src(fedid), dest_and_delay());
    lemma_filtered_delays(ci, to_dest(fedid), src_and_delay());
    assert(table_delays(ci, from_src(fedid)) =~= table_delays(ci, |e: (FedId, FedId, Delay)| e.0 == fedid));
    assert(table_delays(ci, to_dest(fedid)) =~= table_delays(ci, |e: (FedId, FedId, Delay)| e.1 == fedid));
}

impl DelayTerm {
    pub fn eval(&self, fedid: FedId, fedids: (FedId, FedId), conninfo: &ConnInfo) -> (r: Option<
        Delay,
    >)
        requires
            conninfo.wf(),
            delay_term_ok(*self, fedid, *conninfo),
        ensures
            r == spec_delay_term(*self, fedid, fedids, *conninfo),
    {
        match self {
            DelayTerm::SmallestDelayBetween => conninfo.get(fedids.0, fedids.1),
            DelayTerm::SmallestDelayFrom => {
                let out = conninfo.delays_out(fedid);
                let ds = second_components(&out);
                let r = least(&ds);
                proof {
                    lemma_least_is(r, ds@);
                }
                r
            },
            DelayTerm::SmallestDelayFromSomeImmUpstreamFed => {
                let into = conninfo.min_delays2dest(fedid);
                let ds = second_components(&into);
                let r = least(&ds);
                proof {
                    lemma_least_is(r, ds@);
                }
                r
            },
            DelayTerm::LargestDelayFrom => {
                let out = conninfo.delays_out(fedid);
                let ds = second_components(&out);
                let r = greatest(&ds);
                proof {
                    lemma_greatest_is(r, ds@);
                }
                r
            },
            DelayTerm::LargestDelayFromSomeImmUpstreamFed => {
                let ds = conninfo.delays_in(fedid);
                let r = greatest(&ds);
                proof {
                    lemma_greatest_is(r, ds@);
                }
                r
            },
        }
    }
}

/// Evaluating the term does not panic.
pub open spec fn term_ok(
    t: Term,
    fedid: FedId,
    tag: Tag,
    fedids: (FedId, FedId),
    ci: ConnInfo,
) -> bool {
    match t {
        Term::Tag => true,
        Term::TagPlusDelay(dt) => delay_term_ok(dt, fedid, ci) && match spec_delay_term(
            dt,
            fedid,
            fedids,
            ci,
        ) {
            Some(d) => add_ok(tag, d),
            None => true,
        },
        Term::TagStrictPlusDelay(dt) => delay_term_ok(dt, fedid, ci) && match spec_delay_term(
            dt,
            fedid,
            fedids,
            ci,
        ) {
            Some(d) => strict_plus_ok(tag, d),
            None => true,
        },
    }
}

/// The tag that a term denotes for an event of federate `fedid` at tag `tag`.
pub open spec fn spec_term(
    t: Term,
    fedid: FedId,
    tag: Tag,
    fedids: (FedId, FedId),
    ci: ConnInfo,
) -> Option<Tag> {
    match t {
        Term::Tag => Some(tag),
        Term::TagPlusDelay(dt) => match spec_delay_term(dt, fedid, fedids, ci) {
            Some(d) => Some(spec_add(tag, d)),
            None => None,
        },
        Term::TagStrictPlusDelay(dt) => match spec_delay_term(dt, fedid, fedids, ci) {
            Some(d) => Some(spec_strict_plus(tag, d)),
            None => None,
        },
    }
}

impl Term {
    pub fn eval(&self, fedid: FedId, tag: Tag, fedids: (FedId, FedId), conninfo: &ConnInfo) -> (r:
        Option<Tag>)
        requires
            conninfo.wf(),
            term_ok(*self, fedid, tag, fedids, *conninfo),
        ensures
            r == spec_term(*self, fedid, tag, fedids, *conninfo),
    {
        match self {
            Term::Tag => Some(tag),
            Term::TagPlusDelay(dt) => match dt.eval(fedid, fedids, conninfo) {
                Some(d) => Some(tag.add(d)),
                None => None,
            },
            Term::TagStrictPlusDelay(dt) => match dt.eval(fedid, fedids, conninfo) {
                Some(d) => Some(tag.strict_plus(d)),
                None => None,
            },
        }
    }
}

// ---------------------------------------------------------------------------------------------
// Meaning of relations
// ---------------------------------------------------------------------------------------------

/// The delays of the connections into `fedid`, in the RTI's order.
pub open spec fn delays_into_fed(ci: ConnInfo, fedid: FedId) -> Seq<(FedId, Delay)> {
    ci.stdp2d.entries@.filter(to_dest(fedid)).map_values(src_and_delay())
}

/// Evaluating the atom on the event does not panic.
pub open spec fn ua_ok(a: UnaryRelationAtom, e: Event) -> bool {
    match (a, e) {
        (UnaryRelationAtom::TagFinite, Event::Concrete(c)) => c.tag.0 != i64::MIN,
        _ => true,
    }
}

/// The meaning of an atomic predicate.
pub open spec fn ua_holds(a: UnaryRelationAtom, e: Event, ci: ConnInfo) -> bool {
    match e {
        Event::Concrete(c) => match a {
            UnaryRelationAtom::FedHasNoneUpstreamWithDelayLessThanOrEqualCurrentTag => {
                let m = delays_into_fed(ci, c.fedid);
                forall|k: int| 0 <= k < m.len() ==> tag_lt(c.tag, #[trigger] spec_add(Tag(0, 0), m[k].1))
            },
            UnaryRelationAtom::TagNonzero => c.tag != Tag(0, 0),
            UnaryRelationAtom::TagFinite => -1_000_000_000_000 < c.tag.0 < 1_000_000_000_000,
            UnaryRelationAtom::EventIs(k) => c.event == k,
        },
        _ => false,
    }
}

/// Evaluating both terms of a comparison does not panic.
pub open spec fn terms_ok(t0: Term, t1: Term, p: ConcEvent, c: ConcEvent, ci: ConnInfo) -> bool {
    &&& term_ok(t0, p.fedid, p.tag, (p.fedid, c.fedid), ci)
    &&& term_ok(t1, c.fedid, c.tag, (p.fedid, c.fedid), ci)
}

/// The comparison `rel` of the first term, evaluated on the earlier event, with the second term,
/// evaluated on the later event; false where a term is undefined.
pub open spec fn terms_compare(
    t0: Term,
    t1: Term,
    p: ConcEvent,
    c: ConcEvent,
    ci: ConnInfo,
    rel: spec_fn(Tag, Tag) -> bool,
) -> bool {
    match (
        spec_term(t0, p.fedid, p.tag, (p.fedid, c.fedid), ci),
        spec_term(t1, c.fedid, c.tag, (p.fedid, c.fedid), ci),
    ) {
        (Some(x), Some(y)) => rel(x, y),
        _ => false,
    }
}

/// Evaluating the atom on the pair of events does not panic.
pub open spec fn ba_ok(a: BinaryRelationAtom, e0: Event, e1: Event, ci: ConnInfo) -> bool {
    match (e0, e1) {
        (Event::Concrete(p), Event::Concrete(c)) => match a {
            BinaryRelationAtom::LessThan(t0, t1) => terms_ok(t0, t1, p, c, ci),
            BinaryRelationAtom::LessThanOrEqual(t0, t1) => terms_ok(t0, t1, p, c, ci),
            BinaryRelationAtom::GreaterThanOrEqual(t0, t1) => terms_ok(t0, t1, p, c, ci),
            BinaryRelationAtom::GreaterThan(t0, t1) => terms_ok(t0, t1, p, c, ci),
            BinaryRelationAtom::Equal(t0, t1) => terms_ok(t0, t1, p, c, ci),
            _ => true,
        },
        _ => true,
    }
}

/// The meaning of an atomic relation between an earlier event `e0` and a later event `e1`.
pub open spec fn ba_holds(a: BinaryRelationAtom, e0: Event, e1: Event, ci: ConnInfo) -> bool {
    match (e0, e1) {
        (Event::Concrete(p), Event::Concrete(c)) => match a {
            BinaryRelationAtom::FederateEquals => p.fedid == c.fedid,
            BinaryRelationAtom::FederateZeroDelayDirectlyUpstreamOf => ci.spec_get(p.fedid, c.fedid)
                == Some(Delay(0, 0)),
            BinaryRelationAtom::FederateDirectlyUpstreamOf => ci.spec_get(p.fedid, c.fedid) is Some,
            BinaryRelationAtom::LessThan(t0, t1) => terms_compare(
                t0,
                t1,
                p,
                c,
                ci,
                |x: Tag, y: Tag| tag_lt(x, y),
            ),
            BinaryRelationAtom::LessThanOrEqual(t0, t1) => terms_compare(
                t0,
                t1,
                p,
                c,
                ci,
                |x: Tag, y: Tag| tag_le(x, y),
            ),
            BinaryRelationAtom::GreaterThanOrEqual(t0, t1) => terms_compare(
                t0,
                t1,
                p,
                c,
                ci,
                |x: Tag, y: Tag| tag_le(y, x),
            ),
            BinaryRelationAtom::GreaterThan(t0, t1) => terms_compare(
                t0,
                t1,
                p,
                c,
                ci,
                |x: Tag, y: Tag| tag_lt(y, x),
            ),
            BinaryRelationAtom::Equal(t0, t1) => terms_compare(
                t0,
                t1,
                p,
                c,
                ci,
                |x: Tag, y: Tag| x == y,
            ),
        },
        _ => false,
    }
}

/// The meaning of a predicate.
pub open spec fn u_holds(r: UnaryRelation, e: Event, ci: ConnInfo) -> bool
    decreases r,
{
    match r {
        UnaryRelation::Atom(a) => ua_holds(a, e, ci),
        UnaryRelation::IsFirst(_) => false,
        UnaryRelation::IsFirstForFederate(_) => false,
        UnaryRelation::And(l) => ul_all(l, e, ci),
        UnaryRelation::Or(l) => ul_any(l, e, ci),
        UnaryRelation::Not(x) => !u_holds(*x, e, ci),
        UnaryRelation::BoundMary(e1, b) => b_holds(*b, e, *e1, ci),
    }
}

/// Every predicate of the list holds.
pub open spec fn ul_all(l: UnaryRelations, e: Event, ci: ConnInfo) -> bool
    decreases l,
{
    match l {
        UnaryRelations::Nil => true,
        UnaryRelations::Cons(h, t) => u_holds(*h, e, ci) && ul_all(*t, e, ci),
    }
}

/// Some predicate of the list holds.
pub open spec fn ul_any(l: UnaryRelations, e: Event, ci: ConnInfo) -> bool
    decreases l,
{
    match l {
        UnaryRelations::Nil => false,
        UnaryRelations::Cons(h, t) => u_holds(*h, e, ci) || ul_any(*t, e, ci),
    }
}

/// The meaning of a binary relation between an earlier event `e0` and a later event `e1`.
pub open spec fn b_holds(r: BinaryRelation, e0: Event, e1: Event, ci: ConnInfo) -> bool
    decreases r,
{
    match r {
        BinaryRelation::Atom(a) => ba_holds(a, e0, e1, ci),
        BinaryRelation::IsFirst(x) => match e0 {
            Event::First(other) => other == UnaryRelation::BoundMary(Box::new(e1), x),
            _ => false,
        },
        BinaryRelation::IsFirstForFederate(x) => match e0 {
            Event::FirstInEquivClass { proj: _, set } => set == UnaryRelation::BoundMary(
                Box::new(e1),
                x,
            ),
            _ => false,
        },
        BinaryRelation::And(l) => bl_all(l, e0, e1, ci),
        BinaryRelation::Or(l) => bl_any(l, e0, e1, ci),
        BinaryRelation::Not(x) => !b_holds(*x, e0, e1, ci),
        BinaryRelation::BoundMary(u) => u_holds(*u, e0, ci),
    }
}

/// Every relation of the list holds.
pub open spec fn bl_all(l: BinaryRelations, e0: Event, e1: Event, ci: ConnInfo) -> bool
    decreases l,
{
    match l {
        BinaryRelations::Nil => true,
        BinaryRelations::Cons(h, t) => b_holds(*h, e0, e1, ci) && bl_all(*t, e0, e1, ci),
    }
}

/// Some relation of the list holds.
pub open spec fn bl_any(l: BinaryRelations, e0: Event, e1: Event, ci: ConnInfo) -> bool
    decreases l,
{
    match l {
        BinaryRelations::Nil => false,
        BinaryRelations::Cons(h, t) => b_holds(*h, e0, e1, ci) || bl_any(*t, e0, e1, ci),
    }
}

/// The operands of a conjunction or disjunction of predicates, in order.
pub open spec fn u_list(l: UnaryRelations) -> Seq<UnaryRelation>
    decreases l,
{
    match l {
        UnaryRelations::Nil => seq![],
        UnaryRelations::Cons(h, t) => seq![*h] + u_list(*t),
    }
}

/// The operands of a conjunction or disjunction of relations, in order.
pub open spec fn b_list(l: BinaryRelations) -> Seq<BinaryRelation>
    decreases l,
{
    match l {
        BinaryRelations::Nil => seq![],
        BinaryRelations::Cons(h, t) => seq![*h] + b_list(*t),
    }
}

proof fn lemma_ul_all_any(l: UnaryRelations, e: Event, ci: ConnInfo)
    ensures
        ul_all(l, e, ci) == (forall|i: int| 0 <= i < u_list(l).len() ==> #[trigger] u_holds(u_list(l)[i], e, ci)),
        ul_any(l, e, ci) == (exists|i: int| 0 <= i < u_list(l).len() && #[trigger] u_holds(u_list(l)[i], e, ci)),
    decreases l,
{
    match l {
        UnaryRelations::Nil => {},
        UnaryRelations::Cons(h, t) => {
            lemma_ul_all_any(*t, e, ci);
            let s = u_list(l);
            assert(s[0] == *h);
            assert forall|i: int| 0 <= i < u_list(*t).len() implies s[i + 1] == u_list(*t)[i] by {}
            if ul_any(l, e, ci) && !u_holds(*h, e, ci) {
                let i = choose|i: int| 0 <= i < u_list(*t).len() && #[trigger] u_holds(u_list(*t)[i], e, ci);
                assert(u_holds(s[i + 1], e, ci));
            }
            if exists|i: int| 0 <= i < s.len() && #[trigger] u_holds(s[i], e, ci) {
                let i = choose|i: int| 0 <= i < s.len() && #[trigger] u_holds(s[i], e, ci);
                if i > 0 {
                    assert(u_holds(u_list(*t)[i - 1], e, ci));
                }
            }
            if forall|i: int| 0 <= i < s.len() ==> #[trigger] u_holds(s[i], e, ci) {
                assert(u_holds(s[0], e, ci));
                assert forall|i: int| 0 <= i < u_list(*t).len() implies #[trigger] u_holds(u_list(*t)[i], e, ci) by {
                    assert(u_holds(s[i + 1], e, ci));
                }
            }
        },
    }
}

proof fn lemma_bl_all_any(l: BinaryRelations, e0: Event, e1: Event, ci: ConnInfo)
    ensures
        bl_all(l, e0, e1, ci) == (forall|i: int| 0 <= i < b_list(l).len() ==> #[trigger] b_holds(b_list(l)[i], e0, e1, ci)),
        bl_any(l, e0, e1, ci) == (exists|i: int| 0 <= i < b_list(l).len() && #[trigger] b_holds(b_list(l)[i], e0, e1, ci)),
    decreases l,
{
    match l {
        BinaryRelations::Nil => {},
        BinaryRelations::Cons(h, t) => {
            lemma_bl_all_any(*t, e0, e1, ci);
            let s = b_list(l);
            assert(s[0] == *h);
            assert forall|i: int| 0 <= i < b_list(*t).len() implies s[i + 1] == b_list(*t)[i] by {}
            if bl_any(l, e0, e1, ci) && !b_holds(*h, e0, e1, ci) {
                let i = choose|i: int| 0 <= i < b_list(*t).len() && #[trigger] b_holds(b_list(*t)[i], e0, e1, ci);
                assert(b_holds(s[i + 1], e0, e1, ci));
            }
            if exists|i: int| 0 <= i < s.len() && #[trigger] b_holds(s[i], e0, e1, ci) {
                let i = choose|i: int| 0 <= i < s.len() && #[trigger] b_holds(s[i], e0, e1, ci);
                if i > 0 {
                    assert(b_holds(b_list(*t)[i - 1], e0, e1, ci));
                }
            }
            if forall|i: int| 0 <= i < s.len() ==> #[trigger] b_holds(s[i], e0, e1, ci) {
                assert(b_holds(s[0], e0, e1, ci));
                assert forall|i: int| 0 <= i < b_list(*t).len() implies #[trigger] b_holds(b_list(*t)[i], e0, e1, ci) by {
                    assert(b_holds(s[i + 1], e0, e1, ci));
                }
            }
        },
    }
}

/// A conjunction of predicates holds when all its operands hold, a disjunction when some operand
/// holds, and a negation when its operand does not.
pub proof fn lemma_unary_connectives(l: UnaryRelations, r: UnaryRelation, e: Event, ci: ConnInfo)
    ensures
        u_holds(UnaryRelation::And(l), e, ci) == (forall|i: int|
            0 <= i < u_list(l).len() ==> #[trigger] u_holds(u_list(l)[i], e, ci)),
        u_holds(UnaryRelation::Or(l), e, ci) == (exists|i: int|
            0 <= i < u_list(l).len() && #[trigger] u_holds(u_list(l)[i], e, ci)),
        u_holds(UnaryRelation::Not(Box::new(r)), e, ci) == !u_holds(r, e, ci),
{
    lemma_ul_all_any(l, e, ci);
}

/// A conjunction of relations holds when all its operands hold, a disjunction when some operand
/// holds, and a negation when its operand does not.
pub proof fn lemma_binary_connectives(l: BinaryRelations, r: BinaryRelation, e0: Event, e1: Event, ci: ConnInfo)
    ensures
        b_holds(BinaryRelation::And(l), e0, e1, ci) == (forall|i: int|
            0 <= i < b_list(l).len() ==> #[trigger] b_holds(b_list(l)[i], e0, e1, ci)),
        b_holds(BinaryRelation::Or(l), e0, e1, ci) == (exists|i: int|
            0 <= i < b_list(l).len() && #[trigger] b_holds(b_list(l)[i], e0, e1, ci)),
        b_holds(BinaryRelation::Not(Box::new(r)), e0, e1, ci) == !b_holds(r, e0, e1, ci),
{
    lemma_bl_all_any(l, e0, e1, ci);
}

/// Binding the second event of a relation gives a predicate of the first event; a predicate
/// made a relation speaks of the first event.
pub proof fn lemma_bound_relations(b: BinaryRelation, u: UnaryRelation, e1: Event, e2: Event, ci: ConnInfo)
    ensures
        u_holds(UnaryRelation::BoundMary(Box::new(e2), Box::new(b)), e1, ci) == b_holds(b, e1, e2, ci),
        b_holds(BinaryRelation::BoundMary(Box::new(u)), e1, e2, ci) == u_holds(u, e1, ci),
{
}

/// How the comparisons of tags behave on two recorded events, where the first term denotes the
/// tag `x` for the earlier event and the second the tag `y` for the later one: they follow the
/// lexicographic order of tags (time first, then microstep), so that "at least" holds of equal
/// tags and "greater" does not; a comparison involving a term that denotes no tag holds nowhere.
pub proof fn lemma_tag_comparisons(t0: Term, t1: Term, p: ConcEvent, c: ConcEvent, ci: ConnInfo)
    ensures
        ({
            let e0 = Event::Concrete(p);
            let e1 = Event::Concrete(c);
            let lt = ba_holds(BinaryRelationAtom::LessThan(t0, t1), e0, e1, ci);
            let le = ba_holds(BinaryRelationAtom::LessThanOrEqual(t0, t1), e0, e1, ci);
            let ge = ba_holds(BinaryRelationAtom::GreaterThanOrEqual(t0, t1), e0, e1, ci);
            let gt = ba_holds(BinaryRelationAtom::GreaterThan(t0, t1), e0, e1, ci);
            let eq = ba_holds(BinaryRelationAtom::Equal(t0, t1), e0, e1, ci);
            &&& le == (lt || eq)
            &&& ge == (gt || eq)
            &&& !(lt && gt)
            &&& !(lt && eq)
            &&& !(gt && eq)
            &&& match (
                spec_term(t0, p.fedid, p.tag, (p.fedid, c.fedid), ci),
                spec_term(t1, c.fedid, c.tag, (p.fedid, c.fedid), ci),
            ) {
                (Some(x), Some(y)) => {
                    &&& lt == (x.0 < y.0 || (x.0 == y.0 && x.1 < y.1))
                    &&& le == (x.0 < y.0 || (x.0 == y.0 && x.1 <= y.1))
                    &&& ge == (y.0 < x.0 || (y.0 == x.0 && y.1 <= x.1))
                    &&& gt == (y.0 < x.0 || (y.0 == x.0 && y.1 < x.1))
                    &&& eq == (x.0 == y.0 && x.1 == y.1)
                    &&& (lt || eq || gt)
                },
                _ => !lt && !le && !ge && !gt && !eq,
            }
        }),
{
}

/// The tags of the two recorded events themselves, compared: the earlier event's tag is at
/// least the later one's exactly when the later one's time is smaller, or equal with a
/// microstep that is not greater.
pub proof fn lemma_event_tag_comparisons(p: ConcEvent, c: ConcEvent, ci: ConnInfo)
    ensures
        ba_holds(BinaryRelationAtom::GreaterThanOrEqual(Term::Tag, Term::Tag), Event::Concrete(p), Event::Concrete(c), ci)
            == (c.tag.0 < p.tag.0 || (c.tag.0 == p.tag.0 && c.tag.1 <= p.tag.1)),
        ba_holds(BinaryRelationAtom::GreaterThan(Term::Tag, Term::Tag), Event::Concrete(p), Event::Concrete(c), ci)
            == (c.tag.0 < p.tag.0 || (c.tag.0 == p.tag.0 && c.tag.1 < p.tag.1)),
        ba_holds(BinaryRelationAtom::LessThanOrEqual(Term::Tag, Term::Tag), Event::Concrete(p), Event::Concrete(c), ci)
            == (p.tag.0 < c.tag.0 || (p.tag.0 == c.tag.0 && p.tag.1 <= c.tag.1)),
        ba_holds(BinaryRelationAtom::LessThan(Term::Tag, Term::Tag), Event::Concrete(p), Event::Concrete(c), ci)
            == (p.tag.0 < c.tag.0 || (p.tag.0 == c.tag.0 && p.tag.1 < c.tag.1)),
        ba_holds(BinaryRelationAtom::Equal(Term::Tag, Term::Tag), Event::Concrete(p), Event::Concrete(c), ci)
            == (p.tag == c.tag),
{
}

/// The atomic relations between the federates of two recorded events: the same federate; a
/// connection from the earlier event's federate to the later one's in the RTI's table; and such a
/// connection without delay.
pub proof fn lemma_federate_relations(p: ConcEvent, c: ConcEvent, ci: ConnInfo)
    requires
        ci.wf(),
    ensures
        ba_holds(BinaryRelationAtom::FederateEquals, Event::Concrete(p), Event::Concrete(c), ci) == (p.fedid == c.fedid),
        ba_holds(BinaryRelationAtom::FederateDirectlyUpstreamOf, Event::Concrete(p), Event::Concrete(c), ci)
            == exists|k: int| 0 <= k < ci.stdp2d.entries@.len() && #[trigger] ci.stdp2d.entries@[k].0 == p.fedid
                && ci.stdp2d.entries@[k].1 == c.fedid,
        ba_holds(BinaryRelationAtom::FederateZeroDelayDirectlyUpstreamOf, Event::Concrete(p), Event::Concrete(c), ci)
            == exists|k: int| 0 <= k < ci.stdp2d.entries@.len() && #[trigger] ci.stdp2d.entries@[k].0 == p.fedid
                && ci.stdp2d.entries@[k].1 == c.fedid && ci.stdp2d.entries@[k].2 == Delay(0, 0),
        ({
            let r = spec_delay_term(DelayTerm::SmallestDelayBetween, p.fedid, (p.fedid, c.fedid), ci);
            &&& r is None <==> !exists|k: int| 0 <= k < ci.stdp2d.entries@.len() && #[trigger] ci.stdp2d.entries@[k].0
                == p.fedid && ci.stdp2d.entries@[k].1 == c.fedid
            &&& r matches Some(d) ==> exists|k: int| 0 <= k < ci.stdp2d.entries@.len() && #[trigger] ci.stdp2d.entries@[k].0
                == p.fedid && ci.stdp2d.entries@[k].1 == c.fedid && ci.stdp2d.entries@[k].2 == d
        }),
{
    let es = ci.stdp2d.entries@;
    if exists|k: int| 0 <= k < es.len() && es[k].0 == p.fedid && es[k].1 == c.fedid {
        let k = choose|k: int| 0 <= k < es.len() && es[k].0 == p.fedid && es[k].1 == c.fedid;
        assert forall|j: int| 0 <= j < es.len() && #[trigger] es[j].0 == p.fedid && es[j].1 == c.fedid implies j == k by {
            if j != k {
                assert(!(es[j].0 == es[k].0 && es[j].1 == es[k].1));
            }
        }
    }
}

/// The atomic predicates on a recorded event: its tag is nonzero unless both its time and its
/// microstep are zero, it is of kind `k` exactly when its kind is `k`, and its tag is finite when
/// its time is less than 10^12 in absolute value; on a virtual event no
/// atomic predicate holds, and no atomic relation holds of a pair with a virtual event.
pub proof fn lemma_atoms_on_events(c: ConcEvent, k: EventKind, e: Event, other: Event, ci: ConnInfo)
    ensures
        ua_holds(UnaryRelationAtom::TagNonzero, Event::Concrete(c), ci) == (c.tag.0 != 0 || c.tag.1 != 0),
        ua_holds(UnaryRelationAtom::EventIs(k), Event::Concrete(c), ci) == (c.event == k),
        ua_holds(UnaryRelationAtom::TagFinite, Event::Concrete(c), ci) == (c.tag.0 < 1_000_000_000_000 && -c.tag.0
            < 1_000_000_000_000),
        !(e is Concrete) ==> forall|a: UnaryRelationAtom| !#[trigger] ua_holds(a, e, ci),
        !(e is Concrete) ==> forall|a: BinaryRelationAtom|
            !#[trigger] ba_holds(a, e, other, ci) && !ba_holds(a, other, e, ci),
{
}

/// Evaluating the predicate on the event does not panic: a predicate of the form `IsFirst` is not
/// evaluated on a virtual first event, and no term overflows.
pub open spec fn u_ok(r: UnaryRelation, e: Event, ci: ConnInfo) -> bool
    decreases r,
{
    match r {
        UnaryRelation::Atom(a) => ua_ok(a, e),
        UnaryRelation::IsFirst(_) => !(e is First),
        UnaryRelation::IsFirstForFederate(_) => !(e is FirstInEquivClass),
        UnaryRelation::And(l) => ul_ok_all(l, e, ci),
        UnaryRelation::Or(l) => ul_ok_any(l, e, ci),
        UnaryRelation::Not(x) => u_ok(*x, e, ci),
        UnaryRelation::BoundMary(e1, b) => b_ok(*b, e, *e1, ci),
    }
}

/// Evaluating the conjunction of the list does not panic (it stops at the first false operand).
pub open spec fn ul_ok_all(l: UnaryRelations, e: Event, ci: ConnInfo) -> bool
    decreases l,
{
    match l {
        UnaryRelations::Nil => true,
        UnaryRelations::Cons(h, t) => u_ok(*h, e, ci) && (u_holds(*h, e, ci) ==> ul_ok_all(
            *t,
            e,
            ci,
        )),
    }
}

/// Evaluating the disjunction of the list does not panic (it stops at the first true operand).
pub open spec fn ul_ok_any(l: UnaryRelations, e: Event, ci: ConnInfo) -> bool
    decreases l,
{
    match l {
        UnaryRelations::Nil => true,
        UnaryRelations::Cons(h, t) => u_ok(*h, e, ci) && (!u_holds(*h, e, ci) ==> ul_ok_any(
            *t,
            e,
            ci,
        )),
    }
}

/// Evaluating the relation on the pair of events does not panic.
pub open spec fn b_ok(r: BinaryRelation, e0: Event, e1: Event, ci: ConnInfo) -> bool
    decreases r,
{
    match r {
        BinaryRelation::Atom(a) => ba_ok(a, e0, e1, ci),
        BinaryRelation::IsFirst(_) => true,
        BinaryRelation::IsFirstForFederate(_) => true,
        BinaryRelation::And(l) => bl_ok_all(l, e0, e1, ci),
        BinaryRelation::Or(l) => bl_ok_any(l, e0, e1, ci),
        BinaryRelation::Not(x) => b_ok(*x, e0, e1, ci),
        BinaryRelation::BoundMary(u) => u_ok(*u, e0, ci),
    }
}

pub open spec fn bl_ok_all(l: BinaryRelations, e0: Event, e1: Event, ci: ConnInfo) -> bool
    decreases l,
{
    match l {
        BinaryRelations::Nil => true,
        BinaryRelations::Cons(h, t) => b_ok(*h, e0, e1, ci) && (b_holds(*h, e0, e1, ci)
            ==> bl_ok_all(*t, e0, e1, ci)),
    }
}

pub open spec fn bl_ok_any(l: BinaryRelations, e0: Event, e1: Event, ci: ConnInfo) -> bool
    decreases l,
{
    match l {
        BinaryRelations::Nil => true,
        BinaryRelations::Cons(h, t) => b_ok(*h, e0, e1, ci) && (!b_holds(*h, e0, e1, ci)
            ==> bl_ok_any(*t, e0, e1, ci)),
    }
}

// ---------------------------------------------------------------------------------------------
// Evaluation
// ---------------------------------------------------------------------------------------------

fn ua_eval(a: &UnaryRelationAtom, e: &Event, conninfo: &ConnInfo) -> (r: bool)
    requires
        conninfo.wf(),
        ua_ok(*a, *e),
    ensures
        r == ua_holds(*a, *e, *conninfo),
{
    match e {
        Event::Concrete(c) => match a {
            UnaryRelationAtom::FedHasNoneUpstreamWithDelayLessThanOrEqualCurrentTag => {
                let m = conninfo.min_delays2dest(c.fedid);
                let mut k: usize = 0;
                while k < m.len()
                    invariant
                        k <= m@.len(),
                        m@ == delays_into_fed(*conninfo, c.fedid),
                        *e == Event::Concrete(*c),
                        *a == UnaryRelationAtom::FedHasNoneUpstreamWithDelayLessThanOrEqualCurrentTag,
                        forall|j: int|
                            0 <= j < k ==> tag_lt(c.tag, #[trigger] spec_add(Tag(0, 0), m@[j].1)),
                    decreases m@.len() - k,
                {
                    let d = m[k].1;
                    proof {
                        crate::conninfo::lemma_wrap_i64(d.0);
                    }
                    let sum = Tag(0, 0).add(d);
                    if !c.tag.lt(&sum) {
                        assert(!tag_lt(c.tag, spec_add(Tag(0, 0), m@[k as int].1)));
                        return false;
                    }
                    k += 1;
                }
                true
            },
            UnaryRelationAtom::TagNonzero => !(c.tag.0 == 0 && c.tag.1 == 0),
            UnaryRelationAtom::TagFinite => {
                let t = c.tag.0;
                let abs = if t < 0 {
                    -t
                } else {
                    t
                };
                abs < 1_000_000_000_000
            },
            UnaryRelationAtom::EventIs(k) => c.event == *k,
        },
        _ => false,
    }
}

fn ba_eval(a: &BinaryRelationAtom, e0: &Event, e1: &Event, conninfo: &ConnInfo) -> (r: bool)
    requires
        conninfo.wf(),
        ba_ok(*a, *e0, *e1, *conninfo),
    ensures
        r == ba_holds(*a, *e0, *e1, *conninfo),
{
    match (e0, e1) {
        (Event::Concrete(p), Event::Concrete(c)) => {
            let fedids = (p.fedid, c.fedid);
            match a {
                BinaryRelationAtom::FederateEquals => p.fedid == c.fedid,
                BinaryRelationAtom::FederateZeroDelayDirectlyUpstreamOf => match conninfo.get(
                    p.fedid,
                    c.fedid,
                ) {
                    Some(d) => d.0 == 0 && d.1 == 0,
                    None => false,
                },
                BinaryRelationAtom::FederateDirectlyUpstreamOf => conninfo.get(
                    p.fedid,
                    c.fedid,
                ).is_some(),
                BinaryRelationAtom::LessThan(t0, t1) => match (
                    t0.eval(p.fedid, p.tag, fedids, conninfo),
                    t1.eval(c.fedid, c.tag, fedids, conninfo),
                ) {
                    (Some(x), Some(y)) => x.lt(&y),
                    _ => false,
                },
                BinaryRelationAtom::LessThanOrEqual(t0, t1) => match (
                    t0.eval(p.fedid, p.tag, fedids, conninfo),
                    t1.eval(c.fedid, c.tag, fedids, conninfo),
                ) {
                    (Some(x), Some(y)) => x.le(&y),
                    _ => false,
                },
                BinaryRelationAtom::GreaterThanOrEqual(t0, t1) => match (
                    t0.eval(p.fedid, p.tag, fedids, conninfo),
                    t1.eval(c.fedid, c.tag, fedids, conninfo),
                ) {
                    (Some(x), Some(y)) => y.le(&x),
                    _ => false,
                },
                BinaryRelationAtom::GreaterThan(t0, t1) => match (
                    t0.eval(p.fedid, p.tag, fedids, conninfo),
                    t1.eval(c.fedid, c.tag, fedids, conninfo),
                ) {
                    (Some(x), Some(y)) => y.lt(&x),
                    _ => false,
                },
                BinaryRelationAtom::Equal(t0, t1) => match (
                    t0.eval(p.fedid, p.tag, fedids, conninfo),
                    t1.eval(c.fedid, c.tag, fedids, conninfo),
                ) {
                    (Some(x), Some(y)) => x == y,
                    _ => false,
                },
            }
        },
        _ => false,
    }
}

fn u_eval(r: &UnaryRelation, e: &Event, conninfo: &ConnInfo) -> (res: bool)
    requires
        conninfo.wf(),
        u_ok(*r, *e, *conninfo),
    ensures
        res == u_holds(*r, *e, *conninfo),
    decreases r,
{
    match r {
        UnaryRelation::Atom(a) => ua_eval(a, e, conninfo),
        UnaryRelation::IsFirst(_) => false,
        UnaryRelation::IsFirstForFederate(_) => false,
        UnaryRelation::And(l) => ul_all_eval(l, e, conninfo),
        UnaryRelation::Or(l) => ul_any_eval(l, e, conninfo),
        UnaryRelation::Not(x) => !u_eval(x, e, conninfo),
        UnaryRelation::BoundMary(e1, b) => b_eval(b, e, e1, conninfo),
    }
}

fn ul_all_eval(l: &UnaryRelations, e: &Event, conninfo: &ConnInfo) -> (res: bool)
    requires
        conninfo.wf(),
        ul_ok_all(*l, *e, *conninfo),
    ensures
        res == ul_all(*l, *e, *conninfo),
    decreases l,
{
    match l {
        UnaryRelations::Nil => true,
        UnaryRelations::Cons(h, t) => u_eval(h, e, conninfo) && ul_all_eval(t, e, conninfo),
    }
}

fn ul_any_eval(l: &UnaryRelations, e: &Event, conninfo: &ConnInfo) -> (res: bool)
    requires
        conninfo.wf(),
        ul_ok_any(*l, *e, *conninfo),
    ensures
        res == ul_any(*l, *e, *conninfo),
    decreases l,
{
    match l {
        UnaryRelations::Nil => false,
        UnaryRelations::Cons(h, t) => u_eval(h, e, conninfo) || ul_any_eval(t, e, conninfo),
    }
}

fn b_eval(r: &BinaryRelation, e0: &Event, e1: &Event, conninfo: &ConnInfo) -> (res: bool)
    requires
        conninfo.wf(),
        b_ok(*r, *e0, *e1, *conninfo),
    ensures
        res == b_holds(*r, *e0, *e1, *conninfo),
    decreases r,
{
    match r {
        BinaryRelation::Atom(a) => ba_eval(a, e0, e1, conninfo),
        BinaryRelation::IsFirst(x) => match e0 {
            Event::First(other) => match other {
                UnaryRelation::BoundMary(oe, ob) => event_eq(oe, e1) && binary_eq(ob, x),
                _ => false,
            },
            _ => false,
        },
        BinaryRelation::IsFirstForFederate(x) => match e0 {
            Event::FirstInEquivClass { proj: _, set } => match set {
                UnaryRelation::BoundMary(oe, ob) => event_eq(oe, e1) && binary_eq(ob, x),
                _ => false,
            },
            _ => false,
        },
        BinaryRelation::And(l) => bl_all_eval(l, e0, e1, conninfo),
        BinaryRelation::Or(l) => bl_any_eval(l, e0, e1, conninfo),
        BinaryRelation::Not(x) => !b_eval(x, e0, e1, conninfo),
        BinaryRelation::BoundMary(u) => u_eval(u, e0, conninfo),
    }
}

fn bl_all_eval(l: &BinaryRelations, e0: &Event, e1: &Event, conninfo: &ConnInfo) -> (res: bool)
    requires
        conninfo.wf(),
        bl_ok_all(*l, *e0, *e1, *conninfo),
    ensures
        res == bl_all(*l, *e0, *e1, *conninfo),
    decreases l,
{
    match l {
        BinaryRelations::Nil => true,
        BinaryRelations::Cons(h, t) => b_eval(h, e0, e1, conninfo) && bl_all_eval(
            t,
            e0,
            e1,
            conninfo,
        ),
    }
}

fn bl_any_eval(l: &BinaryRelations, e0: &Event, e1: &Event, conninfo: &ConnInfo) -> (res: bool)
    requires
        conninfo.wf(),
        bl_ok_any(*l, *e0, *e1, *conninfo),
    ensures
        res == bl_any(*l, *e0, *e1, *conninfo),
    decreases l,
{
    match l {
        BinaryRelations::Nil => false,
        BinaryRelations::Cons(h, t) => b_eval(h, e0, e1, conninfo) || bl_any_eval(
            t,
            e0,
            e1,
            conninfo,
        ),
    }
}

impl UnaryRelationAtom {
    /// Whether the event has the property.
    pub fn holds(&self, e: &[Event; 1], conninfo: &ConnInfo) -> (r: bool)
        requires
            conninfo.wf(),
            ua_ok(*self, e[0]),
        ensures
            r == ua_holds(*self, e[0], *conninfo),
    {
        ua_eval(self, &e[0], conninfo)
    }
}

impl BinaryRelationAtom {
    /// Whether the earlier event `e[0]` and the later event `e[1]` are in the relation.
    pub fn holds(&self, e: &[Event; 2], conninfo: &ConnInfo) -> (r: bool)
        requires
            conninfo.wf(),
            ba_ok(*self, e[0], e[1], *conninfo),
        ensures
            r == ba_holds(*self, e[0], e[1], *conninfo),
    {
        ba_eval(self, &e[0], &e[1], conninfo)
    }
}

impl UnaryRelation {
    /// Whether the event satisfies the predicate.
    pub fn holds(&self, chronological_events: &[Event; 1], ctx: &ConnInfo) -> (r: bool)
        requires
            ctx.wf(),
            u_ok(*self, chronological_events[0], *ctx),
        ensures
            r == u_holds(*self, chronological_events[0], *ctx),
    {
        u_eval(self, &chronological_events[0], ctx)
    }
}

impl BinaryRelation {
    /// Whether the earlier event `chronological_events[0]` and the later event
    /// `chronological_events[1]` are in the relation.
    pub fn holds(&self, chronological_events: &[Event; 2], ctx: &ConnInfo) -> (r: bool)
        requires
            ctx.wf(),
            b_ok(*self, chronological_events[0], chronological_events[1], *ctx),
        ensures
            r == b_holds(*self, chronological_events[0], chronological_events[1], *ctx),
    {
        b_eval(self, &chronological_events[0], &chronological_events[1], ctx)
    }
}

// ---------------------------------------------------------------------------------------------
// Structural equality and copies
// ---------------------------------------------------------------------------------------------

// ---------------------------------------------------------------------------------------------
// Whether evaluation can go through
// ---------------------------------------------------------------------------------------------

fn term_ok_exec(t: &Term, fedid: FedId, tag: Tag, fedids: (FedId, FedId), conninfo: &ConnInfo) -> (b: bool)
    requires
        conninfo.wf(),
    ensures
        b == term_ok(*t, fedid, tag, fedids, *conninfo),
{
    match t {
        Term::Tag => true,
        Term::TagPlusDelay(dt) | Term::TagStrictPlusDelay(dt) => {
            let dok = match dt {
                DelayTerm::LargestDelayFromSomeImmUpstreamFed => 0 <= fedid.0 && (fedid.0 as usize) < conninfo.fed2uds.len(),
                _ => true,
            };
            if !dok {
                return false;
            }
            match dt.eval(fedid, fedids, conninfo) {
                None => true,
                Some(d) => match t {
                    Term::TagPlusDelay(_) => add_ok_exec(tag, d),
                    _ => strict_plus_ok_exec(tag, d),
                },
            }
        },
    }
}

fn ba_ok_exec(a: &BinaryRelationAtom, e0: &Event, e1: &Event, conninfo: &ConnInfo) -> (b: bool)
    requires
        conninfo.wf(),
    ensures
        b == ba_ok(*a, *e0, *e1, *conninfo),
{
    match (e0, e1) {
        (Event::Concrete(p), Event::Concrete(c)) => {
            let fedids = (p.fedid, c.fedid);
            match a {
                BinaryRelationAtom::LessThan(t0, t1) | BinaryRelationAtom::LessThanOrEqual(t0, t1)
                | BinaryRelationAtom::GreaterThanOrEqual(t0, t1) | BinaryRelationAtom::GreaterThan(t0, t1)
                | BinaryRelationAtom::Equal(t0, t1) => term_ok_exec(t0, p.fedid, p.tag, fedids, conninfo)
                    && term_ok_exec(t1, c.fedid, c.tag, fedids, conninfo),
                _ => true,
            }
        },
        _ => true,
    }
}

/// Whether the predicate can be evaluated on the event.
pub fn u_ok_exec(r: &UnaryRelation, e: &Event, conninfo: &ConnInfo) -> (b: bool)
    requires
        conninfo.wf(),
    ensures
        b == u_ok(*r, *e, *conninfo),
    decreases r,
{
    match r {
        UnaryRelation::Atom(a) => match (a, e) {
            (UnaryRelationAtom::TagFinite, Event::Concrete(c)) => c.tag.0 != i64::MIN,
            _ => true,
        },
        UnaryRelation::IsFirst(_) => !matches!(e, Event::First(_)),
        UnaryRelation::IsFirstForFederate(_) => !matches!(e, Event::FirstInEquivClass { .. }),
        UnaryRelation::And(l) => ul_ok_all_exec(l, e, conninfo),
        UnaryRelation::Or(l) => ul_ok_any_exec(l, e, conninfo),
        UnaryRelation::Not(x) => u_ok_exec(x, e, conninfo),
        UnaryRelation::BoundMary(e1, b) => b_ok_exec(b, e, e1, conninfo),
    }
}

fn ul_ok_all_exec(l: &UnaryRelations, e: &Event, conninfo: &ConnInfo) -> (b: bool)
    requires
        conninfo.wf(),
    ensures
        b == ul_ok_all(*l, *e, *conninfo),
    decreases l,
{
    match l {
        UnaryRelations::Nil => true,
        UnaryRelations::Cons(h, t) => u_ok_exec(h, e, conninfo) && (!u_eval(h, e, conninfo)
            || ul_ok_all_exec(t, e, conninfo)),
    }
}

fn ul_ok_any_exec(l: &UnaryRelations, e: &Event, conninfo: &ConnInfo) -> (b: bool)
    requires
        conninfo.wf(),
    ensures
        b == ul_ok_any(*l, *e, *conninfo),
    decreases l,
{
    match l {
        UnaryRelations::Nil => true,
        UnaryRelations::Cons(h, t) => u_ok_exec(h, e, conninfo) && (u_eval(h, e, conninfo)
            || ul_ok_any_exec(t, e, conninfo)),
    }
}

/// Whether the relation can be evaluated on the pair of events.
pub fn b_ok_exec(r: &BinaryRelation, e0: &Event, e1: &Event, conninfo: &ConnInfo) -> (b: bool)
    requires
        conninfo.wf(),
    ensures
        b == b_ok(*r, *e0, *e1, *conninfo),
    decreases r,
{
    match r {
        BinaryRelation::Atom(a) => ba_ok_exec(a, e0, e1, conninfo),
        BinaryRelation::IsFirst(_) => true,
        BinaryRelation::IsFirstForFederate(_) => true,
        BinaryRelation::And(l) => bl_ok_all_exec(l, e0, e1, conninfo),
        BinaryRelation::Or(l) => bl_ok_any_exec(l, e0, e1, conninfo),
        BinaryRelation::Not(x) => b_ok_exec(x, e0, e1, conninfo),
        BinaryRelation::BoundMary(u) => u_ok_exec(u, e0, conninfo),
    }
}

fn bl_ok_all_exec(l: &BinaryRelations, e0: &Event, e1: &Event, conninfo: &ConnInfo) -> (b: bool)
    requires
        conninfo.wf(),
    ensures
        b == bl_ok_all(*l, *e0, *e1, *conninfo),
    decreases l,
{
    match l {
        BinaryRelations::Nil => true,
        BinaryRelations::Cons(h, t) => b_ok_exec(h, e0, e1, conninfo) && (!b_eval(h, e0, e1, conninfo)
            || bl_ok_all_exec(t, e0, e1, conninfo)),
    }
}

fn bl_ok_any_exec(l: &BinaryRelations, e0: &Event, e1: &Event, conninfo: &ConnInfo) -> (b: bool)
    requires
        conninfo.wf(),
    ensures
        b == bl_ok_any(*l, *e0, *e1, *conninfo),
    decreases l,
{
    match l {
        BinaryRelations::Nil => true,
        BinaryRelations::Cons(h, t) => b_ok_exec(h, e0, e1, conninfo) && (b_eval(h, e0, e1, conninfo)
            || bl_ok_any_exec(t, e0, e1, conninfo)),
    }
}


/// Structural equality of events.
pub fn event_eq(a: &Event, b: &Event) -> (r: bool)
    ensures
        r == (*a == *b),
    decreases a,
{
    match (a, b) {
        (Event::Concrete(x), Event::Concrete(y)) => *x == *y,
        (Event::First(x), Event::First(y)) => unary_eq(x, y),
        (
            Event::FirstInEquivClass { proj: p, set: x },
            Event::FirstInEquivClass { proj: q, set: y },
        ) => *p == *q && unary_eq(x, y),
        _ => false,
    }
}

/// Structural equality of predicates.
pub fn unary_eq(a: &UnaryRelation, b: &UnaryRelation) -> (r: bool)
    ensures
        r == (*a == *b),
    decreases a,
{
    match (a, b) {
        (UnaryRelation::Atom(x), UnaryRelation::Atom(y)) => *x == *y,
        (UnaryRelation::IsFirst(x), UnaryRelation::IsFirst(y)) => binary_eq(x, y),
        (UnaryRelation::IsFirstForFederate(x), UnaryRelation::IsFirstForFederate(y)) => binary_eq(
            x,
            y,
        ),
        (UnaryRelation::And(x), UnaryRelation::And(y)) => unary_list_eq(x, y),
        (UnaryRelation::Or(x), UnaryRelation::Or(y)) => unary_list_eq(x, y),
        (UnaryRelation::Not(x), UnaryRelation::Not(y)) => unary_eq(x, y),
        (UnaryRelation::BoundMary(x0, x1), UnaryRelation::BoundMary(y0, y1)) => event_eq(x0, y0)
            && binary_eq(x1, y1),
        _ => false,
    }
}

fn unary_list_eq(a: &UnaryRelations, b: &UnaryRelations) -> (r: bool)
    ensures
        r == (*a == *b),
    decreases a,
{
    match (a, b) {
        (UnaryRelations::Nil, UnaryRelations::Nil) => true,
        (UnaryRelations::Cons(x0, x1), UnaryRelations::Cons(y0, y1)) => unary_eq(x0, y0)
            && unary_list_eq(x1, y1),
        _ => false,
    }
}

/// Structural equality of binary relations.
pub fn binary_eq(a: &BinaryRelation, b: &BinaryRelation) -> (r: bool)
    ensures
        r == (*a == *b),
    decreases a,
{
    match (a, b) {
        (BinaryRelation::Atom(x), BinaryRelation::Atom(y)) => *x == *y,
        (BinaryRelation::IsFirst(x), BinaryRelation::IsFirst(y)) => binary_eq(x, y),
        (BinaryRelation::IsFirstForFederate(x), BinaryRelation::IsFirstForFederate(y)) => binary_eq(
            x,
            y,
        ),
        (BinaryRelation::And(x), BinaryRelation::And(y)) => binary_list_eq(x, y),
        (BinaryRelation::Or(x), BinaryRelation::Or(y)) => binary_list_eq(x, y),
        (BinaryRelation::Not(x), BinaryRelation::Not(y)) => binary_eq(x, y),
        (BinaryRelation::BoundMary(x), BinaryRelation::BoundMary(y)) => unary_eq(x, y),
        _ => false,
    }
}

fn binary_list_eq(a: &BinaryRelations, b: &BinaryRelations) -> (r: bool)
    ensures
        r == (*a == *b),
    decreases a,
{
    match (a, b) {
        (BinaryRelations::Nil, BinaryRelations::Nil) => true,
        (BinaryRelations::Cons(x0, x1), BinaryRelations::Cons(y0, y1)) => binary_eq(x0, y0)
            && binary_list_eq(x1, y1),
        _ => false,
    }
}

impl Event {
    /// A copy of the event.
    pub fn duplicate(&self) -> (r: Event)
        ensures
            r == *self,
        decreases self,
    {
        match self {
            Event::Concrete(c) => Event::Concrete(*c),
            Event::First(x) => Event::First(x.duplicate()),
            Event::FirstInEquivClass { proj, set } => Event::FirstInEquivClass {
                proj: *proj,
                set: set.duplicate(),
            },
        }
    }
}

impl UnaryRelation {
    /// A copy of the predicate.
    pub fn duplicate(&self) -> (r: UnaryRelation)
        ensures
            r == *self,
        decreases self,
    {
        match self {
            UnaryRelation::Atom(a) => UnaryRelation::Atom(*a),
            UnaryRelation::IsFirst(x) => UnaryRelation::IsFirst(Box::new(x.duplicate())),
            UnaryRelation::IsFirstForFederate(x) => UnaryRelation::IsFirstForFederate(
                Box::new(x.duplicate()),
            ),
            UnaryRelation::And(l) => UnaryRelation::And(l.duplicate()),
            UnaryRelation::Or(l) => UnaryRelation::Or(l.duplicate()),
            UnaryRelation::Not(x) => UnaryRelation::Not(Box::new(x.duplicate())),
            UnaryRelation::BoundMary(e, b) => UnaryRelation::BoundMary(
                Box::new(e.duplicate()),
                Box::new(b.duplicate()),
            ),
        }
    }
}

impl UnaryRelations {
    pub fn duplicate(&self) -> (r: UnaryRelations)
        ensures
            r == *self,
        decreases self,
    {
        match self {
            UnaryRelations::Nil => UnaryRelations::Nil,
            UnaryRelations::Cons(h, t) => UnaryRelations::Cons(
                Box::new(h.duplicate()),
                Box::new(t.duplicate()),
            ),
        }
    }
}

impl BinaryRelation {
    /// A copy of the relation.
    pub fn duplicate(&self) -> (r: BinaryRelation)
        ensures
            r == *self,
        decreases self,
    {
        match self {
            BinaryRelation::Atom(a) => BinaryRelation::Atom(*a),
            BinaryRelation::IsFirst(x) => BinaryRelation::IsFirst(Box::new(x.duplicate())),
            BinaryRelation::IsFirstForFederate(x) => BinaryRelation::IsFirstForFederate(
                Box::new(x.duplicate()),
            ),
            BinaryRelation::And(l) => BinaryRelation::And(l.duplicate()),
            BinaryRelation::Or(l) => BinaryRelation::Or(l.duplicate()),
            BinaryRelation::Not(x) => BinaryRelation::Not(Box::new(x.duplicate())),
            BinaryRelation::BoundMary(u) => BinaryRelation::BoundMary(Box::new(u.duplicate())),
        }
    }
}

impl BinaryRelations {
    pub fn duplicate(&self) -> (r: BinaryRelations)
        ensures
            r == *self,
        decreases self,
    {
        match self {
            BinaryRelations::Nil => BinaryRelations::Nil,
            BinaryRelations::Cons(h, t) => BinaryRelations::Cons(
                Box::new(h.duplicate()),
                Box::new(t.duplicate()),
            ),
        }
    }
}

// ---------------------------------------------------------------------------------------------
// Building conjunctions and disjunctions
// ---------------------------------------------------------------------------------------------

/// The predicates of `s`, in order, followed by those of `tail`.
pub open spec fn unary_list_onto(s: Seq<UnaryRelation>, tail: UnaryRelations) -> UnaryRelations
    decreases s.len(),
{
    if s.len() == 0 {
        tail
    } else {
        UnaryRelations::Cons(Box::new(s[0]), Box::new(unary_list_onto(s.drop_first(), tail)))
    }
}

/// The list of the predicates of `s`, in order.
pub open spec fn unary_list(s: Seq<UnaryRelation>) -> UnaryRelations {
    unary_list_onto(s, UnaryRelations::Nil)
}

/// The relations of `s`, in order, followed by those of `tail`.
pub open spec fn binary_list_onto(s: Seq<BinaryRelation>, tail: BinaryRelations) -> BinaryRelations
    decreases s.len(),
{
    if s.len() == 0 {
        tail
    } else {
        BinaryRelations::Cons(Box::new(s[0]), Box::new(binary_list_onto(s.drop_first(), tail)))
    }
}

/// The list of the relations of `s`, in order.
pub open spec fn binary_list(s: Seq<BinaryRelation>) -> BinaryRelations {
    binary_list_onto(s, BinaryRelations::Nil)
}

proof fn lemma_unary_list_onto_push(s: Seq<UnaryRelation>, x: UnaryRelation, tail: UnaryRelations)
    ensures
        unary_list_onto(s.push(x), tail) == unary_list_onto(
            s,
            UnaryRelations::Cons(Box::new(x), Box::new(tail)),
        ),
    decreases s.len(),
{
    let p = s.push(x);
    assert(p[0] == if s.len() > 0 { s[0] } else { x });
    if s.len() > 0 {
        assert(p.drop_first() =~= s.drop_first().push(x));
        lemma_unary_list_onto_push(s.drop_first(), x, tail);
    } else {
        assert(p.drop_first() =~= s);
        assert(unary_list_onto(p.drop_first(), tail) == tail);
    }
}

proof fn lemma_binary_list_onto_push(s: Seq<BinaryRelation>, x: BinaryRelation, tail: BinaryRelations)
    ensures
        binary_list_onto(s.push(x), tail) == binary_list_onto(
            s,
            BinaryRelations::Cons(Box::new(x), Box::new(tail)),
        ),
    decreases s.len(),
{
    let p = s.push(x);
    assert(p[0] == if s.len() > 0 { s[0] } else { x });
    if s.len() > 0 {
        assert(p.drop_first() =~= s.drop_first().push(x));
        lemma_binary_list_onto_push(s.drop_first(), x, tail);
    } else {
        assert(p.drop_first() =~= s);
        assert(binary_list_onto(p.drop_first(), tail) == tail);
    }
}

fn unary_list_of(v: Vec<UnaryRelation>) -> (r: UnaryRelations)
    ensures
        r == unary_list(v@),
{
    let ghost orig = v@;
    let mut v = v;
    let mut l = UnaryRelations::Nil;
    while v.len() > 0
        invariant
            unary_list_onto(v@, l) == unary_list(orig),
        decreases v@.len(),
    {
        let ghost pre = v@;
        let x = v.pop().unwrap();
        proof {
            assert(pre =~= v@.push(x));
            lemma_unary_list_onto_push(v@, x, l);
        }
        l = UnaryRelations::Cons(Box::new(x), Box::new(l));
    }
    l
}

fn binary_list_of(v: Vec<BinaryRelation>) -> (r: BinaryRelations)
    ensures
        r == binary_list(v@),
{
    let ghost orig = v@;
    let mut v = v;
    let mut l = BinaryRelations::Nil;
    while v.len() > 0
        invariant
            binary_list_onto(v@, l) == binary_list(orig),
        decreases v@.len(),
    {
        let ghost pre = v@;
        let x = v.pop().unwrap();
        proof {
            assert(pre =~= v@.push(x));
            lemma_binary_list_onto_push(v@, x, l);
        }
        l = BinaryRelations::Cons(Box::new(x), Box::new(l));
    }
    l
}

/// The conjunction of the predicates.
pub fn all_of(v: Vec<UnaryRelation>) -> (r: UnaryRelation)
    ensures
        r == UnaryRelation::And(unary_list(v@)),
{
    UnaryRelation::And(unary_list_of(v))
}

/// The disjunction of the predicates.
pub fn any_of(v: Vec<UnaryRelation>) -> (r: UnaryRelation)
    ensures
        r == UnaryRelation::Or(unary_list(v@)),
{
    UnaryRelation::Or(unary_list_of(v))
}

/// The conjunction of the relations.
pub fn both_of(v: Vec<BinaryRelation>) -> (r: BinaryRelation)
    ensures
        r == BinaryRelation::And(binary_list(v@)),
{
    BinaryRelation::And(binary_list_of(v))
}

/// The disjunction of the relations.
pub fn either_of(v: Vec<BinaryRelation>) -> (r: BinaryRelation)
    ensures
        r == BinaryRelation::Or(binary_list(v@)),
{
    BinaryRelation::Or(binary_list_of(v))
}

} // verus!
