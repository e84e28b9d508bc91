//! From the RTI's trace records to the elaborated trace: the recorded events, each preceded by the
//! virtual first events that the rules ask for and that it is the first instance of.
use vstd::prelude::*;
use crate::conninfo::{get_nonnegative_microstep, ConnInfo, FedId, Tag};
use crate::relation::{
    binary_list, binary_list_onto, unary_list, unary_list_onto, u_holds, u_ok, u_ok_exec, unary_eq, UnaryRelations, BinaryRelation, BinaryRelations, ConcEvent, Event, EventKind, OgRank,
    UnaryRelation,
};
use crate::text::{chars_eq, chars_of, spec_trim, trim};
use crate::unpermutables::Rule;

verus! {

/// A record of the RTI's trace file.
#[derive(Debug, Clone)]
pub struct TraceRecord {
    pub event: String,
    pub reactor: String,
    pub source: i32,
    pub destination: i32,
    pub elapsed_logical_time: i64,
    pub microstep: i64,
    pub elapsed_physical_time: i64,
    pub trigger: String,
    pub extra_delay: u64,
    pub file_index: u32,
    pub line_number: u32,
    pub sequence_number_for_file_and_line: u32,
}

/// The kind of event that a trace file names by the text `t`, if any.
pub open spec fn kind_named(t: Seq<char>) -> Option<EventKind> {
    if t == "Receiving FED_ID"@ {
        Some(EventKind::RecvFedId)
    } else if t == "Sending ACK"@ {
        Some(EventKind::SendAck)
    } else if t == "Sending TIMESTAMP"@ {
        Some(EventKind::SendTimestamp)
    } else if t == "Receiving TIMESTAMP"@ {
        Some(EventKind::RecvTimestamp)
    } else if t == "Receiving NET"@ {
        Some(EventKind::RecvNet)
    } else if t == "Sending PTAG"@ {
        Some(EventKind::SendPtag)
    } else if t == "Sending TAGGED_MSG"@ {
        Some(EventKind::SendTaggedMsg)
    } else if t == "Receiving TAGGED_MSG"@ {
        Some(EventKind::RecvTaggedMsg)
    } else if t == "Sending TAG"@ {
        Some(EventKind::SendTag)
    } else if t == "Receiving STOP_REQ"@ {
        Some(EventKind::RecvStopReq)
    } else if t == "Sending STOP_REQ"@ {
        Some(EventKind::SendStopReq)
    } else if t == "Receiving STOP_REQ_REP"@ {
        Some(EventKind::RecvStopReqRep)
    } else if t == "Sending STOP_GRN"@ {
        Some(EventKind::SendStopGrn)
    } else if t == "Receiving LTC"@ {
        Some(EventKind::RecvLtc)
    } else if t == "Sending PORT_ABS"@ {
        Some(EventKind::SendPortAbs)
    } else if t == "Receiving PORT_ABS"@ {
        Some(EventKind::RecvPortAbs)
    } else {
        None
    }
}

fn text_is(t: &Vec<char>, lit: &str) -> (r: bool)
    ensures
        r == (t@ == lit@),
{
    chars_eq(t.as_slice(), chars_of(lit).as_slice())
}

impl EventKind {
    /// The kind of event that the text names, ignoring white space around it.
    pub fn from_str(event: &str) -> (r: Result<EventKind, ()>)
        ensures
            r == (match kind_named(spec_trim(event@)) {
                Some(k) => Ok(k),
                None => Err(()),
            }),
    {
        let t = trim(chars_of(event).as_slice());
        if text_is(&t, "Receiving FED_ID") {
            Ok(EventKind::RecvFedId)
        } else if text_is(&t, "Sending ACK") {
            Ok(EventKind::SendAck)
        } else if text_is(&t, "Sending TIMESTAMP") {
            Ok(EventKind::SendTimestamp)
        } else if text_is(&t, "Receiving TIMESTAMP") {
            Ok(EventKind::RecvTimestamp)
        } else if text_is(&t, "Receiving NET") {
            Ok(EventKind::RecvNet)
        } else if text_is(&t, "Sending PTAG") {
            Ok(EventKind::SendPtag)
        } else if text_is(&t, "Sending TAGGED_MSG") {
            Ok(EventKind::SendTaggedMsg)
        } else if text_is(&t, "Receiving TAGGED_MSG") {
            Ok(EventKind::RecvTaggedMsg)
        } else if text_is(&t, "Sending TAG") {
            Ok(EventKind::SendTag)
        } else if text_is(&t, "Receiving STOP_REQ") {
            Ok(EventKind::RecvStopReq)
        } else if text_is(&t, "Sending STOP_REQ") {
            Ok(EventKind::SendStopReq)
        } else if text_is(&t, "Receiving STOP_REQ_REP") {
            Ok(EventKind::RecvStopReqRep)
        } else if text_is(&t, "Sending STOP_GRN") {
            Ok(EventKind::SendStopGrn)
        } else if text_is(&t, "Receiving LTC") {
            Ok(EventKind::RecvLtc)
        } else if text_is(&t, "Sending PORT_ABS") {
            Ok(EventKind::SendPortAbs)
        } else if text_is(&t, "Receiving PORT_ABS") {
            Ok(EventKind::RecvPortAbs)
        } else {
            Err(())
        }
    }
}

/// The trace record can be read as an event: its kind is known and its microstep is either
/// nonnegative or `-1`, the infinite microstep.
pub open spec fn record_ok(r: TraceRecord) -> bool {
    kind_named(spec_trim(r.event@)) is Some && r.microstep >= -1
}

/// The tag of a trace record.
pub open spec fn record_tag(r: TraceRecord) -> Tag {
    Tag(r.elapsed_logical_time, if r.microstep == -1 { u64::MAX } else { r.microstep as u64 })
}

/// The event that a trace record describes, at position `ogrank` of the trace; its federate is
/// the record's destination.
pub open spec fn record_event(r: TraceRecord, ogrank: OgRank) -> ConcEvent {
    ConcEvent {
        event: kind_named(spec_trim(r.event@))->0,
        tag: record_tag(r),
        fedid: FedId(r.destination),
        ogrank,
    }
}

impl ConcEvent {
    /// The event that a trace record describes, at position `ogrank` of the trace; its federate is
    /// the record's destination.
    pub fn from_lf_trace_record(lf_trace_record: &TraceRecord, ogrank: OgRank) -> (r: ConcEvent)
        requires
            record_ok(*lf_trace_record),
        ensures
            r == record_event(*lf_trace_record, ogrank),
    {
        let event = match EventKind::from_str(lf_trace_record.event.as_str()) {
            Ok(k) => k,
            Err(()) => EventKind::RecvFedId,
        };
        let tag = Tag(
            lf_trace_record.elapsed_logical_time,
            get_nonnegative_microstep(lf_trace_record.microstep),
        );
        ConcEvent { event, tag, fedid: FedId(lf_trace_record.destination), ogrank: OgRank(ogrank.0) }
    }
}

// ---------------------------------------------------------------------------------------------
// The predicates of first events
// ---------------------------------------------------------------------------------------------

/// The predicates "related by `rel` to the event `c`", for each event `c` that satisfies `event`.
pub open spec fn bound_preds(
    event: UnaryRelation,
    rel: BinaryRelation,
    cs: Seq<ConcEvent>,
    ci: ConnInfo,
) -> Set<UnaryRelation> {
    Set::new(
        |u: UnaryRelation|
            exists|i: int|
                0 <= i < cs.len() && u_holds(event, Event::Concrete(cs[i]), ci) && u
                    == #[trigger] bound_pred(cs[i], rel),
    )
}

/// The predicate "related by `rel` to the event `c`".
pub open spec fn bound_pred(c: ConcEvent, rel: BinaryRelation) -> UnaryRelation {
    UnaryRelation::BoundMary(Box::new(Event::Concrete(c)), Box::new(rel))
}

/// The predicates of the first events, and of the first events for each federate, that a rule
/// with event `event` and preceding relation `brel` refers to.
pub open spec fn first_preds(
    event: UnaryRelation,
    brel: BinaryRelation,
    cs: Seq<ConcEvent>,
    ci: ConnInfo,
) -> (Set<UnaryRelation>, Set<UnaryRelation>)
    decreases brel,
{
    match brel {
        BinaryRelation::IsFirst(rel) => {
            let r = first_preds(event, *rel, cs, ci);
            (r.0.union(bound_preds(event, *rel, cs, ci)), r.1)
        },
        BinaryRelation::IsFirstForFederate(rel) => {
            let r = first_preds(event, *rel, cs, ci);
            (r.0, r.1.union(bound_preds(event, *rel, cs, ci)))
        },
        BinaryRelation::And(l) => first_preds_list(event, l, cs, ci),
        BinaryRelation::Or(l) => first_preds_list(event, l, cs, ci),
        _ => (Set::empty(), Set::empty()),
    }
}

pub open spec fn first_preds_list(
    event: UnaryRelation,
    l: BinaryRelations,
    cs: Seq<ConcEvent>,
    ci: ConnInfo,
) -> (Set<UnaryRelation>, Set<UnaryRelation>)
    decreases l,
{
    match l {
        BinaryRelations::Nil => (Set::empty(), Set::empty()),
        BinaryRelations::Cons(h, t) => {
            let a = first_preds(event, *h, cs, ci);
            let b = first_preds_list(event, *t, cs, ci);
            (a.0.union(b.0), a.1.union(b.1))
        },
    }
}

/// A predicate in which a first event can be looked for: no `IsFirst`, `IsFirstForFederate` or
/// bound relation occurs in it.
pub open spec fn plain_pred(u: UnaryRelation) -> bool
    decreases u,
{
    match u {
        UnaryRelation::Atom(_) => true,
        UnaryRelation::And(l) => plain_list(l),
        UnaryRelation::Or(l) => plain_list(l),
        UnaryRelation::Not(x) => plain_pred(*x),
        _ => false,
    }
}

pub open spec fn plain_list(l: crate::relation::UnaryRelations) -> bool
    decreases l,
{
    match l {
        crate::relation::UnaryRelations::Nil => true,
        crate::relation::UnaryRelations::Cons(h, t) => plain_pred(*h) && plain_list(*t),
    }
}

/// The preceding relation of a rule can be searched for first events: no negation occurs above
/// its `IsFirst` parts, and the predicates bound in it are plain.
pub open spec fn searchable(brel: BinaryRelation) -> bool
    decreases brel,
{
    match brel {
        BinaryRelation::Atom(_) => true,
        BinaryRelation::IsFirst(rel) => searchable(*rel),
        BinaryRelation::IsFirstForFederate(rel) => searchable(*rel),
        BinaryRelation::And(l) => searchable_list(l),
        BinaryRelation::Or(l) => searchable_list(l),
        BinaryRelation::Not(_) => false,
        BinaryRelation::BoundMary(u) => plain_pred(*u),
    }
}

pub open spec fn searchable_list(l: BinaryRelations) -> bool
    decreases l,
{
    match l {
        BinaryRelations::Nil => true,
        BinaryRelations::Cons(h, t) => searchable(*h) && searchable_list(*t),
    }
}

/// A list of plain predicates is plain.
pub proof fn lemma_plain_list(s: Seq<UnaryRelation>)
    requires
        forall|i: int| 0 <= i < s.len() ==> plain_pred(#[trigger] s[i]),
    ensures
        plain_list(unary_list(s)),
    decreases s.len(),
{
    if s.len() > 0 {
        lemma_plain_list(s.drop_first());
        assert(plain_pred(s[0]));
    }
}

/// A list of searchable relations is searchable.
pub proof fn lemma_searchable_list(s: Seq<BinaryRelation>)
    requires
        forall|i: int| 0 <= i < s.len() ==> searchable(#[trigger] s[i]),
    ensures
        searchable_list(binary_list(s)),
    decreases s.len(),
{
    if s.len() > 0 {
        lemma_searchable_list(s.drop_first());
        assert(searchable(s[0]));
    }
}

/// Evaluating `event` on each of the concrete events does not panic.
pub open spec fn event_ok(event: UnaryRelation, cs: Seq<ConcEvent>, ci: ConnInfo) -> bool {
    forall|i: int| 0 <= i < cs.len() ==> #[trigger] u_ok(event, Event::Concrete(cs[i]), ci)
}

/// Adds `u` to the predicates unless it is there already.
fn insert_pred(preds: &mut Vec<UnaryRelation>, u: UnaryRelation)
    requires
        old(preds)@.no_duplicates(),
    ensures
        final(preds)@.no_duplicates(),
        final(preds)@.to_set() == old(preds)@.to_set().insert(u),
{
    let mut i: usize = 0;
    while i < preds.len()
        invariant
            i <= preds@.len(),
            preds@.no_duplicates(),
            forall|j: int| 0 <= j < i ==> preds@[j] != u,
        decreases preds@.len() - i,
    {
        if unary_eq(&preds[i], &u) {
            proof {
                assert(preds@.contains(u));
                assert(preds@.to_set().insert(u) =~= preds@.to_set());
            }
            return;
        }
        i += 1;
    }
    let ghost pre = preds@;
    preds.push(u);
    proof {
        assert(preds@.to_set() =~= pre.to_set().insert(u)) by {
            assert forall|x: UnaryRelation| pre.to_set().insert(u).contains(x) implies preds@.contains(x) by {
                if x == u {
                    assert(preds@[pre.len() as int] == u);
                } else {
                    let j = choose|j: int| 0 <= j < pre.len() && pre[j] == x;
                    assert(preds@[j] == x);
                }
            }
            assert forall|x: UnaryRelation| preds@.contains(x) implies pre.to_set().insert(u).contains(x) by {
                let j = choose|j: int| 0 <= j < preds@.len() && preds@[j] == x;
                if j < pre.len() {
                    assert(pre.contains(x));
                }
            }
        }
        assert forall|a: int, b: int| 0 <= a < b < preds@.len() implies preds@[a] != preds@[b] by {
            if b < pre.len() {
                assert(pre[a] != pre[b]);
            }
        }
    }
}

/// Adds, for each concrete event that satisfies `event`, the predicate "related by `rel` to it".
fn insert_bound_preds(
    preds: &mut Vec<UnaryRelation>,
    event: &UnaryRelation,
    rel: &BinaryRelation,
    concretes: &Vec<ConcEvent>,
    conninfo: &ConnInfo,
)
    requires
        conninfo.wf(),
        old(preds)@.no_duplicates(),
        event_ok(*event, concretes@, *conninfo),
    ensures
        final(preds)@.no_duplicates(),
        final(preds)@.to_set() == old(preds)@.to_set().union(
            bound_preds(*event, *rel, concretes@, *conninfo),
        ),
{
    let ghost start = preds@.to_set();
    let mut i: usize = 0;
    while i < concretes.len()
        invariant
            conninfo.wf(),
            event_ok(*event, concretes@, *conninfo),
            i <= concretes@.len(),
            preds@.no_duplicates(),
            preds@.to_set() == start.union(
                Set::new(
                    |u: UnaryRelation|
                        exists|j: int|
                            0 <= j < i && u_holds(*event, Event::Concrete(concretes@[j]), *conninfo)
                                && u == #[trigger] bound_pred(concretes@[j], *rel),
                ),
            ),
        decreases concretes@.len() - i,
    {
        let c = concretes[i];
        assert(u_ok(*event, Event::Concrete(concretes@[i as int]), *conninfo));
        let ghost before = preds@.to_set();
        if event.holds(&[Event::Concrete(c)], conninfo) {
            insert_pred(
                preds,
                UnaryRelation::BoundMary(Box::new(Event::Concrete(c)), Box::new(rel.duplicate())),
            );
        }
        proof {
            let next = Set::new(
                |u: UnaryRelation|
                    exists|j: int|
                        0 <= j < i + 1 && u_holds(*event, Event::Concrete(concretes@[j]), *conninfo)
                            && u == #[trigger] bound_pred(concretes@[j], *rel),
            );
            assert(preds@.to_set() =~= start.union(next)) by {
                assert forall|u: UnaryRelation| start.union(next).contains(u) implies preds@.to_set().contains(u) by {
                    if !start.contains(u) {
                        let j = choose|j: int|
                            0 <= j < i + 1 && u_holds(*event, Event::Concrete(concretes@[j]), *conninfo)
                                && u == #[trigger] bound_pred(concretes@[j], *rel);
                        if j < i {
                            assert(before.contains(u));
                        }
                    }
                }
                assert forall|u: UnaryRelation| preds@.to_set().contains(u) implies start.union(next).contains(u) by {
                    if !before.contains(u) {
                        assert(u == bound_pred(concretes@[i as int], *rel));
                    } else if !start.contains(u) {
                        let j = choose|j: int|
                            0 <= j < i && u_holds(*event, Event::Concrete(concretes@[j]), *conninfo)
                                && u == #[trigger] bound_pred(concretes@[j], *rel);
                        assert(next.contains(u));
                    }
                }
            }
        }
        i += 1;
    }
    proof {
        assert(preds@.to_set() =~= start.union(bound_preds(*event, *rel, concretes@, *conninfo)));
    }
}

/// Adds the predicates of the first events, and of the first events for each federate, that a rule
/// with event `event` and preceding relation `brel` refers to.
fn add_first_predicates_recursive(
    event: &UnaryRelation,
    brel: &BinaryRelation,
    concretes: &Vec<ConcEvent>,
    predicates: &mut Vec<UnaryRelation>,
    federate_wise_predicates: &mut Vec<UnaryRelation>,
    conninfo: &ConnInfo,
)
    requires
        conninfo.wf(),
        searchable(*brel),
        event_ok(*event, concretes@, *conninfo),
        old(predicates)@.no_duplicates(),
        old(federate_wise_predicates)@.no_duplicates(),
    ensures
        final(predicates)@.no_duplicates(),
        final(federate_wise_predicates)@.no_duplicates(),
        final(predicates)@.to_set() == old(predicates)@.to_set().union(
            first_preds(*event, *brel, concretes@, *conninfo).0,
        ),
        final(federate_wise_predicates)@.to_set() == old(federate_wise_predicates)@.to_set().union(
            first_preds(*event, *brel, concretes@, *conninfo).1,
        ),
    decreases brel,
{
    let ghost p0 = predicates@.to_set();
    let ghost f0 = federate_wise_predicates@.to_set();
    match brel {
        BinaryRelation::IsFirst(rel) => {
            insert_bound_preds(predicates, event, rel, concretes, conninfo);
            add_first_predicates_recursive(
                event,
                rel,
                concretes,
                predicates,
                federate_wise_predicates,
                conninfo,
            );
            proof {
                let r = first_preds(*event, **rel, concretes@, *conninfo);
                assert(predicates@.to_set() =~= p0.union(
                    r.0.union(bound_preds(*event, **rel, concretes@, *conninfo)),
                ));
            }
        },
        BinaryRelation::IsFirstForFederate(rel) => {
            insert_bound_preds(federate_wise_predicates, event, rel, concretes, conninfo);
            add_first_predicates_recursive(
                event,
                rel,
                concretes,
                predicates,
                federate_wise_predicates,
                conninfo,
            );
            proof {
                let r = first_preds(*event, **rel, concretes@, *conninfo);
                assert(federate_wise_predicates@.to_set() =~= f0.union(
                    r.1.union(bound_preds(*event, **rel, concretes@, *conninfo)),
                ));
            }
        },
        BinaryRelation::And(l) => {
            add_first_predicates_list(
                event,
                l,
                concretes,
                predicates,
                federate_wise_predicates,
                conninfo,
            );
        },
        BinaryRelation::Or(l) => {
            add_first_predicates_list(
                event,
                l,
                concretes,
                predicates,
                federate_wise_predicates,
                conninfo,
            );
        },
        _ => {
            proof {
                assert(predicates@.to_set() =~= p0.union(Set::empty()));
                assert(federate_wise_predicates@.to_set() =~= f0.union(Set::empty()));
            }
        },
    }
}

fn add_first_predicates_list(
    event: &UnaryRelation,
    l: &BinaryRelations,
    concretes: &Vec<ConcEvent>,
    predicates: &mut Vec<UnaryRelation>,
    federate_wise_predicates: &mut Vec<UnaryRelation>,
    conninfo: &ConnInfo,
)
    requires
        conninfo.wf(),
        searchable_list(*l),
        event_ok(*event, concretes@, *conninfo),
        old(predicates)@.no_duplicates(),
        old(federate_wise_predicates)@.no_duplicates(),
    ensures
        final(predicates)@.no_duplicates(),
        final(federate_wise_predicates)@.no_duplicates(),
        final(predicates)@.to_set() == old(predicates)@.to_set().union(
            first_preds_list(*event, *l, concretes@, *conninfo).0,
        ),
        final(federate_wise_predicates)@.to_set() == old(federate_wise_predicates)@.to_set().union(
            first_preds_list(*event, *l, concretes@, *conninfo).1,
        ),
    decreases l,
{
    let ghost p0 = predicates@.to_set();
    let ghost f0 = federate_wise_predicates@.to_set();
    match l {
        BinaryRelations::Nil => {
            proof {
                assert(predicates@.to_set() =~= p0.union(Set::empty()));
                assert(federate_wise_predicates@.to_set() =~= f0.union(Set::empty()));
            }
        },
        BinaryRelations::Cons(h, t) => {
            add_first_predicates_recursive(
                event,
                h,
                concretes,
                predicates,
                federate_wise_predicates,
                conninfo,
            );
            add_first_predicates_list(
                event,
                t,
                concretes,
                predicates,
                federate_wise_predicates,
                conninfo,
            );
            proof {
                let a = first_preds(*event, **h, concretes@, *conninfo);
                let b = first_preds_list(*event, **t, concretes@, *conninfo);
                assert(predicates@.to_set() =~= p0.union(a.0.union(b.0)));
                assert(federate_wise_predicates@.to_set() =~= f0.union(a.1.union(b.1)));
            }
        },
    }
}

/// The predicates of first events that the rules refer to, given the concrete events.
pub open spec fn rules_first_preds(axioms: Seq<Rule>, cs: Seq<ConcEvent>, ci: ConnInfo, k: int) -> (
    Set<UnaryRelation>,
    Set<UnaryRelation>,
)
    decreases k,
{
    if k <= 0 {
        (Set::empty(), Set::empty())
    } else {
        let a = rules_first_preds(axioms, cs, ci, k - 1);
        let b = first_preds(axioms[k - 1].event, axioms[k - 1].preceding_event, cs, ci);
        (a.0.union(b.0), a.1.union(b.1))
    }
}

/// Every rule can be searched for first events, and its event evaluated on every concrete event.
pub open spec fn rules_searchable(axioms: Seq<Rule>, cs: Seq<ConcEvent>, ci: ConnInfo) -> bool {
    forall|i: int|
        0 <= i < axioms.len() ==> searchable(#[trigger] axioms[i].preceding_event) && event_ok(
            axioms[i].event,
            cs,
            ci,
        )
}

fn get_first_predicates(axioms: &Vec<Rule>, concretes: &Vec<ConcEvent>, conninfo: &ConnInfo) -> (r: (
    Vec<UnaryRelation>,
    Vec<UnaryRelation>,
))
    requires
        conninfo.wf(),
        rules_searchable(axioms@, concretes@, *conninfo),
    ensures
        r.0@.no_duplicates(),
        r.1@.no_duplicates(),
        r.0@.to_set() == rules_first_preds(axioms@, concretes@, *conninfo, axioms@.len() as int).0,
        r.1@.to_set() == rules_first_preds(axioms@, concretes@, *conninfo, axioms@.len() as int).1,
{
    let mut preds: Vec<UnaryRelation> = Vec::new();
    let mut fw: Vec<UnaryRelation> = Vec::new();
    let mut i: usize = 0;
    proof {
        assert(preds@.to_set() =~= Set::empty());
        assert(fw@.to_set() =~= Set::empty());
    }
    while i < axioms.len()
        invariant
            conninfo.wf(),
            rules_searchable(axioms@, concretes@, *conninfo),
            i <= axioms@.len(),
            preds@.no_duplicates(),
            fw@.no_duplicates(),
            preds@.to_set() == rules_first_preds(axioms@, concretes@, *conninfo, i as int).0,
            fw@.to_set() == rules_first_preds(axioms@, concretes@, *conninfo, i as int).1,
        decreases axioms@.len() - i,
    {
        let a = &axioms[i];
        assert(searchable(axioms@[i as int].preceding_event));
        add_first_predicates_recursive(
            &a.event,
            &a.preceding_event,
            concretes,
            &mut preds,
            &mut fw,
            conninfo,
        );
        i += 1;
    }
    (preds, fw)
}

// ---------------------------------------------------------------------------------------------
// Elaboration
// ---------------------------------------------------------------------------------------------

/// The event at `ogr` is the first of the concrete events that satisfies `p`.
pub open spec fn first_hit(p: UnaryRelation, cs: Seq<ConcEvent>, ci: ConnInfo, ogr: int) -> bool {
    &&& 0 <= ogr < cs.len()
    &&& u_holds(p, Event::Concrete(cs[ogr]), ci)
    &&& forall|m: int| 0 <= m < ogr ==> !u_holds(p, Event::Concrete(#[trigger] cs[m]), ci)
}

/// The federates of the events before `ogr` that satisfy `p`.
pub open spec fn feds_before(p: UnaryRelation, cs: Seq<ConcEvent>, ci: ConnInfo, ogr: int) -> Set<FedId> {
    Set::new(
        |f: FedId|
            exists|m: int|
                0 <= m < ogr && u_holds(p, Event::Concrete(#[trigger] cs[m]), ci) && cs[m].fedid == f,
    )
}

/// The event at `ogr` is the first of its federate that satisfies `p`, and the search had not yet
/// found such an event for each of the `nfeds` federates (with no federates, it never stops).
pub open spec fn fed_first_hit(
    p: UnaryRelation,
    cs: Seq<ConcEvent>,
    ci: ConnInfo,
    nfeds: nat,
    ogr: int,
) -> bool {
    &&& 0 <= ogr < cs.len()
    &&& u_holds(p, Event::Concrete(cs[ogr]), ci)
    &&& !feds_before(p, cs, ci, ogr).contains(cs[ogr].fedid)
    &&& (nfeds == 0 || feds_before(p, cs, ci, ogr).len() < nfeds)
}

/// The virtual first events that the event at `ogr` is the first instance of.
pub open spec fn firsts_at(
    preds: Set<UnaryRelation>,
    fw: Set<UnaryRelation>,
    cs: Seq<ConcEvent>,
    ci: ConnInfo,
    nfeds: nat,
    ogr: int,
) -> Set<Event> {
    Set::new(
        |e: Event|
            (exists|p: UnaryRelation|
                preds.contains(p) && #[trigger] first_hit(p, cs, ci, ogr) && e == Event::First(p))
                || (exists|p: UnaryRelation|
                fw.contains(p) && #[trigger] fed_first_hit(p, cs, ci, nfeds, ogr) && e
                    == Event::FirstInEquivClass { proj: cs[ogr].fedid, set: p }),
    )
}

/// The recorded events of a trace, in order: the trace without its virtual first events.
pub open spec fn recorded_part(s: Seq<Event>) -> Seq<Event> {
    s.filter(|e: Event| e is Concrete)
}

/// The concrete events as events of a trace.
pub open spec fn as_events(cs: Seq<ConcEvent>) -> Seq<Event> {
    cs.map_values(|c: ConcEvent| Event::Concrete(c))
}

/// Appending virtual first events and then a recorded event adds just that recorded event to the
/// recorded part.
proof fn lemma_recorded_step(ret: Seq<Event>, firsts: Seq<Event>, c: ConcEvent)
    requires
        forall|i: int| 0 <= i < firsts.len() ==> !(#[trigger] firsts[i] is Concrete),
    ensures
        recorded_part(ret + firsts.push(Event::Concrete(c))) == recorded_part(ret).push(Event::Concrete(c)),
{
    let pred = |e: Event| e is Concrete;
    let x = Event::Concrete(c);
    assert(firsts.push(x) =~= firsts + seq![x]);
    Seq::filter_distributes_over_add(ret, firsts + seq![x], pred);
    Seq::filter_distributes_over_add(firsts, seq![x], pred);
    assert(firsts.all(|e: Event| !pred(e)));
    firsts.lemma_all_neg_filter_empty(pred);
    assert(firsts.filter(pred) =~= Seq::<Event>::empty());
    reveal_with_fuel(Seq::filter, 2);
    assert(seq![x].filter(pred) =~= seq![x]) by {
        assert(seq![x].drop_last() =~= Seq::<Event>::empty());
    }
    assert(ret.filter(pred) + (Seq::<Event>::empty() + seq![x]) =~= ret.filter(pred).push(x));
}

/// The events in the order of the derived ordering of events.
pub uninterp spec fn sorted_events(s: Set<Event>) -> Seq<Event>;

/// Sorts the events by `slice::sort`, with the ordering that `derive` gives `Event`. The result
/// depends only on which events there are, and holds each of them once.
#[verifier::external_body]
fn sort_events(v: Vec<Event>) -> (r: Vec<Event>)
    requires
        v@.no_duplicates(),
    ensures
        r@ == sorted_events(v@.to_set()),
        r@.to_multiset() == v@.to_multiset(),
{
    let mut v = v;
    v.sort();
    v
}

/// The elaborated trace of the first `k` concrete events: each preceded by the first events that
/// it is the first instance of, in sorted order.
pub open spec fn elaborated(
    preds: Set<UnaryRelation>,
    fw: Set<UnaryRelation>,
    cs: Seq<ConcEvent>,
    ci: ConnInfo,
    nfeds: nat,
    k: int,
) -> Seq<Event>
    decreases k,
{
    if k <= 0 {
        Seq::empty()
    } else {
        elaborated(preds, fw, cs, ci, nfeds, k - 1) + sorted_events(
            firsts_at(preds, fw, cs, ci, nfeds, k - 1),
        ).push(Event::Concrete(cs[k - 1]))
    }
}

/// The concrete events of the trace records, numbered by their positions.
pub open spec fn records_events(records: Seq<TraceRecord>) -> Seq<ConcEvent> {
    Seq::new(records.len(), |i: int| record_event(records[i], OgRank(i as u32)))
}

/// Evaluating each predicate of a first event on each concrete event does not panic.
pub open spec fn preds_ok(preds: Set<UnaryRelation>, cs: Seq<ConcEvent>, ci: ConnInfo) -> bool {
    forall|p: UnaryRelation, i: int|
        preds.contains(p) && 0 <= i < cs.len() ==> #[trigger] u_ok(p, Event::Concrete(#[trigger] cs[i]), ci)
}

proof fn lemma_feds_before_step(p: UnaryRelation, cs: Seq<ConcEvent>, ci: ConnInfo, ogr: int)
    requires
        0 <= ogr < cs.len(),
    ensures
        feds_before(p, cs, ci, ogr + 1) == if u_holds(p, Event::Concrete(cs[ogr]), ci) {
            feds_before(p, cs, ci, ogr).insert(cs[ogr].fedid)
        } else {
            feds_before(p, cs, ci, ogr)
        },
{
    let a = feds_before(p, cs, ci, ogr + 1);
    let b = feds_before(p, cs, ci, ogr);
    if u_holds(p, Event::Concrete(cs[ogr]), ci) {
        assert forall|f: FedId| a.contains(f) implies b.insert(cs[ogr].fedid).contains(f) by {
            let m = choose|m: int|
                0 <= m < ogr + 1 && u_holds(p, Event::Concrete(#[trigger] cs[m]), ci) && cs[m].fedid == f;
            if m < ogr {
                assert(b.contains(f));
            }
        }
        assert forall|f: FedId| b.insert(cs[ogr].fedid).contains(f) implies a.contains(f) by {
            if f == cs[ogr].fedid {
                assert(u_holds(p, Event::Concrete(cs[ogr]), ci));
            } else {
                let m = choose|m: int|
                    0 <= m < ogr && u_holds(p, Event::Concrete(#[trigger] cs[m]), ci) && cs[m].fedid == f;
                assert(0 <= m < ogr + 1);
            }
        }
        assert(a =~= b.insert(cs[ogr].fedid));
    } else {
        assert forall|f: FedId| a.contains(f) implies b.contains(f) by {
            let m = choose|m: int|
                0 <= m < ogr + 1 && u_holds(p, Event::Concrete(#[trigger] cs[m]), ci) && cs[m].fedid == f;
            if m < ogr {
                assert(b.contains(f));
            }
        }
        assert forall|f: FedId| b.contains(f) implies a.contains(f) by {
            let m = choose|m: int|
                0 <= m < ogr && u_holds(p, Event::Concrete(#[trigger] cs[m]), ci) && cs[m].fedid == f;
            assert(0 <= m < ogr + 1);
        }
        assert(a =~= b);
    }
}

proof fn lemma_feds_before_grow(p: UnaryRelation, cs: Seq<ConcEvent>, ci: ConnInfo, a: int, b: int)
    requires
        0 <= a <= b <= cs.len(),
        feds_before(p, cs, ci, a).finite(),
    ensures
        feds_before(p, cs, ci, b).finite(),
        feds_before(p, cs, ci, a).len() <= feds_before(p, cs, ci, b).len(),
    decreases b - a,
{
    if a < b {
        lemma_feds_before_step(p, cs, ci, a);
        lemma_feds_before_grow(p, cs, ci, a + 1, b);
    }
}

/// Whether `f` is among the federates.
fn contains_fed(v: &Vec<FedId>, f: FedId) -> (r: bool)
    ensures
        r == v@.contains(f),
{
    let mut i: usize = 0;
    while i < v.len()
        invariant
            i <= v@.len(),
            forall|j: int| 0 <= j < i ==> v@[j] != f,
        decreases v@.len() - i,
    {
        if v[i] == f {
            return true;
        }
        i += 1;
    }
    false
}

/// The set of the elements of a sequence without duplicates has as many elements.
proof fn lemma_no_dup_len<A>(s: Seq<A>)
    requires
        s.no_duplicates(),
    ensures
        s.to_set().finite(),
        s.to_set().len() == s.len(),
{
    s.unique_seq_to_set();
    vstd::seq_lib::seq_to_set_is_finite(s);
}

/// The elaborated trace of the trace records: each recorded event, preceded (in sorted order) by
/// the virtual first events that the rules refer to and that it is the first instance of.
pub fn elaborated_from_trace_records(
    trace_records: Vec<TraceRecord>,
    axioms: &Vec<Rule>,
    conninfo: &ConnInfo,
) -> (r: Vec<Event>)
    requires
        conninfo.wf(),
        trace_records@.len() <= u32::MAX,
        forall|i: int| 0 <= i < trace_records@.len() ==> #[trigger] record_ok(trace_records@[i]),
        rules_searchable(axioms@, records_events(trace_records@), *conninfo),
        preds_ok(
            rules_first_preds(axioms@, records_events(trace_records@), *conninfo, axioms@.len() as int).0,
            records_events(trace_records@),
            *conninfo,
        ),
        preds_ok(
            rules_first_preds(axioms@, records_events(trace_records@), *conninfo, axioms@.len() as int).1,
            records_events(trace_records@),
            *conninfo,
        ),
    ensures
        r@ == elaborated(
            rules_first_preds(axioms@, records_events(trace_records@), *conninfo, axioms@.len() as int).0,
            rules_first_preds(axioms@, records_events(trace_records@), *conninfo, axioms@.len() as int).1,
            records_events(trace_records@),
            *conninfo,
            conninfo.stdp2d.n_nodes as nat,
            trace_records@.len() as int,
        ),
        recorded_part(r@) == as_events(records_events(trace_records@)),
{
    let n = trace_records.len();
    let ghost cs = records_events(trace_records@);
    let mut concretes: Vec<ConcEvent> = Vec::new();
    let mut i: usize = 0;
    while i < n
        invariant
            n == trace_records@.len() <= u32::MAX,
            forall|i: int| 0 <= i < trace_records@.len() ==> #[trigger] record_ok(trace_records@[i]),
            cs == records_events(trace_records@),
            i <= n,
            concretes@ == cs.take(i as int),
        decreases n - i,
    {
        assert(record_ok(trace_records@[i as int]));
        let c = ConcEvent::from_lf_trace_record(&trace_records[i], OgRank(i as u32));
        concretes.push(c);
        proof {
            assert(concretes@ =~= cs.take(i + 1));
        }
        i += 1;
    }
    assert(concretes@ =~= cs);
    let (predicates, federate_wise_predicates) = get_first_predicates(axioms, &concretes, conninfo);
    let ghost pset = predicates@.to_set();
    let ghost fset = federate_wise_predicates@.to_set();
    let nfeds = conninfo.n_federates();
    let mut firsts: Vec<Vec<Event>> = Vec::new();
    let mut i: usize = 0;
    while i < n
        invariant
            i <= n,
            firsts@.len() == i,
            forall|o: int| 0 <= o < i ==> (#[trigger] firsts@[o])@ == Seq::<Event>::empty(),
        decreases n - i,
    {
        firsts.push(Vec::new());
        i += 1;
    }
    // The first event of each predicate.
    let mut pi: usize = 0;
    while pi < predicates.len()
        invariant
            conninfo.wf(),
            n == cs.len() == concretes@.len(),
            concretes@ == cs,
            pset == predicates@.to_set(),
            predicates@.no_duplicates(),
            preds_ok(pset, cs, *conninfo),
            pi <= predicates@.len(),
            firsts@.len() == n,
            forall|o: int| 0 <= o < n ==> (#[trigger] firsts@[o])@.no_duplicates(),
            forall|o: int, e: Event|
                0 <= o < n ==> (#[trigger] firsts@[o]@.contains(e) <==> first_of_preds(
                    predicates@,
                    pi as int,
                    cs,
                    *conninfo,
                    o,
                    e,
                )),
        decreases predicates@.len() - pi,
    {
        let p = &predicates[pi];
        let mut ogr: usize = 0;
        let mut found = false;
        while ogr < n
            invariant_except_break
                !found,
            invariant
                conninfo.wf(),
                n == cs.len() == concretes@.len(),
                concretes@ == cs,
                pset == predicates@.to_set(),
                preds_ok(pset, cs, *conninfo),
                pi < predicates@.len(),
                *p == predicates@[pi as int],
                ogr <= n,
                forall|m: int| 0 <= m < ogr ==> !u_holds(*p, Event::Concrete(#[trigger] cs[m]), *conninfo),
            ensures
                ogr <= n,
                forall|m: int| 0 <= m < ogr ==> !u_holds(*p, Event::Concrete(#[trigger] cs[m]), *conninfo),
                found ==> ogr < n && u_holds(*p, Event::Concrete(cs[ogr as int]), *conninfo),
                !found ==> ogr == n,
            decreases n - ogr,
        {
            let c = concretes[ogr];
            proof {
                assert(pset.contains(*p));
                assert(u_ok(*p, Event::Concrete(cs[ogr as int]), *conninfo));
            }
            if p.holds(&[Event::Concrete(c)], conninfo) {
                found = true;
                break;
            }
            ogr += 1;
        }
        let ghost pre = firsts@;
        if found && ogr < n {
            let e = Event::First(p.duplicate());
            proof {
                assert(!pre[ogr as int]@.contains(e)) by {
                    if pre[ogr as int]@.contains(e) {
                        let j = choose|j: int|
                            0 <= j < pi && #[trigger] first_hit(predicates@[j], cs, *conninfo, ogr as int) && e
                                == Event::First(predicates@[j]);
                        assert(predicates@[j] != predicates@[pi as int]);
                    }
                }
            }
            push_at(&mut firsts, ogr, e);
            proof {
                assert(first_hit(*p, cs, *conninfo, ogr as int));
                assert forall|o: int, x: Event| 0 <= o < n implies (#[trigger] firsts@[o]@.contains(x)
                    <==> first_of_preds(predicates@, pi + 1, cs, *conninfo, o, x)) by {
                    if o == ogr {
                        if x == e {
                            assert(firsts@[o]@[pre[o]@.len() as int] == x);
                        } else {
                            if firsts@[o]@.contains(x) {
                                let k = choose|k: int| 0 <= k < firsts@[o]@.len() && firsts@[o]@[k] == x;
                                assert(pre[o]@.contains(x));
                            }
                            if first_of_preds(predicates@, pi + 1, cs, *conninfo, o, x) {
                                assert(first_of_preds(predicates@, pi as int, cs, *conninfo, o, x));
                                assert(pre[o]@.contains(x));
                                let k = choose|k: int| 0 <= k < pre[o]@.len() && pre[o]@[k] == x;
                                assert(firsts@[o]@[k] == x);
                            }
                        }
                    } else {
                        assert(firsts@[o] == pre[o]);
                        assert(!first_hit(*p, cs, *conninfo, o));
                    }
                }
                assert forall|o: int| 0 <= o < n implies (#[trigger] firsts@[o])@.no_duplicates() by {
                    if o == ogr {
                        assert forall|a: int, b: int| 0 <= a < b < firsts@[o]@.len() implies firsts@[o]@[a] != firsts@[o]@[b] by {
                            if b == pre[o]@.len() {
                                assert(pre[o]@.contains(firsts@[o]@[a]));
                            }
                        }
                    }
                }
            }
        } else {
            proof {
                assert forall|o: int, x: Event| 0 <= o < n implies (#[trigger] firsts@[o]@.contains(x)
                    <==> first_of_preds(predicates@, pi + 1, cs, *conninfo, o, x)) by {
                    assert(!first_hit(*p, cs, *conninfo, o));
                }
            }
        }
        pi += 1;
    }
    // The first events of each predicate for each federate.
    let mut fi: usize = 0;
    while fi < federate_wise_predicates.len()
        invariant
            conninfo.wf(),
            n == cs.len() == concretes@.len(),
            concretes@ == cs,
            fset == federate_wise_predicates@.to_set(),
            federate_wise_predicates@.no_duplicates(),
            preds_ok(fset, cs, *conninfo),
            n <= u32::MAX,
            nfeds == conninfo.stdp2d.n_nodes,
            fi <= federate_wise_predicates@.len(),
            firsts@.len() == n,
            forall|o: int| 0 <= o < n ==> (#[trigger] firsts@[o])@.no_duplicates(),
            forall|o: int, e: Event|
                0 <= o < n ==> (#[trigger] firsts@[o]@.contains(e) <==> first_of_preds(
                    predicates@,
                    predicates@.len() as int,
                    cs,
                    *conninfo,
                    o,
                    e,
                ) || fed_first_of_preds(federate_wise_predicates@, fi as int, cs, *conninfo, nfeds as nat, o, e)),
        decreases federate_wise_predicates@.len() - fi,
    {
        let p = &federate_wise_predicates[fi];
        let ghost pre = firsts@;
        proof {
            assert(fset.contains(*p));
            assert forall|o: int, q: FedId| 0 <= o < n implies !(#[trigger] firsts@[o]@.contains(
                Event::FirstInEquivClass { proj: q, set: *p },
            )) by {
                let x = Event::FirstInEquivClass { proj: q, set: *p };
                if firsts@[o]@.contains(x) {
                    if fed_first_of_preds(federate_wise_predicates@, fi as int, cs, *conninfo, nfeds as nat, o, x) {
                        let j = choose|j: int|
                            0 <= j < fi && #[trigger] fed_first_hit(federate_wise_predicates@[j], cs, *conninfo, nfeds as nat, o)
                                && x == Event::FirstInEquivClass { proj: cs[o].fedid, set: federate_wise_predicates@[j] };
                        assert(federate_wise_predicates@[j] != federate_wise_predicates@[fi as int]);
                    }
                }
            }
        }
        mark_fed_firsts(&mut firsts, p, &concretes, conninfo, nfeds);
        proof {
            assert forall|o: int, x: Event| 0 <= o < n implies (#[trigger] firsts@[o]@.contains(x)
                <==> first_of_preds(predicates@, predicates@.len() as int, cs, *conninfo, o, x)
                || fed_first_of_preds(federate_wise_predicates@, fi + 1, cs, *conninfo, nfeds as nat, o, x)) by {
                if fed_first_of_preds(federate_wise_predicates@, fi + 1, cs, *conninfo, nfeds as nat, o, x) {
                    let j = choose|j: int|
                        0 <= j < fi + 1 && #[trigger] fed_first_hit(federate_wise_predicates@[j], cs, *conninfo, nfeds as nat, o)
                            && x == Event::FirstInEquivClass { proj: cs[o].fedid, set: federate_wise_predicates@[j] };
                    if j < fi {
                        assert(fed_first_of_preds(federate_wise_predicates@, fi as int, cs, *conninfo, nfeds as nat, o, x));
                    }
                }
                if fed_first_of_preds(federate_wise_predicates@, fi as int, cs, *conninfo, nfeds as nat, o, x) {
                    let j = choose|j: int|
                        0 <= j < fi && #[trigger] fed_first_hit(federate_wise_predicates@[j], cs, *conninfo, nfeds as nat, o)
                            && x == Event::FirstInEquivClass { proj: cs[o].fedid, set: federate_wise_predicates@[j] };
                    assert(0 <= j < fi + 1);
                }
            }
        }
        fi += 1;
    }
    // Each concrete event, preceded by its first events in sorted order.
    let mut ret: Vec<Event> = Vec::new();
    let mut o: usize = 0;
    while o < n
        invariant
            n == cs.len() == concretes@.len(),
            concretes@ == cs,
            pset == predicates@.to_set(),
            fset == federate_wise_predicates@.to_set(),
            nfeds == conninfo.stdp2d.n_nodes,
            firsts@.len() == n,
            o <= n,
            forall|k: int| o <= k < n ==> (#[trigger] firsts@[k])@.no_duplicates(),
            forall|k: int, e: Event|
                o <= k < n ==> (#[trigger] firsts@[k]@.contains(e) <==> first_of_preds(
                    predicates@,
                    predicates@.len() as int,
                    cs,
                    *conninfo,
                    k,
                    e,
                ) || fed_first_of_preds(federate_wise_predicates@, federate_wise_predicates@.len() as int, cs, *conninfo, nfeds as nat, k, e)),
            ret@ == elaborated(pset, fset, cs, *conninfo, nfeds as nat, o as int),
            recorded_part(ret@) == as_events(cs.take(o as int)),
        decreases n - o,
    {
        let ghost pre = firsts@;
        let mut these: Vec<Event> = Vec::new();
        std::mem::swap(&mut these, &mut firsts[o]);
        assert(these@ == pre[o as int]@);
        proof {
            assert(these@.to_set() =~= firsts_at(pset, fset, cs, *conninfo, nfeds as nat, o as int)) by {
                assert forall|x: Event| these@.to_set().contains(x) implies firsts_at(pset, fset, cs, *conninfo, nfeds as nat, o as int).contains(x) by {
                    assert(pre[o as int]@.contains(x));
                    if first_of_preds(predicates@, predicates@.len() as int, cs, *conninfo, o as int, x) {
                        let j = choose|j: int|
                            0 <= j < predicates@.len() && #[trigger] first_hit(predicates@[j], cs, *conninfo, o as int) && x == Event::First(predicates@[j]);
                        assert(pset.contains(predicates@[j]));
                    } else {
                        let j = choose|j: int|
                            0 <= j < federate_wise_predicates@.len() && #[trigger] fed_first_hit(federate_wise_predicates@[j], cs, *conninfo, nfeds as nat, o as int)
                                && x == Event::FirstInEquivClass { proj: cs[o as int].fedid, set: federate_wise_predicates@[j] };
                        assert(fset.contains(federate_wise_predicates@[j]));
                    }
                }
                assert forall|x: Event| firsts_at(pset, fset, cs, *conninfo, nfeds as nat, o as int).contains(x) implies these@.to_set().contains(x) by {
                    if exists|p: UnaryRelation| pset.contains(p) && #[trigger] first_hit(p, cs, *conninfo, o as int) && x == Event::First(p) {
                        let p = choose|p: UnaryRelation| pset.contains(p) && #[trigger] first_hit(p, cs, *conninfo, o as int) && x == Event::First(p);
                        let j = choose|j: int| 0 <= j < predicates@.len() && predicates@[j] == p;
                        assert(first_hit(predicates@[j], cs, *conninfo, o as int));
                        assert(first_of_preds(predicates@, predicates@.len() as int, cs, *conninfo, o as int, x));
                    } else {
                        let p = choose|p: UnaryRelation| fset.contains(p) && #[trigger] fed_first_hit(p, cs, *conninfo, nfeds as nat, o as int)
                            && x == Event::FirstInEquivClass { proj: cs[o as int].fedid, set: p };
                        let j = choose|j: int| 0 <= j < federate_wise_predicates@.len() && federate_wise_predicates@[j] == p;
                        assert(fed_first_hit(federate_wise_predicates@[j], cs, *conninfo, nfeds as nat, o as int));
                        assert(fed_first_of_preds(federate_wise_predicates@, federate_wise_predicates@.len() as int, cs, *conninfo, nfeds as nat, o as int, x));
                    }
                    assert(pre[o as int]@.contains(x));
                }
            }
        }
        let mut sorted = sort_events(these);
        let ghost before_ret = ret@;
        let ghost sorted_view = sorted@;
        proof {
            assert forall|i: int| 0 <= i < sorted_view.len() implies !(#[trigger] sorted_view[i] is Concrete) by {
                let x = sorted_view[i];
                vstd::seq_lib::to_multiset_contains(sorted_view, x);
                vstd::seq_lib::to_multiset_contains(these@, x);
                assert(sorted_view.contains(x));
                assert(pre[o as int]@.contains(x));
            }
            lemma_recorded_step(before_ret, sorted_view, cs[o as int]);
            assert(as_events(cs.take(o + 1)) =~= as_events(cs.take(o as int)).push(Event::Concrete(cs[o as int])));
        }
        ret.append(&mut sorted);
        ret.push(Event::Concrete(concretes[o]));
        proof {
            assert(ret@ =~= before_ret + sorted_view.push(Event::Concrete(cs[o as int])));
            assert(ret@ =~= elaborated(pset, fset, cs, *conninfo, nfeds as nat, o + 1));
            assert forall|k: int| o + 1 <= k < n implies (#[trigger] firsts@[k])@.no_duplicates() by {
                assert(firsts@[k] == pre[k]);
            }
            assert forall|k: int, e: Event| o + 1 <= k < n implies (#[trigger] firsts@[k]@.contains(e) <==> first_of_preds(
                predicates@,
                predicates@.len() as int,
                cs,
                *conninfo,
                k,
                e,
            ) || fed_first_of_preds(federate_wise_predicates@, federate_wise_predicates@.len() as int, cs, *conninfo, nfeds as nat, k, e)) by {
                assert(firsts@[k] == pre[k]);
            }
        }
        o += 1;
    }
    assert(cs.take(n as int) =~= cs);
    ret
}

/// Among the first `k` predicates for each federate, one whose first event for the federate of
/// the event at `o` is that event has `e` as its virtual first event.
pub open spec fn fed_first_of_preds(
    preds: Seq<UnaryRelation>,
    k: int,
    cs: Seq<ConcEvent>,
    ci: ConnInfo,
    nfeds: nat,
    o: int,
    e: Event,
) -> bool {
    exists|j: int|
        0 <= j < k && #[trigger] fed_first_hit(preds[j], cs, ci, nfeds, o) && e
            == Event::FirstInEquivClass { proj: cs[o].fedid, set: preds[j] }
}

/// Adds, at each concrete event that is the first of its federate to satisfy `p` (until the
/// search has found one for each of the `nfeds` federates), the virtual first event of `p` for
/// that federate.
fn mark_fed_firsts(
    firsts: &mut Vec<Vec<Event>>,
    p: &UnaryRelation,
    concretes: &Vec<ConcEvent>,
    conninfo: &ConnInfo,
    nfeds: usize,
)
    requires
        conninfo.wf(),
        old(firsts)@.len() == concretes@.len() <= u32::MAX,
        forall|i: int| 0 <= i < concretes@.len() ==> #[trigger] u_ok(*p, Event::Concrete(concretes@[i]), *conninfo),
        forall|o: int| 0 <= o < concretes@.len() ==> (#[trigger] old(firsts)@[o])@.no_duplicates(),
        forall|o: int, q: FedId|
            0 <= o < concretes@.len() ==> !(#[trigger] old(firsts)@[o]@.contains(
                Event::FirstInEquivClass { proj: q, set: *p },
            )),
    ensures
        final(firsts)@.len() == old(firsts)@.len(),
        forall|o: int| 0 <= o < concretes@.len() ==> (#[trigger] final(firsts)@[o])@.no_duplicates(),
        forall|o: int, x: Event|
            0 <= o < concretes@.len() ==> (#[trigger] final(firsts)@[o]@.contains(x) <==> (old(
                firsts,
            )@[o]@.contains(x) || (fed_first_hit(*p, concretes@, *conninfo, nfeds as nat, o) && x
                == Event::FirstInEquivClass { proj: concretes@[o].fedid, set: *p }))),
{
    let n = concretes.len();
    let ghost cs = concretes@;
    let ghost pre = firsts@;
    let mut hit: Vec<FedId> = Vec::new();
    let mut ogr: usize = 0;
    proof {
        assert(feds_before(*p, cs, *conninfo, 0) =~= Set::empty());
        assert(hit@.to_set() =~= Set::empty());
    }
    while ogr < n
        invariant_except_break
            nfeds == 0 || hit@.len() < nfeds,
        invariant
            conninfo.wf(),
            n == cs.len() <= u32::MAX,
            cs == concretes@,
            forall|i: int| 0 <= i < n ==> #[trigger] u_ok(*p, Event::Concrete(cs[i]), *conninfo),
            ogr <= n,
            firsts@.len() == n,
            pre.len() == n,
            hit@.no_duplicates(),
            hit@.len() <= ogr,
            hit@.to_set() == feds_before(*p, cs, *conninfo, ogr as int),
            forall|o: int| 0 <= o < n ==> (#[trigger] pre[o])@.no_duplicates(),
            forall|o: int, q: FedId|
                0 <= o < n ==> !(#[trigger] pre[o]@.contains(Event::FirstInEquivClass { proj: q, set: *p })),
            forall|o: int| ogr <= o < n ==> #[trigger] firsts@[o] == pre[o],
            forall|o: int| 0 <= o < ogr ==> (#[trigger] firsts@[o])@.no_duplicates(),
            forall|o: int, x: Event|
                0 <= o < ogr ==> (#[trigger] firsts@[o]@.contains(x) <==> (pre[o]@.contains(x) || (
                fed_first_hit(*p, cs, *conninfo, nfeds as nat, o) && x == Event::FirstInEquivClass {
                    proj: cs[o].fedid,
                    set: *p,
                }))),
        ensures
            ogr <= n,
            firsts@.len() == n,
            forall|o: int| ogr <= o < n ==> #[trigger] firsts@[o] == pre[o],
            forall|o: int| ogr <= o < n ==> !#[trigger] fed_first_hit(*p, cs, *conninfo, nfeds as nat, o),
            forall|o: int| 0 <= o < ogr ==> (#[trigger] firsts@[o])@.no_duplicates(),
            forall|o: int, x: Event|
                0 <= o < ogr ==> (#[trigger] firsts@[o]@.contains(x) <==> (pre[o]@.contains(x) || (
                fed_first_hit(*p, cs, *conninfo, nfeds as nat, o) && x == Event::FirstInEquivClass {
                    proj: cs[o].fedid,
                    set: *p,
                }))),
        decreases n - ogr,
    {
        let c = concretes[ogr];
        assert(u_ok(*p, Event::Concrete(cs[ogr as int]), *conninfo));
        let holds = p.holds(&[Event::Concrete(c)], conninfo);
        proof {
            lemma_feds_before_step(*p, cs, *conninfo, ogr as int);
            lemma_no_dup_len(hit@);
        }
        if holds && !contains_fed(&hit, c.fedid) {
            let e = Event::FirstInEquivClass { proj: c.fedid, set: p.duplicate() };
            let ghost before = firsts@;
            push_at(firsts, ogr, e);
            let ghost hit0 = hit@;
            hit.push(c.fedid);
            proof {
                assert(fed_first_hit(*p, cs, *conninfo, nfeds as nat, ogr as int));
                assert(hit@.to_set() =~= hit0.to_set().insert(c.fedid)) by {
                    assert forall|f: FedId| hit0.to_set().insert(c.fedid).contains(f) implies hit@.contains(f) by {
                        if f == c.fedid {
                            assert(hit@[hit0.len() as int] == f);
                        } else {
                            let j = choose|j: int| 0 <= j < hit0.len() && hit0[j] == f;
                            assert(hit@[j] == f);
                        }
                    }
                    assert forall|f: FedId| hit@.contains(f) implies hit0.to_set().insert(c.fedid).contains(f) by {
                        let j = choose|j: int| 0 <= j < hit@.len() && hit@[j] == f;
                        if j < hit0.len() {
                            assert(hit0.contains(f));
                        }
                    }
                }
                assert forall|a: int, b: int| 0 <= a < b < hit@.len() implies hit@[a] != hit@[b] by {
                    if b == hit0.len() {
                        assert(hit0.contains(hit@[a]));
                    }
                }
                let o = ogr as int;
                assert forall|a: int, b: int| 0 <= a < b < firsts@[o]@.len() implies firsts@[o]@[a] != firsts@[o]@[b] by {
                    if b == pre[o]@.len() {
                        assert(pre[o]@.contains(firsts@[o]@[a]));
                    }
                }
                assert forall|x: Event| #[trigger] firsts@[o]@.contains(x) <==> (pre[o]@.contains(x) || (
                    fed_first_hit(*p, cs, *conninfo, nfeds as nat, o) && x == Event::FirstInEquivClass {
                        proj: cs[o].fedid,
                        set: *p,
                    })) by {
                    if x == e {
                        assert(firsts@[o]@[pre[o]@.len() as int] == x);
                    } else if firsts@[o]@.contains(x) {
                        let k = choose|k: int| 0 <= k < firsts@[o]@.len() && firsts@[o]@[k] == x;
                        assert(pre[o]@.contains(x));
                    } else if pre[o]@.contains(x) {
                        let k = choose|k: int| 0 <= k < pre[o]@.len() && pre[o]@[k] == x;
                        assert(firsts@[o]@[k] == x);
                    }
                }
                assert forall|k: int| ogr + 1 <= k < n implies #[trigger] firsts@[k] == pre[k] by {
                    assert(firsts@[k] == before[k]);
                }
                assert forall|k: int| 0 <= k < ogr implies #[trigger] firsts@[k] == before[k] by {}
            }
            if nfeds > 0 && hit.len() == nfeds {
                proof {
                    lemma_no_dup_len(hit@);
                    assert forall|o: int| ogr + 1 <= o < n implies !#[trigger] fed_first_hit(*p, cs, *conninfo, nfeds as nat, o) by {
                        lemma_feds_before_grow(*p, cs, *conninfo, ogr + 1, o);
                    }
                }
                ogr += 1;
                break;
            }
        } else {
            proof {
                if holds {
                    assert(hit@.contains(c.fedid));
                    assert(hit@.to_set().insert(c.fedid) =~= hit@.to_set());
                }
                assert(!fed_first_hit(*p, cs, *conninfo, nfeds as nat, ogr as int));
            }
        }
        ogr += 1;
    }
}

/// Among the first `k` predicates, one whose first event is at `o` has `e` as its virtual first
/// event.
pub open spec fn first_of_preds(
    preds: Seq<UnaryRelation>,
    k: int,
    cs: Seq<ConcEvent>,
    ci: ConnInfo,
    o: int,
    e: Event,
) -> bool {
    exists|j: int| 0 <= j < k && #[trigger] first_hit(preds[j], cs, ci, o) && e == Event::First(preds[j])
}

/// Appends `e` to the `i`-th vector.
fn push_at(v: &mut Vec<Vec<Event>>, i: usize, e: Event)
    requires
        i < old(v)@.len(),
    ensures
        final(v)@.len() == old(v)@.len(),
        final(v)@[i as int]@ == old(v)@[i as int]@.push(e),
        forall|j: int| 0 <= j < old(v)@.len() && j != i ==> final(v)@[j] == old(v)@[j],
{
    v[i].push(e);
}

/// Why a textual event could not be read.
#[derive(Debug, Clone, Copy, PartialEq, Eq, Structural, Hash)]
pub enum EventParseError {
    InvalidEventKind,
    InvalidTag,
    InvalidFedId,
    InvalidUniqueId,
}

/// What the notation of the rules means, for a reader who is not familiar with it.
pub open spec fn syntax_explanation_text() -> Seq<char> {
    "A Tag is basically like a time, so it makes sense to add a delay to a Tag.

Throughout, e1 and e2 will denote events occurring in a process called the RTI. Every event involves the RTI either sending a message to a federate, or receiving a message from a federate. So, if Federate(e1) = f, then that means that e1 is an event in which the RTI either sends a message to f or receives a message from f.

Different federates are connected to each other, possibly using multiple connections, and every connection has a delay associated with it.

e1 \u{227a} e2 means that it is not possible, under any execution of the federated program, for e1 to occur after e2.
"@
}

/// An explanation of the notation of the rules.
pub fn syntax_explanation_for_llm() -> (r: String)
    ensures
        r@ == syntax_explanation_text(),
{
    "A Tag is basically like a time, so it makes sense to add a delay to a Tag.

Throughout, e1 and e2 will denote events occurring in a process called the RTI. Every event involves the RTI either sending a message to a federate, or receiving a message from a federate. So, if Federate(e1) = f, then that means that e1 is an event in which the RTI either sends a message to f or receives a message from f.

Different federates are connected to each other, possibly using multiple connections, and every connection has a delay associated with it.

e1 \u{227a} e2 means that it is not possible, under any execution of the federated program, for e1 to occur after e2.
".to_owned()
}

/// `x` is one of the positions in `r`.
pub open spec fn placed(r: Seq<usize>, x: int) -> bool {
    exists|k: int| 0 <= k < r.len() && r[k] == x
}

/// The record at `a` was made at an earlier physical time than the record at `b`, or at the same
/// time and earlier in the file.
pub open spec fn recorded_before(records: Seq<TraceRecord>, a: int, b: int) -> bool {
    records[a].elapsed_physical_time < records[b].elapsed_physical_time || (records[a].elapsed_physical_time
        == records[b].elapsed_physical_time && a < b)
}

/// The positions of the records in order of physical time; records made at the same time keep
/// the order of the file.
pub fn physical_time_order(records: &Vec<TraceRecord>) -> (r: Vec<usize>)
    ensures
        r@.len() == records@.len(),
        forall|i: int, j: int| 0 <= i < j < r@.len() ==> recorded_before(records@, r@[i] as int, r@[j] as int),
        forall|x: int| #[trigger] placed(r@, x) <==> 0 <= x < records@.len(),
{
    let mut r: Vec<usize> = Vec::new();
    let mut idx: usize = 0;
    while idx < records.len()
        invariant
            idx <= records@.len(),
            r@.len() == idx,
            forall|k: int| 0 <= k < r@.len() ==> r@[k] < idx,
            forall|i: int, j: int| 0 <= i < j < r@.len() ==> recorded_before(records@, r@[i] as int, r@[j] as int),
            forall|x: int| #[trigger] placed(r@, x) <==> 0 <= x < idx,
        decreases records@.len() - idx,
    {
        let t = records[idx].elapsed_physical_time;
        let mut p: usize = r.len();
        while p > 0 && records[r[p - 1]].elapsed_physical_time > t
            invariant
                p <= r@.len(),
                idx < records@.len(),
                t == records@[idx as int].elapsed_physical_time,
                forall|k: int| 0 <= k < r@.len() ==> r@[k] < idx,
                forall|q: int| p <= q < r@.len() ==> records@[r@[q] as int].elapsed_physical_time > t,
            decreases p,
        {
            p = p - 1;
        }
        let ghost before = r@;
        r.insert(p, idx);
        proof {
            assert forall|i: int, j: int| 0 <= i < j < r@.len() implies recorded_before(records@, r@[i] as int, r@[j] as int) by {
                if j < p {
                    assert(r@[i] == before[i] && r@[j] == before[j]);
                } else if j == p {
                    assert(r@[i] == before[i]);
                    if p > 0 {
                        assert(records@[before[p - 1] as int].elapsed_physical_time <= t);
                        if i < p - 1 {
                            assert(recorded_before(records@, before[i] as int, before[p - 1] as int));
                        }
                    }
                } else if i < p {
                    assert(r@[i] == before[i] && r@[j] == before[j - 1]);
                } else if i == p {
                    assert(r@[j] == before[j - 1]);
                } else {
                    assert(r@[i] == before[i - 1] && r@[j] == before[j - 1]);
                }
            }
            assert forall|x: int| #[trigger] placed(r@, x) <==> 0 <= x < idx + 1 by {
                if 0 <= x < idx {
                    assert(placed(before, x));
                    let k = choose|k: int| 0 <= k < before.len() && before[k] == x;
                    if k < p {
                        assert(r@[k] == x);
                    } else {
                        assert(r@[k + 1] == x);
                    }
                }
                if x == idx {
                    assert(r@[p as int] == x);
                }
                if placed(r@, x) {
                    let k = choose|k: int| 0 <= k < r@.len() && r@[k] == x;
                    if k < p {
                        assert(before[k] == x);
                        assert(placed(before, x));
                    } else if k > p {
                        assert(before[k - 1] == x);
                        assert(placed(before, x));
                    }
                }
            }
        }
        idx += 1;
    }
    r
}

// ---------------------------------------------------------------------------------------------
// Checking that a trace can be elaborated
// ---------------------------------------------------------------------------------------------

fn plain_pred_exec(u: &UnaryRelation) -> (b: bool)
    ensures
        b == plain_pred(*u),
    decreases u,
{
    match u {
        UnaryRelation::Atom(_) => true,
        UnaryRelation::And(l) => plain_list_exec(l),
        UnaryRelation::Or(l) => plain_list_exec(l),
        UnaryRelation::Not(x) => plain_pred_exec(x),
        _ => false,
    }
}

fn plain_list_exec(l: &UnaryRelations) -> (b: bool)
    ensures
        b == plain_list(*l),
    decreases l,
{
    match l {
        UnaryRelations::Nil => true,
        UnaryRelations::Cons(h, t) => plain_pred_exec(h) && plain_list_exec(t),
    }
}

fn searchable_exec(brel: &BinaryRelation) -> (b: bool)
    ensures
        b == searchable(*brel),
    decreases brel,
{
    match brel {
        BinaryRelation::Atom(_) => true,
        BinaryRelation::IsFirst(rel) => searchable_exec(rel),
        BinaryRelation::IsFirstForFederate(rel) => searchable_exec(rel),
        BinaryRelation::And(l) => searchable_list_exec(l),
        BinaryRelation::Or(l) => searchable_list_exec(l),
        BinaryRelation::Not(_) => false,
        BinaryRelation::BoundMary(u) => plain_pred_exec(u),
    }
}

fn searchable_list_exec(l: &BinaryRelations) -> (b: bool)
    ensures
        b == searchable_list(*l),
    decreases l,
{
    match l {
        BinaryRelations::Nil => true,
        BinaryRelations::Cons(h, t) => searchable_exec(h) && searchable_list_exec(t),
    }
}

/// Whether the predicate can be evaluated on each of the concrete events.
fn pred_ok_on_all(p: &UnaryRelation, concretes: &Vec<ConcEvent>, conninfo: &ConnInfo) -> (b: bool)
    requires
        conninfo.wf(),
    ensures
        b == event_ok(*p, concretes@, *conninfo),
{
    let mut i: usize = 0;
    while i < concretes.len()
        invariant
            conninfo.wf(),
            i <= concretes@.len(),
            forall|j: int| 0 <= j < i ==> #[trigger] u_ok(*p, Event::Concrete(concretes@[j]), *conninfo),
        decreases concretes@.len() - i,
    {
        if !u_ok_exec(p, &Event::Concrete(concretes[i]), conninfo) {
            return false;
        }
        i += 1;
    }
    true
}

/// Whether every predicate of the list can be evaluated on each of the concrete events.
fn preds_ok_exec(preds: &Vec<UnaryRelation>, concretes: &Vec<ConcEvent>, conninfo: &ConnInfo) -> (b: bool)
    requires
        conninfo.wf(),
    ensures
        b == preds_ok(preds@.to_set(), concretes@, *conninfo),
{
    let mut k: usize = 0;
    while k < preds.len()
        invariant
            conninfo.wf(),
            k <= preds@.len(),
            forall|a: int| 0 <= a < k ==> #[trigger] event_ok(preds@[a], concretes@, *conninfo),
        decreases preds@.len() - k,
    {
        if !pred_ok_on_all(&preds[k], concretes, conninfo) {
            proof {
                let p = preds@[k as int];
                assert(preds@.to_set().contains(p));
                let i = choose|i: int| 0 <= i < concretes@.len() && !u_ok(p, Event::Concrete(concretes@[i]), *conninfo);
                assert(!u_ok(p, Event::Concrete(concretes@[i]), *conninfo));
            }
            return false;
        }
        k += 1;
    }
    proof {
        assert forall|p: UnaryRelation, i: int| preds@.to_set().contains(p) && 0 <= i < concretes@.len() implies #[trigger] u_ok(
            p,
            Event::Concrete(#[trigger] concretes@[i]),
            *conninfo,
        ) by {
            let a = choose|a: int| 0 <= a < preds@.len() && preds@[a] == p;
            assert(event_ok(preds@[a], concretes@, *conninfo));
        }
    }
    true
}

/// The records can be elaborated with the rules without panicking.
pub open spec fn elaboration_ok(records: Seq<TraceRecord>, axioms: Seq<Rule>, ci: ConnInfo) -> bool {
    &&& records.len() <= u32::MAX
    &&& forall|i: int| 0 <= i < records.len() ==> #[trigger] record_ok(records[i])
    &&& rules_searchable(axioms, records_events(records), ci)
    &&& preds_ok(rules_first_preds(axioms, records_events(records), ci, axioms.len() as int).0, records_events(records), ci)
    &&& preds_ok(rules_first_preds(axioms, records_events(records), ci, axioms.len() as int).1, records_events(records), ci)
}

/// The elaborated trace, as `elaborated_from_trace_records` gives it, where the records can be
/// elaborated without panicking; `None` where they cannot (a record names no kind of event or a
/// negative microstep other than -1, or a rule's predicate cannot be evaluated on some event).
pub fn try_elaborated_from_trace_records(
    trace_records: Vec<TraceRecord>,
    axioms: &Vec<Rule>,
    conninfo: &ConnInfo,
) -> (r: Option<Vec<Event>>)
    requires
        conninfo.wf(),
    ensures
        r is Some <==> elaboration_ok(trace_records@, axioms@, *conninfo),
        r matches Some(v) ==> v@ == elaborated(
            rules_first_preds(axioms@, records_events(trace_records@), *conninfo, axioms@.len() as int).0,
            rules_first_preds(axioms@, records_events(trace_records@), *conninfo, axioms@.len() as int).1,
            records_events(trace_records@),
            *conninfo,
            conninfo.stdp2d.n_nodes as nat,
            trace_records@.len() as int,
        ),
        r matches Some(v) ==> recorded_part(v@) == as_events(records_events(trace_records@)),
{
    let n = trace_records.len();
    if n > 0xffff_ffff {
        return None;
    }
    let ghost cs = records_events(trace_records@);
    let mut concretes: Vec<ConcEvent> = Vec::new();
    let mut i: usize = 0;
    while i < n
        invariant
            n == trace_records@.len() <= u32::MAX,
            forall|j: int| 0 <= j < i ==> #[trigger] record_ok(trace_records@[j]),
            cs == records_events(trace_records@),
            i <= n,
            concretes@ == cs.take(i as int),
        decreases n - i,
    {
        let rec = &trace_records[i];
        if EventKind::from_str(rec.event.as_str()).is_err() || rec.microstep < -1 {
            assert(!record_ok(trace_records@[i as int]));
            return None;
        }
        let c = ConcEvent::from_lf_trace_record(rec, OgRank(i as u32));
        concretes.push(c);
        proof {
            assert(concretes@ =~= cs.take(i + 1));
        }
        i += 1;
    }
    assert(concretes@ =~= cs);
    let mut a: usize = 0;
    while a < axioms.len()
        invariant
            conninfo.wf(),
            concretes@ == cs,
            cs == records_events(trace_records@),
            a <= axioms@.len(),
            forall|q: int| 0 <= q < a ==> searchable(#[trigger] axioms@[q].preceding_event) && event_ok(axioms@[q].event, cs, *conninfo),
        decreases axioms@.len() - a,
    {
        if !searchable_exec(&axioms[a].preceding_event) || !pred_ok_on_all(&axioms[a].event, &concretes, conninfo) {
            assert(!(searchable(axioms@[a as int].preceding_event) && event_ok(axioms@[a as int].event, cs, *conninfo)));
            return None;
        }
        a += 1;
    }
    let (predicates, federate_wise_predicates) = get_first_predicates(axioms, &concretes, conninfo);
    if !preds_ok_exec(&predicates, &concretes, conninfo) || !preds_ok_exec(&federate_wise_predicates, &concretes, conninfo) {
        return None;
    }
    Some(elaborated_from_trace_records(trace_records, axioms, conninfo))
}

} // verus!
