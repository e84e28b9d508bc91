use ordserv::axioms::axioms;
use ordserv::conninfo::{ConnInfo, FedId, Tag};
use ordserv::rankset::RankSet;
use ordserv::relation::{
    all_of, any_of, BinaryRelation, DelayTerm, BinaryRelationAtom, ConcEvent, Event, EventKind, OgRank, Term,
    UnaryRelation, UnaryRelationAtom,
};
use ordserv::trace::{
    elaborated_from_trace_records, physical_time_order, syntax_explanation_for_llm,
    try_elaborated_from_trace_records, TraceRecord,
};
use ordserv::unpermutables::{
    preceding_permutables_by_ogrank, rule_ok_exec, rules_ok_exec, try_preceding_permutables_by_ogrank, Rule,
};
use ordserv::relation::{b_ok_exec, u_ok_exec};

fn record(event: &str, dest: i32, time: i64, micro: i64) -> TraceRecord {
    TraceRecord {
        event: event.to_string(),
        reactor: "RTI".to_string(),
        source: -1,
        destination: dest,
        elapsed_logical_time: time,
        microstep: micro,
        elapsed_physical_time: 0,
        trigger: "".to_string(),
        extra_delay: 0,
        file_index: 0,
        line_number: 0,
        sequence_number_for_file_and_line: 0,
    }
}

fn conc(event: EventKind, fed: i32, time: i64, ogrank: u32) -> Event {
    Event::Concrete(ConcEvent { event, tag: Tag(time, 0), fedid: FedId(fed), ogrank: OgRank(ogrank) })
}

fn two_federates() -> ConnInfo {
    ConnInfo::from_strs("2\n0 0\n1 1 0 10\n", &["0 0".to_string(), "1 1 10".to_string()])
}

#[test]
fn event_kinds_by_name() {
    assert_eq!(EventKind::from_str("  Sending TAG "), Ok(EventKind::SendTag));
    assert_eq!(EventKind::from_str("Receiving PORT_ABS"), Ok(EventKind::RecvPortAbs));
    assert_eq!(EventKind::from_str("Sending tag"), Err(()));
}

#[test]
fn a_trace_record_as_an_event() {
    let c = ConcEvent::from_lf_trace_record(&record("Receiving NET", 1, 5, -1), OgRank(4));
    assert_eq!(c.event, EventKind::RecvNet);
    assert_eq!(c.tag, Tag(5, u64::MAX));
    assert_eq!(c.fedid, FedId(1));
    assert_eq!(c.ogrank, OgRank(4));
}

#[test]
fn unary_atoms_hold_of_events() {
    let ci = two_federates();
    let e = [conc(EventKind::SendTag, 1, 3, 0)];
    assert!(UnaryRelationAtom::TagNonzero.holds(&e, &ci));
    assert!(UnaryRelationAtom::TagFinite.holds(&e, &ci));
    assert!(UnaryRelationAtom::EventIs(EventKind::SendTag).holds(&e, &ci));
    assert!(!UnaryRelationAtom::EventIs(EventKind::RecvNet).holds(&e, &ci));
    let zero = [conc(EventKind::SendTag, 0, 0, 0)];
    assert!(!UnaryRelationAtom::TagNonzero.holds(&zero, &ci));
}

#[test]
fn binary_atoms_compare_events() {
    let ci = two_federates();
    let e = [conc(EventKind::SendTag, 0, 3, 0), conc(EventKind::RecvNet, 1, 5, 1)];
    assert!(BinaryRelationAtom::LessThan(Term::Tag, Term::Tag).holds(&e, &ci));
    assert!(!BinaryRelationAtom::GreaterThan(Term::Tag, Term::Tag).holds(&e, &ci));
    assert!(!BinaryRelationAtom::FederateEquals.holds(&e, &ci));
    assert!(BinaryRelationAtom::FederateDirectlyUpstreamOf.holds(&e, &ci));
}

#[test]
fn connectives() {
    let ci = two_federates();
    let e = [conc(EventKind::SendTag, 1, 3, 0)];
    let t = UnaryRelation::Atom(UnaryRelationAtom::TagNonzero);
    let f = UnaryRelation::Atom(UnaryRelationAtom::EventIs(EventKind::RecvNet));
    assert!(!all_of(vec![UnaryRelation::Atom(UnaryRelationAtom::TagNonzero), f]).holds(&e, &ci));
    let f = UnaryRelation::Atom(UnaryRelationAtom::EventIs(EventKind::RecvNet));
    assert!(any_of(vec![t, f]).holds(&e, &ci));
    let f = UnaryRelation::Atom(UnaryRelationAtom::EventIs(EventKind::RecvNet));
    assert!(UnaryRelation::Not(Box::new(f)).holds(&e, &ci));
    let b = BinaryRelation::Atom(BinaryRelationAtom::FederateEquals);
    let pair = [conc(EventKind::SendTag, 1, 3, 0), conc(EventKind::RecvNet, 1, 4, 1)];
    assert!(b.holds(&pair, &ci));
}

#[test]
fn there_are_eighteen_axioms() {
    assert_eq!(axioms().len(), 18);
}

#[test]
fn a_rule_finds_its_first_violation() {
    let ci = two_federates();
    // No event of the same federate may come after a tag-sending event.
    let rule = Rule {
        event: UnaryRelation::Atom(UnaryRelationAtom::EventIs(EventKind::SendTag)),
        preceding_event: BinaryRelation::Atom(BinaryRelationAtom::FederateEquals),
    };
    let ok = vec![conc(EventKind::RecvNet, 0, 1, 0), conc(EventKind::SendTag, 0, 2, 1)];
    assert!(rule.check(&ok, &ci).is_ok());
    let other_federate = vec![conc(EventKind::SendTag, 1, 1, 0), conc(EventKind::SendTag, 0, 2, 1)];
    assert!(rule.check(&other_federate, &ci).is_ok());
    let bad = vec![
        conc(EventKind::RecvNet, 1, 0, 0),
        conc(EventKind::SendTag, 0, 1, 1),
        conc(EventKind::RecvNet, 0, 2, 2),
        conc(EventKind::RecvNet, 0, 3, 3),
    ];
    let v = rule.check(&bad, &ci).unwrap_err();
    assert_eq!(v.ogrank, 1);
    assert_eq!(v.counterexample, 2);
}

#[test]
fn elaborated_traces_keep_the_recorded_events() {
    let ci = two_federates();
    let records = vec![
        record("Receiving FED_ID", 0, 0, 0),
        record("Receiving FED_ID", 1, 0, 0),
        record("Sending ACK", 0, 0, 0),
        record("Sending ACK", 1, 0, 0),
    ];
    let axs = axioms();
    let trace = elaborated_from_trace_records(records, &axs, &ci);
    let concrete: Vec<u32> = trace
        .iter()
        .filter_map(|e| match e {
            Event::Concrete(c) => Some(c.ogrank.0),
            _ => None,
        })
        .collect();
    // The recorded events stay, in their order.
    assert_eq!(concrete, vec![0, 1, 2, 3]);
    let always = RankSet::full(trace.len());
    match preceding_permutables_by_ogrank(&trace, &axs, always, &ci) {
        Ok((uses, permutables)) => {
            assert_eq!(uses.len(), axs.len());
            assert_eq!(permutables.len(), trace.len());
            for (k, p) in permutables.iter().enumerate() {
                assert!(p.to_sorted_vec().iter().all(|x| (*x as usize) < k));
            }
        }
        Err(v) => assert!(v.ogrank < trace.len()),
    }
}

#[test]
fn the_notation_is_explained() {
    let text = syntax_explanation_for_llm();
    assert!(text.starts_with("A Tag is basically like a time"));
    assert!(text.ends_with("for e1 to occur after e2.\n"));
}

#[test]
fn records_are_ordered_by_physical_time_stably() {
    let mut records = Vec::new();
    for (k, t) in [5i64, 1, 5, 0, 1].iter().enumerate() {
        let mut r = record("Sending TAG", 0, k as i64, 0);
        r.elapsed_physical_time = *t;
        records.push(r);
    }
    assert_eq!(physical_time_order(&records), vec![3, 1, 4, 0, 2]);
    assert_eq!(physical_time_order(&Vec::new()), Vec::<usize>::new());
}

#[test]
fn checked_elaboration_agrees_and_refuses_bad_records() {
    let ci = two_federates();
    let records = vec![
        record("Receiving FED_ID", 0, 0, 0),
        record("Receiving FED_ID", 1, 0, 0),
        record("Sending ACK", 0, 0, 0),
        record("Sending ACK", 1, 0, 0),
    ];
    let axs = axioms();
    let checked = try_elaborated_from_trace_records(records.clone(), &axs, &ci).unwrap();
    let plain = elaborated_from_trace_records(records, &axs, &ci);
    assert_eq!(checked, plain);
    assert!(rules_ok_exec(&axs, &checked, &ci));
    let always = RankSet::full(checked.len());
    let r = try_preceding_permutables_by_ogrank(&checked, &axs, always, &ci);
    assert!(r.is_some());
    let unknown = vec![record("Receiving SOMETHING", 0, 0, 0)];
    assert!(try_elaborated_from_trace_records(unknown, &axs, &ci).is_none());
    let bad_microstep = vec![record("Sending ACK", 0, 0, -2)];
    assert!(try_elaborated_from_trace_records(bad_microstep, &axs, &ci).is_none());
    let unobserved_microstep = vec![record("Sending ACK", 0, 0, -1)];
    assert!(try_elaborated_from_trace_records(unobserved_microstep, &axs, &ci).is_some());
}

#[test]
fn evaluation_checks_catch_overflow_and_first_events() {
    let ci = two_federates();
    let finite = UnaryRelation::Atom(UnaryRelationAtom::TagFinite);
    let at_min = Event::Concrete(ConcEvent {
        event: EventKind::SendTag,
        tag: Tag(i64::MIN, 0),
        fedid: FedId(0),
        ogrank: OgRank(0),
    });
    assert!(!u_ok_exec(&finite, &at_min, &ci));
    assert!(u_ok_exec(&finite, &conc(EventKind::SendTag, 0, 5, 0), &ci));
    let first = UnaryRelation::IsFirst(Box::new(BinaryRelation::Atom(BinaryRelationAtom::FederateEquals)));
    let virtual_first = Event::First(UnaryRelation::Atom(UnaryRelationAtom::TagNonzero));
    assert!(!u_ok_exec(&first, &virtual_first, &ci));
    let far = Event::Concrete(ConcEvent {
        event: EventKind::SendTag,
        tag: Tag(i64::MAX - 1, 0),
        fedid: FedId(0),
        ogrank: OgRank(0),
    });
    let strict = BinaryRelation::Atom(BinaryRelationAtom::LessThan(
        Term::TagStrictPlusDelay(DelayTerm::SmallestDelayBetween),
        Term::Tag,
    ));
    // Federate 0 reaches federate 1 with a delay of 10: adding it to a tag near the end overflows.
    let late = conc(EventKind::SendTag, 1, 0, 1);
    assert!(!b_ok_exec(&strict, &far, &late, &ci));
    assert!(b_ok_exec(&strict, &conc(EventKind::SendTag, 0, 5, 0), &late, &ci));
    let rule = Rule {
        event: UnaryRelation::Atom(UnaryRelationAtom::EventIs(EventKind::SendTag)),
        preceding_event: strict,
    };
    assert!(!rule_ok_exec(&rule, &vec![far, late], &ci));
}
