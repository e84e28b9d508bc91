use ordserv::axioms::axioms;
use ordserv::conninfo::{Delay, FedId, Tag};
use ordserv::relation::{
    all_of, any_of, BinaryRelation, BinaryRelationAtom, DelayTerm, EventKind, Term, UnaryRelation,
    UnaryRelationAtom,
};
use ordserv::render::replace_chars;
use ordserv::unpermutables::Rule;

fn chars(s: &str) -> Vec<char> {
    s.chars().collect()
}

#[test]
fn kinds_of_events_read_back() {
    let kinds = [
        EventKind::RecvFedId,
        EventKind::SendAck,
        EventKind::SendTimestamp,
        EventKind::RecvTimestamp,
        EventKind::RecvNet,
        EventKind::SendPortAbs,
        EventKind::RecvPortAbs,
        EventKind::SendPtag,
        EventKind::SendTaggedMsg,
        EventKind::RecvTaggedMsg,
        EventKind::SendTag,
        EventKind::RecvStopReq,
        EventKind::SendStopReq,
        EventKind::RecvStopReqRep,
        EventKind::SendStopGrn,
        EventKind::RecvLtc,
    ];
    for k in kinds {
        assert_eq!(EventKind::from_str(&k.to_string()), Ok(k));
    }
    assert_eq!(EventKind::SendTaggedMsg.to_string(), "Sending TAGGED_MSG");
}

#[test]
fn tags_and_delays() {
    assert_eq!(Tag(-5, 3).to_string(), "(-5, 3)");
    assert_eq!(Tag(0, u64::MAX).to_string(), "(0, 18446744073709551615)");
    assert_eq!(Delay(0, 0).to_string(), "no_delay");
    assert_eq!(Delay(0, 1).to_string(), "(0, 0)");
    assert_eq!(Delay(25, 0).to_string(), "25");
}

#[test]
fn terms_and_atoms() {
    assert_eq!(Term::Tag.to_string(), "(Tag eXXX)");
    assert_eq!(
        Term::TagPlusDelay(DelayTerm::SmallestDelayFromSomeImmUpstreamFed).to_string(),
        "(Tag eXXX) + (smallest delay of a connection going in to the federate of eXXX)"
    );
    assert_eq!(UnaryRelationAtom::TagNonzero.to_string(), "(Tag eXXX) \u{2260} 0");
    assert_eq!(
        UnaryRelationAtom::EventIs(EventKind::RecvLtc).to_string(),
        "(eXXX is (Receiving LTC))"
    );
    assert_eq!(
        BinaryRelationAtom::LessThanOrEqual(
            Term::TagPlusDelay(DelayTerm::SmallestDelayFromSomeImmUpstreamFed),
            Term::Tag
        )
        .to_string(),
        "(Tag e1) + (smallest delay of a connection going in to the federate of e1) \u{2264} (Tag e2)"
    );
    assert_eq!(
        BinaryRelationAtom::FederateEquals.to_string(),
        "Federate(e1) = Federate(e2)"
    );
}

#[test]
fn conjunctions_and_disjunctions() {
    let a = UnaryRelation::Atom(UnaryRelationAtom::TagNonzero);
    let b = UnaryRelation::Atom(UnaryRelationAtom::TagFinite);
    let c = UnaryRelation::Atom(UnaryRelationAtom::EventIs(EventKind::SendAck));
    let and = all_of(vec![a.duplicate(), b.duplicate(), c.duplicate()]);
    assert_eq!(
        and.to_string(),
        "((Tag eXXX) \u{2260} 0) \u{2227} (Tag eXXX) finite \u{2227} (eXXX is (Sending ACK)))"
    );
    let or = any_of(vec![a.duplicate(), b.duplicate()]);
    assert_eq!(or.to_string(), "((Tag eXXX) \u{2260} 0 \u{2228} (Tag eXXX) finite)");
    let not = UnaryRelation::Not(Box::new(c));
    assert_eq!(not.to_string(), "\u{ac}(eXXX is (Sending ACK))");
    let empty = all_of(vec![]);
    assert!(!ordserv::render::u_has_text_exec(&empty));
}

#[test]
fn rules_name_their_two_events() {
    let rule = Rule {
        event: UnaryRelation::Atom(UnaryRelationAtom::EventIs(EventKind::SendTag)),
        preceding_event: BinaryRelation::Atom(BinaryRelationAtom::LessThan(Term::Tag, Term::Tag)),
    };
    assert!(rule.has_text());
    assert_eq!(
        rule.to_string(),
        "(Tag e1) < (Tag e2) \u{2227} (e2 is (Sending TAG)) \u{21d2} e1 \u{227a} e2"
    );
    let bound = BinaryRelation::BoundMary(Box::new(UnaryRelation::Atom(UnaryRelationAtom::TagFinite)));
    assert_eq!(bound.to_string(), "(Tag eXXX) finite");
    let first = BinaryRelation::IsFirst(Box::new(BinaryRelation::Atom(BinaryRelationAtom::FederateEquals)));
    assert_eq!(first.to_string(), "(FIRST Federate(e1) = Federate(e2))");
}

#[test]
fn every_axiom_has_a_text() {
    for ax in axioms() {
        assert!(ax.has_text());
        let text = ax.to_string();
        assert!(text.ends_with(" \u{21d2} e1 \u{227a} e2"));
        assert!(!text.contains("eXXX"));
    }
}

#[test]
fn replacing_is_left_to_right_and_non_overlapping() {
    let r = replace_chars(&chars("aaaa"), &chars("aa"), &chars("b"));
    assert_eq!(r, chars("bb"));
    let r = replace_chars(&chars("xaaay"), &chars("aa"), &chars("<>"));
    assert_eq!(r, chars("x<>ay"));
    let r = replace_chars(&chars(""), &chars("a"), &chars("b"));
    assert_eq!(r, chars(""));
}

#[test]
fn federate_identifiers_are_read() {
    assert_eq!(FedId::from_str("FedId(12)"), Ok(FedId(12)));
    assert_eq!(FedId::from_str("  FedId(-3) "), Ok(FedId(-3)));
    // The characters around the number are not checked.
    assert_eq!(FedId::from_str("xxxxxx7]"), Ok(FedId(7)));
    assert_eq!(FedId::from_str("FedId(x)"), Err("Invalid FED_ID: FedId(x)".to_string()));
    assert_eq!(FedId::from_str("FedId()"), Err("Invalid FED_ID: FedId()".to_string()));
}
