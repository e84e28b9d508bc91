use ordserv::enumerate::{inexact_combinations, PowerBool};
use ordserv::lfenumerate::ByFuel;
use ordserv::relation::{UnaryRelation, UnaryRelations};

/// Writes a predicate the way the derived `Debug` of a predicate with slice operands does.
fn debug_text(r: &UnaryRelation) -> String {
    match r {
        UnaryRelation::Atom(a) => format!("Atom({:?})", a),
        UnaryRelation::And(l) => format!("And([{}])", list_text(l)),
        UnaryRelation::Or(l) => format!("Or([{}])", list_text(l)),
        UnaryRelation::Not(x) => format!("Not({})", debug_text(x)),
        other => format!("{:?}", other),
    }
}

fn list_text(l: &UnaryRelations) -> String {
    let mut parts: Vec<String> = vec![];
    let mut cur = l;
    while let UnaryRelations::Cons(h, t) = cur {
        parts.push(debug_text(h));
        cur = t;
    }
    parts.join(", ")
}

#[test]
fn test_predicates_with_fuel() {
    let mut predicates = ByFuel::default();
    let predicates: Vec<_> = predicates.advance(5);
    let expect = "Atom(FedHasNoneUpstreamWithDelayLessThanOrEqualCurrentTag)
Or([And([Atom(EventIs(SendTaggedMsg))]), Atom(EventIs(RecvStopReq)), Atom(EventIs(RecvTimestamp))])
Or([And([Atom(EventIs(RecvTimestamp)), Atom(TagNonzero), Atom(FedHasNoneUpstreamWithDelayLessThanOrEqualCurrentTag)]), Atom(EventIs(SendTag)), Atom(EventIs(SendTimestamp))])
And([Or([Atom(EventIs(SendTaggedMsg)), Atom(EventIs(SendAck)), Atom(FedHasNoneUpstreamWithDelayLessThanOrEqualCurrentTag)]), Atom(EventIs(SendTaggedMsg)), Atom(EventIs(SendTaggedMsg))])
And([Or([Atom(EventIs(RecvStopReq)), Atom(EventIs(SendTaggedMsg)), Atom(EventIs(RecvTimestamp))]), Atom(TagFinite), Atom(TagFinite)])
Or([And([Atom(EventIs(SendStopGrn)), Atom(TagFinite), Atom(TagNonzero)]), Atom(EventIs(SendTimestamp)), Atom(FedHasNoneUpstreamWithDelayLessThanOrEqualCurrentTag)])
And([Or([Not(Atom(FedHasNoneUpstreamWithDelayLessThanOrEqualCurrentTag)), Atom(TagNonzero), Atom(FedHasNoneUpstreamWithDelayLessThanOrEqualCurrentTag)]), Atom(EventIs(SendPtag)), Atom(TagFinite)])
Or([And([Not(Atom(FedHasNoneUpstreamWithDelayLessThanOrEqualCurrentTag)), Atom(TagFinite), Atom(EventIs(SendPortAbs))]), Atom(FedHasNoneUpstreamWithDelayLessThanOrEqualCurrentTag), Atom(FedHasNoneUpstreamWithDelayLessThanOrEqualCurrentTag)])
And([Or([Not(Atom(FedHasNoneUpstreamWithDelayLessThanOrEqualCurrentTag)), Atom(EventIs(RecvTimestamp)), Atom(EventIs(RecvStopReq))]), Atom(FedHasNoneUpstreamWithDelayLessThanOrEqualCurrentTag), Atom(FedHasNoneUpstreamWithDelayLessThanOrEqualCurrentTag)])
And([Or([Not(Atom(FedHasNoneUpstreamWithDelayLessThanOrEqualCurrentTag)), Atom(EventIs(SendTag)), Atom(EventIs(SendPtag))]), Atom(FedHasNoneUpstreamWithDelayLessThanOrEqualCurrentTag), Atom(TagFinite)])
Or([And([Not(Atom(TagNonzero)), Atom(FedHasNoneUpstreamWithDelayLessThanOrEqualCurrentTag), Atom(EventIs(SendTimestamp))]), Atom(EventIs(RecvNet)), Atom(EventIs(RecvPortAbs))])
Or([And([Not(Atom(TagNonzero)), Atom(TagFinite), Atom(EventIs(SendTaggedMsg))]), Atom(EventIs(RecvNet)), Atom(EventIs(SendTaggedMsg))])
Or([And([Not(Atom(TagNonzero)), Atom(EventIs(RecvNet)), Atom(EventIs(RecvNet))]), Atom(EventIs(SendStopReq)), Atom(EventIs(SendTag))])
Or([And([Not(Atom(TagNonzero)), Atom(EventIs(RecvStopReq)), Atom(TagFinite)]), Atom(EventIs(SendStopGrn)), Atom(FedHasNoneUpstreamWithDelayLessThanOrEqualCurrentTag)])
Or([And([Not(Atom(TagFinite)), Atom(FedHasNoneUpstreamWithDelayLessThanOrEqualCurrentTag), Atom(EventIs(SendPortAbs))]), Atom(EventIs(SendStopReq)), Atom(TagNonzero)])
Or([And([Not(Atom(TagFinite)), Atom(TagNonzero), Atom(EventIs(RecvStopReqRep))]), Atom(EventIs(SendPortAbs)), Atom(TagNonzero)])
Or([And([Not(Atom(TagFinite)), Atom(EventIs(SendPortAbs)), Atom(EventIs(SendPortAbs))]), Atom(EventIs(RecvFedId)), Atom(TagNonzero)])
Or([And([Not(Atom(TagFinite)), Atom(EventIs(SendStopReq)), Atom(TagNonzero)]), Atom(EventIs(RecvTimestamp)), Atom(EventIs(SendPortAbs))])
Or([And([Not(Atom(TagNonzero)), Not(Atom(FedHasNoneUpstreamWithDelayLessThanOrEqualCurrentTag)), Atom(EventIs(SendTag))]), Atom(TagNonzero), Atom(EventIs(RecvLtc))])
Or([And([Not(Atom(TagFinite)), Not(Atom(TagNonzero)), Atom(EventIs(RecvFedId))]), Atom(EventIs(SendStopReq)), Atom(EventIs(SendPtag))])
Or([And([Not(Atom(FedHasNoneUpstreamWithDelayLessThanOrEqualCurrentTag)), Atom(EventIs(SendTaggedMsg))]), Atom(EventIs(SendPortAbs)), Atom(EventIs(SendPtag))])
Or([And([Not(Atom(TagFinite)), Atom(FedHasNoneUpstreamWithDelayLessThanOrEqualCurrentTag)]), Atom(TagNonzero), Atom(EventIs(SendPtag))])
";
    let got = predicates
        .iter()
        .step_by(10000)
        .fold(String::new(), |a, b| a + &format!("{}\n", debug_text(&b.0)));
    assert_eq!(got, expect);
    assert_eq!(predicates.len(), 217178);
}

#[test]
fn inexact_combinations_below_four_are_empty() {
    let lists: Vec<Vec<u32>> = vec![vec![1, 2], vec![3]];
    assert!(inexact_combinations(&lists, 3).is_empty());
    assert!(inexact_combinations(&lists, 0).is_empty());
}

#[test]
fn inexact_combinations_of_fuel_four() {
    // The parts of a predicate of fuel four have fuels below four, halving; lists[f] holds the
    // items of fuel f.
    let lists: Vec<Vec<u32>> = vec![vec![0], vec![10, 11], vec![20], vec![30, 31]];
    let combos = inexact_combinations(&lists, 4);
    let expected: Vec<Vec<u32>> = vec![
        vec![30, 0],
        vec![31, 0],
        vec![11, 10],
        vec![20, 10],
        vec![20, 11],
        vec![0],
        vec![10, 0, 0],
        vec![11, 0, 0],
        vec![11, 10, 0],
        vec![20, 10, 0],
        vec![20, 11, 0],
    ];
    assert_eq!(combos, expected);
}

#[test]
fn power_bool_laws() {
    let t = PowerBool::new_true();
    let f = PowerBool::new_false();
    let top = PowerBool::default();
    assert_eq!(t.not(), f);
    assert_eq!(f.not(), t);
    assert_eq!(top.not(), top);
    assert_eq!(t.not().not(), t);
    let mut x = t;
    x.and(&f);
    assert!(x.uninhabitable());
    assert_eq!(x.not(), top);
    let mut y = t;
    y.or(&f);
    assert!(y.is_top());
    assert!(t.is_true() && !t.is_false());
    assert!(f.is_false() && !f.is_true());
}
