//! The rules that the RTI's traces satisfy.
use vstd::prelude::*;
use crate::relation::{
    all_of, any_of, binary_list, both_of, either_of, unary_list, BinaryRelation,
    BinaryRelationAtom, DelayTerm, EventKind, Term, UnaryRelation, UnaryRelationAtom,
};
use crate::trace::{lemma_plain_list, lemma_searchable_list, searchable};
use crate::unpermutables::Rule;

verus! {

/// The conjunction of the single predicate `x`.
fn only_all(x: UnaryRelation) -> (r: UnaryRelation)
    ensures
        r == UnaryRelation::And(unary_list(seq![x])),
{
    let v = vec![x];
    assert(v@ =~= seq![x]);
    all_of(v)
}

/// The disjunction of the single predicate `x`.
fn only_any(x: UnaryRelation) -> (r: UnaryRelation)
    ensures
        r == UnaryRelation::Or(unary_list(seq![x])),
{
    let v = vec![x];
    assert(v@ =~= seq![x]);
    any_of(v)
}

/// The conjunction of the single relation `x`.
fn only_both(x: BinaryRelation) -> (r: BinaryRelation)
    ensures
        r == BinaryRelation::And(binary_list(seq![x])),
{
    let v = vec![x];
    assert(v@ =~= seq![x]);
    both_of(v)
}

/// LTCs to the same federate are monotonic.
pub open spec fn rule_0() -> Rule {
    Rule {
        preceding_event: BinaryRelation::And(binary_list(seq![
            BinaryRelation::BoundMary(Box::new(UnaryRelation::Atom(UnaryRelationAtom::EventIs(EventKind::RecvLtc)))),
            BinaryRelation::Atom(BinaryRelationAtom::FederateEquals),
            BinaryRelation::Atom(BinaryRelationAtom::LessThan(Term::Tag, Term::Tag))
        ])),
        event: UnaryRelation::Atom(UnaryRelationAtom::EventIs(EventKind::RecvLtc)),
    }
}

/// A TAG or PTAG is sent only after something that shows it is needed: a stop grant, an LTC, or a NET or tagged message, at the same finite nonzero tag.
pub open spec fn rule_1() -> Rule {
    Rule {
        preceding_event: BinaryRelation::IsFirst(Box::new(BinaryRelation::And(binary_list(seq![
            BinaryRelation::Or(binary_list(seq![
                BinaryRelation::BoundMary(Box::new(UnaryRelation::Atom(UnaryRelationAtom::EventIs(EventKind::SendStopGrn)))),
                BinaryRelation::BoundMary(Box::new(UnaryRelation::Atom(UnaryRelationAtom::EventIs(EventKind::RecvLtc)))),
                BinaryRelation::And(binary_list(seq![
                    BinaryRelation::BoundMary(Box::new(UnaryRelation::Or(unary_list(seq![
                        UnaryRelation::Atom(UnaryRelationAtom::EventIs(EventKind::RecvNet)),
                        UnaryRelation::Atom(UnaryRelationAtom::EventIs(EventKind::SendTaggedMsg))
                    ]))))
                ]))
            ])),
            BinaryRelation::Atom(BinaryRelationAtom::Equal(Term::Tag, Term::Tag)),
            BinaryRelation::BoundMary(Box::new(UnaryRelation::And(unary_list(seq![
                UnaryRelation::Atom(UnaryRelationAtom::TagFinite),
                UnaryRelation::Atom(UnaryRelationAtom::TagNonzero)
            ]))))
        ])))),
        event: UnaryRelation::And(unary_list(seq![
            UnaryRelation::Or(unary_list(seq![
                UnaryRelation::Atom(UnaryRelationAtom::EventIs(EventKind::SendTag)),
                UnaryRelation::Atom(UnaryRelationAtom::EventIs(EventKind::SendPtag))
            ]))
        ])),
    }
}

/// Once an LTC for a tag is received, no port-absent or tagged message for an earlier or equal tag is received from that federate.
pub open spec fn rule_2() -> Rule {
    Rule {
        preceding_event: BinaryRelation::And(binary_list(seq![
            BinaryRelation::BoundMary(Box::new(UnaryRelation::Or(unary_list(seq![
                UnaryRelation::Atom(UnaryRelationAtom::EventIs(EventKind::RecvPortAbs)),
                UnaryRelation::Atom(UnaryRelationAtom::EventIs(EventKind::RecvTaggedMsg))
            ])))),
            BinaryRelation::Atom(BinaryRelationAtom::FederateEquals),
            BinaryRelation::Atom(BinaryRelationAtom::LessThanOrEqual(Term::Tag, Term::Tag))
        ])),
        event: UnaryRelation::And(unary_list(seq![
            UnaryRelation::Atom(UnaryRelationAtom::EventIs(EventKind::RecvLtc))
        ])),
    }
}

/// Once an LTC for a tag is received, no NET for an earlier or equal tag is received from that federate.
pub open spec fn rule_3() -> Rule {
    Rule {
        preceding_event: BinaryRelation::And(binary_list(seq![
            BinaryRelation::BoundMary(Box::new(UnaryRelation::Atom(UnaryRelationAtom::EventIs(EventKind::RecvNet)))),
            BinaryRelation::Atom(BinaryRelationAtom::FederateEquals),
            BinaryRelation::Atom(BinaryRelationAtom::LessThanOrEqual(Term::Tag, Term::Tag))
        ])),
        event: UnaryRelation::And(unary_list(seq![
            UnaryRelation::Atom(UnaryRelationAtom::EventIs(EventKind::RecvLtc)),
            UnaryRelation::Atom(UnaryRelationAtom::TagNonzero)
        ])),
    }
}

/// Once a port-absent or tagged message for a tag is received, no LTC is received for a tag that, plus the largest delay of the federate's outgoing connections, is below it.
pub open spec fn rule_4() -> Rule {
    Rule {
        preceding_event: BinaryRelation::And(binary_list(seq![
            BinaryRelation::BoundMary(Box::new(UnaryRelation::Atom(UnaryRelationAtom::EventIs(EventKind::RecvLtc)))),
            BinaryRelation::Atom(BinaryRelationAtom::FederateEquals),
            BinaryRelation::Atom(BinaryRelationAtom::LessThan(Term::TagPlusDelay(DelayTerm::LargestDelayFrom), Term::Tag))
        ])),
        event: UnaryRelation::Or(unary_list(seq![
            UnaryRelation::Atom(UnaryRelationAtom::EventIs(EventKind::RecvPortAbs)),
            UnaryRelation::Atom(UnaryRelationAtom::EventIs(EventKind::RecvTaggedMsg))
        ])),
    }
}

/// Once a port-absent or tagged message for a tag is received, the first TAG or PTAG for a tag that, plus the largest delay of the federate's outgoing connections, is at least it, has been sent.
pub open spec fn rule_5() -> Rule {
    Rule {
        preceding_event: BinaryRelation::IsFirst(Box::new(BinaryRelation::And(binary_list(seq![
            BinaryRelation::BoundMary(Box::new(UnaryRelation::Or(unary_list(seq![
                UnaryRelation::Atom(UnaryRelationAtom::EventIs(EventKind::SendTag)),
                UnaryRelation::Atom(UnaryRelationAtom::EventIs(EventKind::SendPtag))
            ])))),
            BinaryRelation::Atom(BinaryRelationAtom::FederateEquals),
            BinaryRelation::Atom(BinaryRelationAtom::GreaterThanOrEqual(Term::TagPlusDelay(DelayTerm::LargestDelayFrom), Term::Tag))
        ])))),
        event: UnaryRelation::And(unary_list(seq![
            UnaryRelation::Or(unary_list(seq![
                UnaryRelation::Atom(UnaryRelationAtom::EventIs(EventKind::RecvPortAbs)),
                UnaryRelation::Atom(UnaryRelationAtom::EventIs(EventKind::RecvTaggedMsg))
            ])),
            UnaryRelation::Not(Box::new(UnaryRelation::Atom(UnaryRelationAtom::FedHasNoneUpstreamWithDelayLessThanOrEqualCurrentTag)))
        ])),
    }
}

/// TAGs and PTAGs to the same federate are monotonic.
pub open spec fn rule_6() -> Rule {
    Rule {
        preceding_event: BinaryRelation::And(binary_list(seq![
            BinaryRelation::BoundMary(Box::new(UnaryRelation::Or(unary_list(seq![
                UnaryRelation::Atom(UnaryRelationAtom::EventIs(EventKind::SendPtag)),
                UnaryRelation::Atom(UnaryRelationAtom::EventIs(EventKind::SendTag))
            ])))),
            BinaryRelation::Atom(BinaryRelationAtom::FederateEquals),
            BinaryRelation::Atom(BinaryRelationAtom::LessThan(Term::Tag, Term::Tag))
        ])),
        event: UnaryRelation::Or(unary_list(seq![
            UnaryRelation::Atom(UnaryRelationAtom::EventIs(EventKind::SendPtag)),
            UnaryRelation::Atom(UnaryRelationAtom::EventIs(EventKind::SendTag))
        ])),
    }
}

/// A PTAG comes before the TAG for the same tag.
pub open spec fn rule_7() -> Rule {
    Rule {
        preceding_event: BinaryRelation::And(binary_list(seq![
            BinaryRelation::BoundMary(Box::new(UnaryRelation::Atom(UnaryRelationAtom::EventIs(EventKind::SendPtag)))),
            BinaryRelation::Atom(BinaryRelationAtom::FederateEquals),
            BinaryRelation::Atom(BinaryRelationAtom::LessThanOrEqual(Term::Tag, Term::Tag))
        ])),
        event: UnaryRelation::Atom(UnaryRelationAtom::EventIs(EventKind::SendTag)),
    }
}

/// A TAG is granted only after a high enough LTC from each zero-delay upstream federate, or a high enough TAG, NET or stop grant for it.
pub open spec fn rule_8() -> Rule {
    Rule {
        preceding_event: BinaryRelation::IsFirstForFederate(Box::new(BinaryRelation::Or(binary_list(seq![
            BinaryRelation::And(binary_list(seq![
                BinaryRelation::BoundMary(Box::new(UnaryRelation::Atom(UnaryRelationAtom::EventIs(EventKind::RecvLtc)))),
                BinaryRelation::Atom(BinaryRelationAtom::FederateZeroDelayDirectlyUpstreamOf),
                BinaryRelation::Atom(BinaryRelationAtom::GreaterThanOrEqual(Term::Tag, Term::Tag))
            ])),
            BinaryRelation::And(binary_list(seq![
                BinaryRelation::BoundMary(Box::new(UnaryRelation::Or(unary_list(seq![
                    UnaryRelation::Atom(UnaryRelationAtom::EventIs(EventKind::SendTag)),
                    UnaryRelation::Atom(UnaryRelationAtom::EventIs(EventKind::RecvNet)),
                    UnaryRelation::Atom(UnaryRelationAtom::EventIs(EventKind::SendStopGrn))
                ])))),
                BinaryRelation::Atom(BinaryRelationAtom::FederateZeroDelayDirectlyUpstreamOf),
                BinaryRelation::Atom(BinaryRelationAtom::GreaterThanOrEqual(Term::Tag, Term::Tag))
            ]))
        ])))),
        event: UnaryRelation::And(unary_list(seq![
            UnaryRelation::Atom(UnaryRelationAtom::EventIs(EventKind::SendTag)),
            UnaryRelation::Atom(UnaryRelationAtom::TagNonzero)
        ])),
    }
}

/// A PTAG is sent only after an equal PTAG to a zero-delay upstream federate, or an equal NET or stop grant from the same or a directly upstream federate.
pub open spec fn rule_9() -> Rule {
    Rule {
        preceding_event: BinaryRelation::IsFirst(Box::new(BinaryRelation::Or(binary_list(seq![
            BinaryRelation::And(binary_list(seq![
                BinaryRelation::BoundMary(Box::new(UnaryRelation::Atom(UnaryRelationAtom::EventIs(EventKind::SendPtag)))),
                BinaryRelation::Atom(BinaryRelationAtom::FederateZeroDelayDirectlyUpstreamOf),
                BinaryRelation::Atom(BinaryRelationAtom::Equal(Term::Tag, Term::Tag))
            ])),
            BinaryRelation::And(binary_list(seq![
                BinaryRelation::BoundMary(Box::new(UnaryRelation::Or(unary_list(seq![
                    UnaryRelation::Atom(UnaryRelationAtom::EventIs(EventKind::RecvNet)),
                    UnaryRelation::Atom(UnaryRelationAtom::EventIs(EventKind::SendStopGrn))
                ])))),
                BinaryRelation::Or(binary_list(seq![
                    BinaryRelation::Atom(BinaryRelationAtom::FederateEquals),
                    BinaryRelation::Atom(BinaryRelationAtom::FederateDirectlyUpstreamOf)
                ])),
                BinaryRelation::Atom(BinaryRelationAtom::Equal(Term::Tag, Term::Tag))
            ]))
        ])))),
        event: UnaryRelation::And(unary_list(seq![
            UnaryRelation::Atom(UnaryRelationAtom::EventIs(EventKind::SendPtag)),
            UnaryRelation::Atom(UnaryRelationAtom::TagNonzero)
        ])),
    }
}

/// A port-absent message is forwarded only after it is received from a directly upstream federate.
pub open spec fn rule_10() -> Rule {
    Rule {
        preceding_event: BinaryRelation::IsFirst(Box::new(BinaryRelation::And(binary_list(seq![
            BinaryRelation::BoundMary(Box::new(UnaryRelation::Atom(UnaryRelationAtom::EventIs(EventKind::RecvPortAbs)))),
            BinaryRelation::Atom(BinaryRelationAtom::FederateDirectlyUpstreamOf),
            BinaryRelation::Atom(BinaryRelationAtom::Equal(Term::Tag, Term::Tag))
        ])))),
        event: UnaryRelation::Atom(UnaryRelationAtom::EventIs(EventKind::SendPortAbs)),
    }
}

/// A tagged message is forwarded only after it is received from a directly upstream federate.
pub open spec fn rule_11() -> Rule {
    Rule {
        preceding_event: BinaryRelation::IsFirst(Box::new(BinaryRelation::And(binary_list(seq![
            BinaryRelation::BoundMary(Box::new(UnaryRelation::Atom(UnaryRelationAtom::EventIs(EventKind::RecvTaggedMsg)))),
            BinaryRelation::Atom(BinaryRelationAtom::FederateDirectlyUpstreamOf),
            BinaryRelation::Atom(BinaryRelationAtom::Equal(Term::Tag, Term::Tag))
        ])))),
        event: UnaryRelation::Atom(UnaryRelationAtom::EventIs(EventKind::SendTaggedMsg)),
    }
}

/// Port-absent and tagged messages from a federate for a tag come before its LTC for that tag.
pub open spec fn rule_12() -> Rule {
    Rule {
        preceding_event: BinaryRelation::And(binary_list(seq![
            BinaryRelation::BoundMary(Box::new(UnaryRelation::Or(unary_list(seq![
                UnaryRelation::Atom(UnaryRelationAtom::EventIs(EventKind::RecvPortAbs)),
                UnaryRelation::Atom(UnaryRelationAtom::EventIs(EventKind::RecvTaggedMsg))
            ])))),
            BinaryRelation::Atom(BinaryRelationAtom::FederateEquals),
            BinaryRelation::Atom(BinaryRelationAtom::LessThanOrEqual(Term::Tag, Term::Tag))
        ])),
        event: UnaryRelation::Or(unary_list(seq![
            UnaryRelation::Atom(UnaryRelationAtom::EventIs(EventKind::RecvLtc))
        ])),
    }
}

/// A federate's ID is received before it is acknowledged.
pub open spec fn rule_13() -> Rule {
    Rule {
        preceding_event: BinaryRelation::And(binary_list(seq![
            BinaryRelation::BoundMary(Box::new(UnaryRelation::Atom(UnaryRelationAtom::EventIs(EventKind::RecvFedId)))),
            BinaryRelation::Atom(BinaryRelationAtom::FederateEquals)
        ])),
        event: UnaryRelation::Atom(UnaryRelationAtom::EventIs(EventKind::SendAck)),
    }
}

/// The acknowledgment comes before the federate's timestamp is received.
pub open spec fn rule_14() -> Rule {
    Rule {
        preceding_event: BinaryRelation::And(binary_list(seq![
            BinaryRelation::BoundMary(Box::new(UnaryRelation::Atom(UnaryRelationAtom::EventIs(EventKind::SendAck)))),
            BinaryRelation::Atom(BinaryRelationAtom::FederateEquals)
        ])),
        event: UnaryRelation::Atom(UnaryRelationAtom::EventIs(EventKind::RecvTimestamp)),
    }
}

/// The timestamp is received before it is sent back.
pub open spec fn rule_15() -> Rule {
    Rule {
        preceding_event: BinaryRelation::And(binary_list(seq![
            BinaryRelation::BoundMary(Box::new(UnaryRelation::Atom(UnaryRelationAtom::EventIs(EventKind::RecvTimestamp)))),
            BinaryRelation::Atom(BinaryRelationAtom::FederateEquals)
        ])),
        event: UnaryRelation::Atom(UnaryRelationAtom::EventIs(EventKind::SendTimestamp)),
    }
}

/// The timestamp is sent before the federate's first NET at tag zero.
pub open spec fn rule_16() -> Rule {
    Rule {
        preceding_event: BinaryRelation::And(binary_list(seq![
            BinaryRelation::BoundMary(Box::new(UnaryRelation::Atom(UnaryRelationAtom::EventIs(EventKind::SendTimestamp)))),
            BinaryRelation::Atom(BinaryRelationAtom::FederateEquals)
        ])),
        event: UnaryRelation::And(unary_list(seq![
            UnaryRelation::Atom(UnaryRelationAtom::EventIs(EventKind::RecvNet)),
            UnaryRelation::Not(Box::new(UnaryRelation::Atom(UnaryRelationAtom::TagNonzero)))
        ])),
    }
}

/// Some timestamp is received before any message of the execution proper.
pub open spec fn rule_17() -> Rule {
    Rule {
        preceding_event: BinaryRelation::And(binary_list(seq![
            BinaryRelation::BoundMary(Box::new(UnaryRelation::Atom(UnaryRelationAtom::EventIs(EventKind::RecvTimestamp))))
        ])),
        event: UnaryRelation::Or(unary_list(seq![
            UnaryRelation::Atom(UnaryRelationAtom::EventIs(EventKind::RecvLtc)),
            UnaryRelation::Atom(UnaryRelationAtom::EventIs(EventKind::RecvPortAbs)),
            UnaryRelation::Atom(UnaryRelationAtom::EventIs(EventKind::RecvTaggedMsg)),
            UnaryRelation::Atom(UnaryRelationAtom::EventIs(EventKind::SendTag)),
            UnaryRelation::Atom(UnaryRelationAtom::EventIs(EventKind::SendPtag)),
            UnaryRelation::Atom(UnaryRelationAtom::EventIs(EventKind::SendPortAbs)),
            UnaryRelation::Atom(UnaryRelationAtom::EventIs(EventKind::SendTaggedMsg)),
            UnaryRelation::Atom(UnaryRelationAtom::EventIs(EventKind::SendStopGrn)),
            UnaryRelation::Atom(UnaryRelationAtom::EventIs(EventKind::SendStopReq)),
            UnaryRelation::Atom(UnaryRelationAtom::EventIs(EventKind::RecvStopReq)),
            UnaryRelation::Atom(UnaryRelationAtom::EventIs(EventKind::RecvStopReqRep))
        ])),
    }
}

/// The rules that every trace of the RTI satisfies.
pub open spec fn axiom_table() -> Seq<Rule> {
    seq![
        rule_0(),
        rule_1(),
        rule_2(),
        rule_3(),
        rule_4(),
        rule_5(),
        rule_6(),
        rule_7(),
        rule_8(),
        rule_9(),
        rule_10(),
        rule_11(),
        rule_12(),
        rule_13(),
        rule_14(),
        rule_15(),
        rule_16(),
        rule_17()
    ]
}

fn make_rule_0() -> (r: Rule)
    ensures
        r == rule_0(),
{
    Rule {
        preceding_event: both_of(vec![
            BinaryRelation::BoundMary(Box::new(UnaryRelation::Atom(UnaryRelationAtom::EventIs(EventKind::RecvLtc)))),
            BinaryRelation::Atom(BinaryRelationAtom::FederateEquals),
            BinaryRelation::Atom(BinaryRelationAtom::LessThan(Term::Tag, Term::Tag))
        ]),
        event: UnaryRelation::Atom(UnaryRelationAtom::EventIs(EventKind::RecvLtc)),
    }
}

fn make_rule_1() -> (r: Rule)
    ensures
        r == rule_1(),
{
    Rule {
        preceding_event: BinaryRelation::IsFirst(Box::new(both_of(vec![
            either_of(vec![
                BinaryRelation::BoundMary(Box::new(UnaryRelation::Atom(UnaryRelationAtom::EventIs(EventKind::SendStopGrn)))),
                BinaryRelation::BoundMary(Box::new(UnaryRelation::Atom(UnaryRelationAtom::EventIs(EventKind::RecvLtc)))),
                only_both(BinaryRelation::BoundMary(Box::new(any_of(vec![
                    UnaryRelation::Atom(UnaryRelationAtom::EventIs(EventKind::RecvNet)),
                    UnaryRelation::Atom(UnaryRelationAtom::EventIs(EventKind::SendTaggedMsg))
                ]))))
            ]),
            BinaryRelation::Atom(BinaryRelationAtom::Equal(Term::Tag, Term::Tag)),
            BinaryRelation::BoundMary(Box::new(all_of(vec![
                UnaryRelation::Atom(UnaryRelationAtom::TagFinite),
                UnaryRelation::Atom(UnaryRelationAtom::TagNonzero)
            ])))
        ]))),
        event: only_all(any_of(vec![
            UnaryRelation::Atom(UnaryRelationAtom::EventIs(EventKind::SendTag)),
            UnaryRelation::Atom(UnaryRelationAtom::EventIs(EventKind::SendPtag))
        ])),
    }
}

fn make_rule_2() -> (r: Rule)
    ensures
        r == rule_2(),
{
    Rule {
        preceding_event: both_of(vec![
            BinaryRelation::BoundMary(Box::new(any_of(vec![
                UnaryRelation::Atom(UnaryRelationAtom::EventIs(EventKind::RecvPortAbs)),
                UnaryRelation::Atom(UnaryRelationAtom::EventIs(EventKind::RecvTaggedMsg))
            ]))),
            BinaryRelation::Atom(BinaryRelationAtom::FederateEquals),
            BinaryRelation::Atom(BinaryRelationAtom::LessThanOrEqual(Term::Tag, Term::Tag))
        ]),
        event: only_all(UnaryRelation::Atom(UnaryRelationAtom::EventIs(EventKind::RecvLtc))),
    }
}

fn make_rule_3() -> (r: Rule)
    ensures
        r == rule_3(),
{
    Rule {
        preceding_event: both_of(vec![
            BinaryRelation::BoundMary(Box::new(UnaryRelation::Atom(UnaryRelationAtom::EventIs(EventKind::RecvNet)))),
            BinaryRelation::Atom(BinaryRelationAtom::FederateEquals),
            BinaryRelation::Atom(BinaryRelationAtom::LessThanOrEqual(Term::Tag, Term::Tag))
        ]),
        event: all_of(vec![
            UnaryRelation::Atom(UnaryRelationAtom::EventIs(EventKind::RecvLtc)),
            UnaryRelation::Atom(UnaryRelationAtom::TagNonzero)
        ]),
    }
}

fn make_rule_4() -> (r: Rule)
    ensures
        r == rule_4(),
{
    Rule {
        preceding_event: both_of(vec![
            BinaryRelation::BoundMary(Box::new(UnaryRelation::Atom(UnaryRelationAtom::EventIs(EventKind::RecvLtc)))),
            BinaryRelation::Atom(BinaryRelationAtom::FederateEquals),
            BinaryRelation::Atom(BinaryRelationAtom::LessThan(Term::TagPlusDelay(DelayTerm::LargestDelayFrom), Term::Tag))
        ]),
        event: any_of(vec![
            UnaryRelation::Atom(UnaryRelationAtom::EventIs(EventKind::RecvPortAbs)),
            UnaryRelation::Atom(UnaryRelationAtom::EventIs(EventKind::RecvTaggedMsg))
        ]),
    }
}

fn make_rule_5() -> (r: Rule)
    ensures
        r == rule_5(),
{
    Rule {
        preceding_event: BinaryRelation::IsFirst(Box::new(both_of(vec![
            BinaryRelation::BoundMary(Box::new(any_of(vec![
                UnaryRelation::Atom(UnaryRelationAtom::EventIs(EventKind::SendTag)),
                UnaryRelation::Atom(UnaryRelationAtom::EventIs(EventKind::SendPtag))
            ]))),
            BinaryRelation::Atom(BinaryRelationAtom::FederateEquals),
            BinaryRelation::Atom(BinaryRelationAtom::GreaterThanOrEqual(Term::TagPlusDelay(DelayTerm::LargestDelayFrom), Term::Tag))
        ]))),
        event: all_of(vec![
            any_of(vec![
                UnaryRelation::Atom(UnaryRelationAtom::EventIs(EventKind::RecvPortAbs)),
                UnaryRelation::Atom(UnaryRelationAtom::EventIs(EventKind::RecvTaggedMsg))
            ]),
            UnaryRelation::Not(Box::new(UnaryRelation::Atom(UnaryRelationAtom::FedHasNoneUpstreamWithDelayLessThanOrEqualCurrentTag)))
        ]),
    }
}

fn make_rule_6() -> (r: Rule)
    ensures
        r == rule_6(),
{
    Rule {
        preceding_event: both_of(vec![
            BinaryRelation::BoundMary(Box::new(any_of(vec![
                UnaryRelation::Atom(UnaryRelationAtom::EventIs(EventKind::SendPtag)),
                UnaryRelation::Atom(UnaryRelationAtom::EventIs(EventKind::SendTag))
            ]))),
            BinaryRelation::Atom(BinaryRelationAtom::FederateEquals),
            BinaryRelation::Atom(BinaryRelationAtom::LessThan(Term::Tag, Term::Tag))
        ]),
        event: any_of(vec![
            UnaryRelation::Atom(UnaryRelationAtom::EventIs(EventKind::SendPtag)),
            UnaryRelation::Atom(UnaryRelationAtom::EventIs(EventKind::SendTag))
        ]),
    }
}

fn make_rule_7() -> (r: Rule)
    ensures
        r == rule_7(),
{
    Rule {
        preceding_event: both_of(vec![
            BinaryRelation::BoundMary(Box::new(UnaryRelation::Atom(UnaryRelationAtom::EventIs(EventKind::SendPtag)))),
            BinaryRelation::Atom(BinaryRelationAtom::FederateEquals),
            BinaryRelation::Atom(BinaryRelationAtom::LessThanOrEqual(Term::Tag, Term::Tag))
        ]),
        event: UnaryRelation::Atom(UnaryRelationAtom::EventIs(EventKind::SendTag)),
    }
}

fn make_rule_8() -> (r: Rule)
    ensures
        r == rule_8(),
{
    Rule {
        preceding_event: BinaryRelation::IsFirstForFederate(Box::new(either_of(vec![
            both_of(vec![
                BinaryRelation::BoundMary(Box::new(UnaryRelation::Atom(UnaryRelationAtom::EventIs(EventKind::RecvLtc)))),
                BinaryRelation::Atom(BinaryRelationAtom::FederateZeroDelayDirectlyUpstreamOf),
                BinaryRelation::Atom(BinaryRelationAtom::GreaterThanOrEqual(Term::Tag, Term::Tag))
            ]),
            both_of(vec![
                BinaryRelation::BoundMary(Box::new(any_of(vec![
                    UnaryRelation::Atom(UnaryRelationAtom::EventIs(EventKind::SendTag)),
                    UnaryRelation::Atom(UnaryRelationAtom::EventIs(EventKind::RecvNet)),
                    UnaryRelation::Atom(UnaryRelationAtom::EventIs(EventKind::SendStopGrn))
                ]))),
                BinaryRelation::Atom(BinaryRelationAtom::FederateZeroDelayDirectlyUpstreamOf),
                BinaryRelation::Atom(BinaryRelationAtom::GreaterThanOrEqual(Term::Tag, Term::Tag))
            ])
        ]))),
        event: all_of(vec![
            UnaryRelation::Atom(UnaryRelationAtom::EventIs(EventKind::SendTag)),
            UnaryRelation::Atom(UnaryRelationAtom::TagNonzero)
        ]),
    }
}

fn make_rule_9() -> (r: Rule)
    ensures
        r == rule_9(),
{
    Rule {
        preceding_event: BinaryRelation::IsFirst(Box::new(either_of(vec![
            both_of(vec![
                BinaryRelation::BoundMary(Box::new(UnaryRelation::Atom(UnaryRelationAtom::EventIs(EventKind::SendPtag)))),
                BinaryRelation::Atom(BinaryRelationAtom::FederateZeroDelayDirectlyUpstreamOf),
                BinaryRelation::Atom(BinaryRelationAtom::Equal(Term::Tag, Term::Tag))
            ]),
            both_of(vec![
                BinaryRelation::BoundMary(Box::new(any_of(vec![
                    UnaryRelation::Atom(UnaryRelationAtom::EventIs(EventKind::RecvNet)),
                    UnaryRelation::Atom(UnaryRelationAtom::EventIs(EventKind::SendStopGrn))
                ]))),
                either_of(vec![
                    BinaryRelation::Atom(BinaryRelationAtom::FederateEquals),
                    BinaryRelation::Atom(BinaryRelationAtom::FederateDirectlyUpstreamOf)
                ]),
                BinaryRelation::Atom(BinaryRelationAtom::Equal(Term::Tag, Term::Tag))
            ])
        ]))),
        event: all_of(vec![
            UnaryRelation::Atom(UnaryRelationAtom::EventIs(EventKind::SendPtag)),
            UnaryRelation::Atom(UnaryRelationAtom::TagNonzero)
        ]),
    }
}

fn make_rule_10() -> (r: Rule)
    ensures
        r == rule_10(),
{
    Rule {
        preceding_event: BinaryRelation::IsFirst(Box::new(both_of(vec![
            BinaryRelation::BoundMary(Box::new(UnaryRelation::Atom(UnaryRelationAtom::EventIs(EventKind::RecvPortAbs)))),
            BinaryRelation::Atom(BinaryRelationAtom::FederateDirectlyUpstreamOf),
            BinaryRelation::Atom(BinaryRelationAtom::Equal(Term::Tag, Term::Tag))
        ]))),
        event: UnaryRelation::Atom(UnaryRelationAtom::EventIs(EventKind::SendPortAbs)),
    }
}

fn make_rule_11() -> (r: Rule)
    ensures
        r == rule_11(),
{
    Rule {
        preceding_event: BinaryRelation::IsFirst(Box::new(both_of(vec![
            BinaryRelation::BoundMary(Box::new(UnaryRelation::Atom(UnaryRelationAtom::EventIs(EventKind::RecvTaggedMsg)))),
            BinaryRelation::Atom(BinaryRelationAtom::FederateDirectlyUpstreamOf),
            BinaryRelation::Atom(BinaryRelationAtom::Equal(Term::Tag, Term::Tag))
        ]))),
        event: UnaryRelation::Atom(UnaryRelationAtom::EventIs(EventKind::SendTaggedMsg)),
    }
}

fn make_rule_12() -> (r: Rule)
    ensures
        r == rule_12(),
{
    Rule {
        preceding_event: both_of(vec![
            BinaryRelation::BoundMary(Box::new(any_of(vec![
                UnaryRelation::Atom(UnaryRelationAtom::EventIs(EventKind::RecvPortAbs)),
                UnaryRelation::Atom(UnaryRelationAtom::EventIs(EventKind::RecvTaggedMsg))
            ]))),
            BinaryRelation::Atom(BinaryRelationAtom::FederateEquals),
            BinaryRelation::Atom(BinaryRelationAtom::LessThanOrEqual(Term::Tag, Term::Tag))
        ]),
        event: only_any(UnaryRelation::Atom(UnaryRelationAtom::EventIs(EventKind::RecvLtc))),
    }
}

fn make_rule_13() -> (r: Rule)
    ensures
        r == rule_13(),
{
    Rule {
        preceding_event: both_of(vec![
            BinaryRelation::BoundMary(Box::new(UnaryRelation::Atom(UnaryRelationAtom::EventIs(EventKind::RecvFedId)))),
            BinaryRelation::Atom(BinaryRelationAtom::FederateEquals)
        ]),
        event: UnaryRelation::Atom(UnaryRelationAtom::EventIs(EventKind::SendAck)),
    }
}

fn make_rule_14() -> (r: Rule)
    ensures
        r == rule_14(),
{
    Rule {
        preceding_event: both_of(vec![
            BinaryRelation::BoundMary(Box::new(UnaryRelation::Atom(UnaryRelationAtom::EventIs(EventKind::SendAck)))),
            BinaryRelation::Atom(BinaryRelationAtom::FederateEquals)
        ]),
        event: UnaryRelation::Atom(UnaryRelationAtom::EventIs(EventKind::RecvTimestamp)),
    }
}

fn make_rule_15() -> (r: Rule)
    ensures
        r == rule_15(),
{
    Rule {
        preceding_event: both_of(vec![
            BinaryRelation::BoundMary(Box::new(UnaryRelation::Atom(UnaryRelationAtom::EventIs(EventKind::RecvTimestamp)))),
            BinaryRelation::Atom(BinaryRelationAtom::FederateEquals)
        ]),
        event: UnaryRelation::Atom(UnaryRelationAtom::EventIs(EventKind::SendTimestamp)),
    }
}

fn make_rule_16() -> (r: Rule)
    ensures
        r == rule_16(),
{
    Rule {
        preceding_event: both_of(vec![
            BinaryRelation::BoundMary(Box::new(UnaryRelation::Atom(UnaryRelationAtom::EventIs(EventKind::SendTimestamp)))),
            BinaryRelation::Atom(BinaryRelationAtom::FederateEquals)
        ]),
        event: all_of(vec![
            UnaryRelation::Atom(UnaryRelationAtom::EventIs(EventKind::RecvNet)),
            UnaryRelation::Not(Box::new(UnaryRelation::Atom(UnaryRelationAtom::TagNonzero)))
        ]),
    }
}

fn make_rule_17() -> (r: Rule)
    ensures
        r == rule_17(),
{
    Rule {
        preceding_event: only_both(BinaryRelation::BoundMary(Box::new(UnaryRelation::Atom(UnaryRelationAtom::EventIs(EventKind::RecvTimestamp))))),
        event: any_of(vec![
            UnaryRelation::Atom(UnaryRelationAtom::EventIs(EventKind::RecvLtc)),
            UnaryRelation::Atom(UnaryRelationAtom::EventIs(EventKind::RecvPortAbs)),
            UnaryRelation::Atom(UnaryRelationAtom::EventIs(EventKind::RecvTaggedMsg)),
            UnaryRelation::Atom(UnaryRelationAtom::EventIs(EventKind::SendTag)),
            UnaryRelation::Atom(UnaryRelationAtom::EventIs(EventKind::SendPtag)),
            UnaryRelation::Atom(UnaryRelationAtom::EventIs(EventKind::SendPortAbs)),
            UnaryRelation::Atom(UnaryRelationAtom::EventIs(EventKind::SendTaggedMsg)),
            UnaryRelation::Atom(UnaryRelationAtom::EventIs(EventKind::SendStopGrn)),
            UnaryRelation::Atom(UnaryRelationAtom::EventIs(EventKind::SendStopReq)),
            UnaryRelation::Atom(UnaryRelationAtom::EventIs(EventKind::RecvStopReq)),
            UnaryRelation::Atom(UnaryRelationAtom::EventIs(EventKind::RecvStopReqRep))
        ]),
    }
}

/// The rules that every trace of the RTI satisfies: each says that an event matching the rule's
/// event is preceded, in every execution, by the events related to it by the preceding relation.
pub fn axioms() -> (r: Vec<Rule>)
    ensures
        r@ == axiom_table(),
{
    let mut r: Vec<Rule> = Vec::new();
    r.push(make_rule_0());
    r.push(make_rule_1());
    r.push(make_rule_2());
    r.push(make_rule_3());
    r.push(make_rule_4());
    r.push(make_rule_5());
    r.push(make_rule_6());
    r.push(make_rule_7());
    r.push(make_rule_8());
    r.push(make_rule_9());
    r.push(make_rule_10());
    r.push(make_rule_11());
    r.push(make_rule_12());
    r.push(make_rule_13());
    r.push(make_rule_14());
    r.push(make_rule_15());
    r.push(make_rule_16());
    r.push(make_rule_17());
    proof {
        assert(r@ =~= axiom_table());
    }
    r
}

proof fn lemma_rule_0_searchable()
    ensures
        searchable(rule_0().preceding_event),
{
    lemma_searchable_list(seq![BinaryRelation::BoundMary(Box::new(UnaryRelation::Atom(UnaryRelationAtom::EventIs(EventKind::RecvLtc)))), BinaryRelation::Atom(BinaryRelationAtom::FederateEquals), BinaryRelation::Atom(BinaryRelationAtom::LessThan(Term::Tag, Term::Tag))]);
}

proof fn lemma_rule_1_searchable()
    ensures
        searchable(rule_1().preceding_event),
{
    lemma_plain_list(seq![UnaryRelation::Atom(UnaryRelationAtom::EventIs(EventKind::RecvNet)), UnaryRelation::Atom(UnaryRelationAtom::EventIs(EventKind::SendTaggedMsg))]);
    lemma_searchable_list(seq![BinaryRelation::BoundMary(Box::new(UnaryRelation::Or(unary_list(seq![
            UnaryRelation::Atom(UnaryRelationAtom::EventIs(EventKind::RecvNet)),
            UnaryRelation::Atom(UnaryRelationAtom::EventIs(EventKind::SendTaggedMsg))
        ]))))]);
    lemma_searchable_list(seq![BinaryRelation::BoundMary(Box::new(UnaryRelation::Atom(UnaryRelationAtom::EventIs(EventKind::SendStopGrn)))), BinaryRelation::BoundMary(Box::new(UnaryRelation::Atom(UnaryRelationAtom::EventIs(EventKind::RecvLtc)))), BinaryRelation::And(binary_list(seq![
            BinaryRelation::BoundMary(Box::new(UnaryRelation::Or(unary_list(seq![
                UnaryRelation::Atom(UnaryRelationAtom::EventIs(EventKind::RecvNet)),
                UnaryRelation::Atom(UnaryRelationAtom::EventIs(EventKind::SendTaggedMsg))
            ]))))
        ]))]);
    lemma_plain_list(seq![UnaryRelation::Atom(UnaryRelationAtom::TagFinite), UnaryRelation::Atom(UnaryRelationAtom::TagNonzero)]);
    lemma_searchable_list(seq![BinaryRelation::Or(binary_list(seq![
            BinaryRelation::BoundMary(Box::new(UnaryRelation::Atom(UnaryRelationAtom::EventIs(EventKind::SendStopGrn)))),
            BinaryRelation::BoundMary(Box::new(UnaryRelation::Atom(UnaryRelationAtom::EventIs(EventKind::RecvLtc)))),
            BinaryRelation::And(binary_list(seq![
                BinaryRelation::BoundMary(Box::new(UnaryRelation::Or(unary_list(seq![
                    UnaryRelation::Atom(UnaryRelationAtom::EventIs(EventKind::RecvNet)),
                    UnaryRelation::Atom(UnaryRelationAtom::EventIs(EventKind::SendTaggedMsg))
                ]))))
            ]))
        ])), BinaryRelation::Atom(BinaryRelationAtom::Equal(Term::Tag, Term::Tag)), BinaryRelation::BoundMary(Box::new(UnaryRelation::And(unary_list(seq![
            UnaryRelation::Atom(UnaryRelationAtom::TagFinite),
            UnaryRelation::Atom(UnaryRelationAtom::TagNonzero)
        ]))))]);
    assert(searchable(BinaryRelation::And(binary_list(seq![
            BinaryRelation::Or(binary_list(seq![
                BinaryRelation::BoundMary(Box::new(UnaryRelation::Atom(UnaryRelationAtom::EventIs(EventKind::SendStopGrn)))),
                BinaryRelation::BoundMary(Box::new(UnaryRelation::Atom(UnaryRelationAtom::EventIs(EventKind::RecvLtc)))),
                BinaryRelation::And(binary_list(seq![
                    BinaryRelation::BoundMary(Box::new(UnaryRelation::Or(unary_list(seq![
                        UnaryRelation::Atom(UnaryRelationAtom::EventIs(EventKind::RecvNet)),
                        UnaryRelation::Atom(UnaryRelationAtom::EventIs(EventKind::SendTaggedMsg))
                    ]))))
                ]))
            ])),
            BinaryRelation::Atom(BinaryRelationAtom::Equal(Term::Tag, Term::Tag)),
            BinaryRelation::BoundMary(Box::new(UnaryRelation::And(unary_list(seq![
                UnaryRelation::Atom(UnaryRelationAtom::TagFinite),
                UnaryRelation::Atom(UnaryRelationAtom::TagNonzero)
            ]))))
        ]))));
}

proof fn lemma_rule_2_searchable()
    ensures
        searchable(rule_2().preceding_event),
{
    lemma_plain_list(seq![UnaryRelation::Atom(UnaryRelationAtom::EventIs(EventKind::RecvPortAbs)), UnaryRelation::Atom(UnaryRelationAtom::EventIs(EventKind::RecvTaggedMsg))]);
    lemma_searchable_list(seq![BinaryRelation::BoundMary(Box::new(UnaryRelation::Or(unary_list(seq![
            UnaryRelation::Atom(UnaryRelationAtom::EventIs(EventKind::RecvPortAbs)),
            UnaryRelation::Atom(UnaryRelationAtom::EventIs(EventKind::RecvTaggedMsg))
        ])))), BinaryRelation::Atom(BinaryRelationAtom::FederateEquals), BinaryRelation::Atom(BinaryRelationAtom::LessThanOrEqual(Term::Tag, Term::Tag))]);
}

proof fn lemma_rule_3_searchable()
    ensures
        searchable(rule_3().preceding_event),
{
    lemma_searchable_list(seq![BinaryRelation::BoundMary(Box::new(UnaryRelation::Atom(UnaryRelationAtom::EventIs(EventKind::RecvNet)))), BinaryRelation::Atom(BinaryRelationAtom::FederateEquals), BinaryRelation::Atom(BinaryRelationAtom::LessThanOrEqual(Term::Tag, Term::Tag))]);
}

proof fn lemma_rule_4_searchable()
    ensures
        searchable(rule_4().preceding_event),
{
    lemma_searchable_list(seq![BinaryRelation::BoundMary(Box::new(UnaryRelation::Atom(UnaryRelationAtom::EventIs(EventKind::RecvLtc)))), BinaryRelation::Atom(BinaryRelationAtom::FederateEquals), BinaryRelation::Atom(BinaryRelationAtom::LessThan(Term::TagPlusDelay(DelayTerm::LargestDelayFrom), Term::Tag))]);
}

proof fn lemma_rule_5_searchable()
    ensures
        searchable(rule_5().preceding_event),
{
    lemma_plain_list(seq![UnaryRelation::Atom(UnaryRelationAtom::EventIs(EventKind::SendTag)), UnaryRelation::Atom(UnaryRelationAtom::EventIs(EventKind::SendPtag))]);
    lemma_searchable_list(seq![BinaryRelation::BoundMary(Box::new(UnaryRelation::Or(unary_list(seq![
            UnaryRelation::Atom(UnaryRelationAtom::EventIs(EventKind::SendTag)),
            UnaryRelation::Atom(UnaryRelationAtom::EventIs(EventKind::SendPtag))
        ])))), BinaryRelation::Atom(BinaryRelationAtom::FederateEquals), BinaryRelation::Atom(BinaryRelationAtom::GreaterThanOrEqual(Term::TagPlusDelay(DelayTerm::LargestDelayFrom), Term::Tag))]);
    assert(searchable(BinaryRelation::And(binary_list(seq![
            BinaryRelation::BoundMary(Box::new(UnaryRelation::Or(unary_list(seq![
                UnaryRelation::Atom(UnaryRelationAtom::EventIs(EventKind::SendTag)),
                UnaryRelation::Atom(UnaryRelationAtom::EventIs(EventKind::SendPtag))
            ])))),
            BinaryRelation::Atom(BinaryRelationAtom::FederateEquals),
            BinaryRelation::Atom(BinaryRelationAtom::GreaterThanOrEqual(Term::TagPlusDelay(DelayTerm::LargestDelayFrom), Term::Tag))
        ]))));
}

proof fn lemma_rule_6_searchable()
    ensures
        searchable(rule_6().preceding_event),
{
    lemma_plain_list(seq![UnaryRelation::Atom(UnaryRelationAtom::EventIs(EventKind::SendPtag)), UnaryRelation::Atom(UnaryRelationAtom::EventIs(EventKind::SendTag))]);
    lemma_searchable_list(seq![BinaryRelation::BoundMary(Box::new(UnaryRelation::Or(unary_list(seq![
            UnaryRelation::Atom(UnaryRelationAtom::EventIs(EventKind::SendPtag)),
            UnaryRelation::Atom(UnaryRelationAtom::EventIs(EventKind::SendTag))
        ])))), BinaryRelation::Atom(BinaryRelationAtom::FederateEquals), BinaryRelation::Atom(BinaryRelationAtom::LessThan(Term::Tag, Term::Tag))]);
}

proof fn lemma_rule_7_searchable()
    ensures
        searchable(rule_7().preceding_event),
{
    lemma_searchable_list(seq![BinaryRelation::BoundMary(Box::new(UnaryRelation::Atom(UnaryRelationAtom::EventIs(EventKind::SendPtag)))), BinaryRelation::Atom(BinaryRelationAtom::FederateEquals), BinaryRelation::Atom(BinaryRelationAtom::LessThanOrEqual(Term::Tag, Term::Tag))]);
}

proof fn lemma_rule_8_searchable()
    ensures
        searchable(rule_8().preceding_event),
{
    lemma_searchable_list(seq![BinaryRelation::BoundMary(Box::new(UnaryRelation::Atom(UnaryRelationAtom::EventIs(EventKind::RecvLtc)))), BinaryRelation::Atom(BinaryRelationAtom::FederateZeroDelayDirectlyUpstreamOf), BinaryRelation::Atom(BinaryRelationAtom::GreaterThanOrEqual(Term::Tag, Term::Tag))]);
    lemma_plain_list(seq![UnaryRelation::Atom(UnaryRelationAtom::EventIs(EventKind::SendTag)), UnaryRelation::Atom(UnaryRelationAtom::EventIs(EventKind::RecvNet)), UnaryRelation::Atom(UnaryRelationAtom::EventIs(EventKind::SendStopGrn))]);
    lemma_searchable_list(seq![BinaryRelation::BoundMary(Box::new(UnaryRelation::Or(unary_list(seq![
            UnaryRelation::Atom(UnaryRelationAtom::EventIs(EventKind::SendTag)),
            UnaryRelation::Atom(UnaryRelationAtom::EventIs(EventKind::RecvNet)),
            UnaryRelation::Atom(UnaryRelationAtom::EventIs(EventKind::SendStopGrn))
        ])))), BinaryRelation::Atom(BinaryRelationAtom::FederateZeroDelayDirectlyUpstreamOf), BinaryRelation::Atom(BinaryRelationAtom::GreaterThanOrEqual(Term::Tag, Term::Tag))]);
    lemma_searchable_list(seq![BinaryRelation::And(binary_list(seq![
            BinaryRelation::BoundMary(Box::new(UnaryRelation::Atom(UnaryRelationAtom::EventIs(EventKind::RecvLtc)))),
            BinaryRelation::Atom(BinaryRelationAtom::FederateZeroDelayDirectlyUpstreamOf),
            BinaryRelation::Atom(BinaryRelationAtom::GreaterThanOrEqual(Term::Tag, Term::Tag))
        ])), BinaryRelation::And(binary_list(seq![
            BinaryRelation::BoundMary(Box::new(UnaryRelation::Or(unary_list(seq![
                UnaryRelation::Atom(UnaryRelationAtom::EventIs(EventKind::SendTag)),
                UnaryRelation::Atom(UnaryRelationAtom::EventIs(EventKind::RecvNet)),
                UnaryRelation::Atom(UnaryRelationAtom::EventIs(EventKind::SendStopGrn))
            ])))),
            BinaryRelation::Atom(BinaryRelationAtom::FederateZeroDelayDirectlyUpstreamOf),
            BinaryRelation::Atom(BinaryRelationAtom::GreaterThanOrEqual(Term::Tag, Term::Tag))
        ]))]);
    assert(searchable(BinaryRelation::Or(binary_list(seq![
            BinaryRelation::And(binary_list(seq![
                BinaryRelation::BoundMary(Box::new(UnaryRelation::Atom(UnaryRelationAtom::EventIs(EventKind::RecvLtc)))),
                BinaryRelation::Atom(BinaryRelationAtom::FederateZeroDelayDirectlyUpstreamOf),
                BinaryRelation::Atom(BinaryRelationAtom::GreaterThanOrEqual(Term::Tag, Term::Tag))
            ])),
            BinaryRelation::And(binary_list(seq![
                BinaryRelation::BoundMary(Box::new(UnaryRelation::Or(unary_list(seq![
                    UnaryRelation::Atom(UnaryRelationAtom::EventIs(EventKind::SendTag)),
                    UnaryRelation::Atom(UnaryRelationAtom::EventIs(EventKind::RecvNet)),
                    UnaryRelation::Atom(UnaryRelationAtom::EventIs(EventKind::SendStopGrn))
                ])))),
                BinaryRelation::Atom(BinaryRelationAtom::FederateZeroDelayDirectlyUpstreamOf),
                BinaryRelation::Atom(BinaryRelationAtom::GreaterThanOrEqual(Term::Tag, Term::Tag))
            ]))
        ]))));
}

proof fn lemma_rule_9_searchable()
    ensures
        searchable(rule_9().preceding_event),
{
    lemma_searchable_list(seq![BinaryRelation::BoundMary(Box::new(UnaryRelation::Atom(UnaryRelationAtom::EventIs(EventKind::SendPtag)))), BinaryRelation::Atom(BinaryRelationAtom::FederateZeroDelayDirectlyUpstreamOf), BinaryRelation::Atom(BinaryRelationAtom::Equal(Term::Tag, Term::Tag))]);
    lemma_plain_list(seq![UnaryRelation::Atom(UnaryRelationAtom::EventIs(EventKind::RecvNet)), UnaryRelation::Atom(UnaryRelationAtom::EventIs(EventKind::SendStopGrn))]);
    lemma_searchable_list(seq![BinaryRelation::Atom(BinaryRelationAtom::FederateEquals), BinaryRelation::Atom(BinaryRelationAtom::FederateDirectlyUpstreamOf)]);
    lemma_searchable_list(seq![BinaryRelation::BoundMary(Box::new(UnaryRelation::Or(unary_list(seq![
            UnaryRelation::Atom(UnaryRelationAtom::EventIs(EventKind::RecvNet)),
            UnaryRelation::Atom(UnaryRelationAtom::EventIs(EventKind::SendStopGrn))
        ])))), BinaryRelation::Or(binary_list(seq![
            BinaryRelation::Atom(BinaryRelationAtom::FederateEquals),
            BinaryRelation::Atom(BinaryRelationAtom::FederateDirectlyUpstreamOf)
        ])), BinaryRelation::Atom(BinaryRelationAtom::Equal(Term::Tag, Term::Tag))]);
    lemma_searchable_list(seq![BinaryRelation::And(binary_list(seq![
            BinaryRelation::BoundMary(Box::new(UnaryRelation::Atom(UnaryRelationAtom::EventIs(EventKind::SendPtag)))),
            BinaryRelation::Atom(BinaryRelationAtom::FederateZeroDelayDirectlyUpstreamOf),
            BinaryRelation::Atom(BinaryRelationAtom::Equal(Term::Tag, Term::Tag))
        ])), BinaryRelation::And(binary_list(seq![
            BinaryRelation::BoundMary(Box::new(UnaryRelation::Or(unary_list(seq![
                UnaryRelation::Atom(UnaryRelationAtom::EventIs(EventKind::RecvNet)),
                UnaryRelation::Atom(UnaryRelationAtom::EventIs(EventKind::SendStopGrn))
            ])))),
            BinaryRelation::Or(binary_list(seq![
                BinaryRelation::Atom(BinaryRelationAtom::FederateEquals),
                BinaryRelation::Atom(BinaryRelationAtom::FederateDirectlyUpstreamOf)
            ])),
            BinaryRelation::Atom(BinaryRelationAtom::Equal(Term::Tag, Term::Tag))
        ]))]);
    assert(searchable(BinaryRelation::Or(binary_list(seq![
            BinaryRelation::And(binary_list(seq![
                BinaryRelation::BoundMary(Box::new(UnaryRelation::Atom(UnaryRelationAtom::EventIs(EventKind::SendPtag)))),
                BinaryRelation::Atom(BinaryRelationAtom::FederateZeroDelayDirectlyUpstreamOf),
                BinaryRelation::Atom(BinaryRelationAtom::Equal(Term::Tag, Term::Tag))
            ])),
            BinaryRelation::And(binary_list(seq![
                BinaryRelation::BoundMary(Box::new(UnaryRelation::Or(unary_list(seq![
                    UnaryRelation::Atom(UnaryRelationAtom::EventIs(EventKind::RecvNet)),
                    UnaryRelation::Atom(UnaryRelationAtom::EventIs(EventKind::SendStopGrn))
                ])))),
                BinaryRelation::Or(binary_list(seq![
                    BinaryRelation::Atom(BinaryRelationAtom::FederateEquals),
                    BinaryRelation::Atom(BinaryRelationAtom::FederateDirectlyUpstreamOf)
                ])),
                BinaryRelation::Atom(BinaryRelationAtom::Equal(Term::Tag, Term::Tag))
            ]))
        ]))));
}

proof fn lemma_rule_10_searchable()
    ensures
        searchable(rule_10().preceding_event),
{
    lemma_searchable_list(seq![BinaryRelation::BoundMary(Box::new(UnaryRelation::Atom(UnaryRelationAtom::EventIs(EventKind::RecvPortAbs)))), BinaryRelation::Atom(BinaryRelationAtom::FederateDirectlyUpstreamOf), BinaryRelation::Atom(BinaryRelationAtom::Equal(Term::Tag, Term::Tag))]);
    assert(searchable(BinaryRelation::And(binary_list(seq![
            BinaryRelation::BoundMary(Box::new(UnaryRelation::Atom(UnaryRelationAtom::EventIs(EventKind::RecvPortAbs)))),
            BinaryRelation::Atom(BinaryRelationAtom::FederateDirectlyUpstreamOf),
            BinaryRelation::Atom(BinaryRelationAtom::Equal(Term::Tag, Term::Tag))
        ]))));
}

proof fn lemma_rule_11_searchable()
    ensures
        searchable(rule_11().preceding_event),
{
    lemma_searchable_list(seq![BinaryRelation::BoundMary(Box::new(UnaryRelation::Atom(UnaryRelationAtom::EventIs(EventKind::RecvTaggedMsg)))), BinaryRelation::Atom(BinaryRelationAtom::FederateDirectlyUpstreamOf), BinaryRelation::Atom(BinaryRelationAtom::Equal(Term::Tag, Term::Tag))]);
    assert(searchable(BinaryRelation::And(binary_list(seq![
            BinaryRelation::BoundMary(Box::new(UnaryRelation::Atom(UnaryRelationAtom::EventIs(EventKind::RecvTaggedMsg)))),
            BinaryRelation::Atom(BinaryRelationAtom::FederateDirectlyUpstreamOf),
            BinaryRelation::Atom(BinaryRelationAtom::Equal(Term::Tag, Term::Tag))
        ]))));
}

proof fn lemma_rule_12_searchable()
    ensures
        searchable(rule_12().preceding_event),
{
    lemma_plain_list(seq![UnaryRelation::Atom(UnaryRelationAtom::EventIs(EventKind::RecvPortAbs)), UnaryRelation::Atom(UnaryRelationAtom::EventIs(EventKind::RecvTaggedMsg))]);
    lemma_searchable_list(seq![BinaryRelation::BoundMary(Box::new(UnaryRelation::Or(unary_list(seq![
            UnaryRelation::Atom(UnaryRelationAtom::EventIs(EventKind::RecvPortAbs)),
            UnaryRelation::Atom(UnaryRelationAtom::EventIs(EventKind::RecvTaggedMsg))
        ])))), BinaryRelation::Atom(BinaryRelationAtom::FederateEquals), BinaryRelation::Atom(BinaryRelationAtom::LessThanOrEqual(Term::Tag, Term::Tag))]);
}

proof fn lemma_rule_13_searchable()
    ensures
        searchable(rule_13().preceding_event),
{
    lemma_searchable_list(seq![BinaryRelation::BoundMary(Box::new(UnaryRelation::Atom(UnaryRelationAtom::EventIs(EventKind::RecvFedId)))), BinaryRelation::Atom(BinaryRelationAtom::FederateEquals)]);
}

proof fn lemma_rule_14_searchable()
    ensures
        searchable(rule_14().preceding_event),
{
    lemma_searchable_list(seq![BinaryRelation::BoundMary(Box::new(UnaryRelation::Atom(UnaryRelationAtom::EventIs(EventKind::SendAck)))), BinaryRelation::Atom(BinaryRelationAtom::FederateEquals)]);
}

proof fn lemma_rule_15_searchable()
    ensures
        searchable(rule_15().preceding_event),
{
    lemma_searchable_list(seq![BinaryRelation::BoundMary(Box::new(UnaryRelation::Atom(UnaryRelationAtom::EventIs(EventKind::RecvTimestamp)))), BinaryRelation::Atom(BinaryRelationAtom::FederateEquals)]);
}

proof fn lemma_rule_16_searchable()
    ensures
        searchable(rule_16().preceding_event),
{
    lemma_searchable_list(seq![BinaryRelation::BoundMary(Box::new(UnaryRelation::Atom(UnaryRelationAtom::EventIs(EventKind::SendTimestamp)))), BinaryRelation::Atom(BinaryRelationAtom::FederateEquals)]);
}

proof fn lemma_rule_17_searchable()
    ensures
        searchable(rule_17().preceding_event),
{
    lemma_searchable_list(seq![BinaryRelation::BoundMary(Box::new(UnaryRelation::Atom(UnaryRelationAtom::EventIs(EventKind::RecvTimestamp))))]);
}

/// The preceding relation of every rule can be searched for first events.
pub proof fn lemma_axioms_searchable()
    ensures
        forall|i: int| 0 <= i < axiom_table().len() ==> searchable(#[trigger] axiom_table()[i].preceding_event),
{
    lemma_rule_0_searchable();
    lemma_rule_1_searchable();
    lemma_rule_2_searchable();
    lemma_rule_3_searchable();
    lemma_rule_4_searchable();
    lemma_rule_5_searchable();
    lemma_rule_6_searchable();
    lemma_rule_7_searchable();
    lemma_rule_8_searchable();
    lemma_rule_9_searchable();
    lemma_rule_10_searchable();
    lemma_rule_11_searchable();
    lemma_rule_12_searchable();
    lemma_rule_13_searchable();
    lemma_rule_14_searchable();
    lemma_rule_15_searchable();
    lemma_rule_16_searchable();
    lemma_rule_17_searchable();
    assert(axiom_table().len() == 18);
}

} // verus!
