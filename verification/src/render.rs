//! The text of events, tags, delays, terms, relations and rules, as they are shown to people.
//! Terms and atoms speak of an event `eXXX`; an atom that relates two events names them `e1`
//! (the earlier one) and `e2`, and so does a rule.
use vstd::prelude::*;
use crate::conninfo::{
    Delay, Tag, tag_inner, tag_read, tag_text_readable, sep_at, first_part, lemma_no_sep_from,
    lemma_sep_first_at,
};
use crate::relation::{
    BinaryRelation, BinaryRelationAtom, BinaryRelations, DelayTerm, EventKind, Term, UnaryRelation,
    UnaryRelationAtom, UnaryRelations,
};
use crate::text::{
    chars_of, extend_chars, int_text, nat_text, decimal_chars, signed_decimal_chars, string_from_chars,
};
use crate::text::{spec_is_whitespace, spec_trim, leading_ws, trailing_ws};
use crate::text::{decimal_body, is_digit, lemma_int_text_reads, lemma_nat_text_digits};
use crate::trace::kind_named;
use crate::axioms::{
    axiom_table, rule_0, rule_1, rule_2, rule_3, rule_4, rule_5, rule_6, rule_7, rule_8, rule_9, rule_10, rule_11,
    rule_12, rule_13, rule_14, rule_15, rule_16, rule_17,
};
use crate::unpermutables::{Rule, set_views};
use crate::rankset::RankSet;
use crate::transpositions::Orderings;

verus! {

broadcast use vstd::seq_lib::group_seq_properties;

// ---------------------------------------------------------------------------------------------
// Replacing a pattern
// ---------------------------------------------------------------------------------------------

/// `s` with every occurrence of `pat` replaced by `rep`, scanning from the left, occurrences not
/// overlapping.
pub open spec fn replace_all(s: Seq<char>, pat: Seq<char>, rep: Seq<char>) -> Seq<char>
    decreases s.len(),
{
    if s.len() == 0 {
        seq![]
    } else if pat.len() > 0 && pat.len() <= s.len() && s.take(pat.len() as int) == pat {
        rep + replace_all(s.skip(pat.len() as int), pat, rep)
    } else {
        seq![s[0]] + replace_all(s.skip(1), pat, rep)
    }
}

/// `pat` occurs in `s` at position `i`.
fn occurs_at(s: &Vec<char>, i: usize, pat: &Vec<char>) -> (r: bool)
    requires
        i <= s@.len(),
    ensures
        r == (i + pat@.len() <= s@.len() && s@.subrange(i as int, i + pat@.len()) == pat@),
{
    if pat.len() > s.len() - i {
        return false;
    }
    let mut k: usize = 0;
    while k < pat.len()
        invariant
            i + pat@.len() <= s.len(),
            k <= pat@.len(),
            forall|j: int| 0 <= j < k ==> s@[i + j] == pat@[j],
        decreases pat@.len() - k,
    {
        if s[i + k] != pat[k] {
            assert(s@.subrange(i as int, i + pat@.len())[k as int] != pat@[k as int]);
            return false;
        }
        k += 1;
    }
    assert(s@.subrange(i as int, i + pat@.len()) =~= pat@);
    true
}

/// Replaces every occurrence of `pat` in `s` by `rep`, as `str::replace` does.
pub fn replace_chars(s: &Vec<char>, pat: &Vec<char>, rep: &Vec<char>) -> (r: Vec<char>)
    requires
        pat@.len() > 0,
    ensures
        r@ == replace_all(s@, pat@, rep@),
{
    let mut r: Vec<char> = Vec::new();
    let mut i: usize = 0;
    while i < s.len()
        invariant
            pat@.len() > 0,
            i <= s@.len(),
            r@ + replace_all(s@.skip(i as int), pat@, rep@) == replace_all(s@, pat@, rep@),
        decreases s@.len() - i,
    {
        let ghost rest = s@.skip(i as int);
        if occurs_at(s, i, pat) {
            proof {
                assert(rest.take(pat@.len() as int) =~= s@.subrange(i as int, i + pat@.len()));
                assert(rest.skip(pat@.len() as int) =~= s@.skip(i + pat@.len()));
                assert(r@ + rep@ + replace_all(s@.skip(i + pat@.len()), pat@, rep@) =~= r@ + replace_all(rest, pat@, rep@));
            }
            extend_chars(&mut r, rep);
            i = i + pat.len();
        } else {
            proof {
                if pat@.len() <= rest.len() {
                    assert(rest.take(pat@.len() as int) =~= s@.subrange(i as int, i + pat@.len()));
                }
                assert(rest.skip(1) =~= s@.skip(i + 1));
                assert(r@.push(s@[i as int]) + replace_all(s@.skip(i + 1), pat@, rep@) =~= r@ + replace_all(rest, pat@, rep@));
            }
            r.push(s[i]);
            i = i + 1;
        }
    }
    assert(s@.skip(s@.len() as int) =~= Seq::<char>::empty());
    assert(r@ =~= r@ + replace_all(s@.skip(i as int), pat@, rep@));
    r
}

/// Appends the characters of `s` to `v`.
fn push_str(v: &mut Vec<char>, s: &str)
    ensures
        final(v)@ == old(v)@ + s@,
{
    let c = chars_of(s);
    extend_chars(v, &c);
}

// ---------------------------------------------------------------------------------------------
// Kinds of events, tags and delays
// ---------------------------------------------------------------------------------------------

/// The text of a kind of event, as the RTI's trace files write it.
pub open spec fn kind_text(k: EventKind) -> Seq<char> {
    match k {
        EventKind::RecvFedId => "Receiving FED_ID"@,
        EventKind::SendAck => "Sending ACK"@,
        EventKind::SendTimestamp => "Sending TIMESTAMP"@,
        EventKind::RecvTimestamp => "Receiving TIMESTAMP"@,
        EventKind::RecvNet => "Receiving NET"@,
        EventKind::SendPortAbs => "Sending PORT_ABS"@,
        EventKind::RecvPortAbs => "Receiving PORT_ABS"@,
        EventKind::SendPtag => "Sending PTAG"@,
        EventKind::SendTaggedMsg => "Sending TAGGED_MSG"@,
        EventKind::RecvTaggedMsg => "Receiving TAGGED_MSG"@,
        EventKind::SendTag => "Sending TAG"@,
        EventKind::RecvStopReq => "Receiving STOP_REQ"@,
        EventKind::SendStopReq => "Sending STOP_REQ"@,
        EventKind::RecvStopReqRep => "Receiving STOP_REQ_REP"@,
        EventKind::SendStopGrn => "Sending STOP_GRN"@,
        EventKind::RecvLtc => "Receiving LTC"@,
    }
}

fn kind_chars(k: EventKind) -> (r: Vec<char>)
    ensures
        r@ == kind_text(k),
{
    match k {
        EventKind::RecvFedId => chars_of("Receiving FED_ID"),
        EventKind::SendAck => chars_of("Sending ACK"),
        EventKind::SendTimestamp => chars_of("Sending TIMESTAMP"),
        EventKind::RecvTimestamp => chars_of("Receiving TIMESTAMP"),
        EventKind::RecvNet => chars_of("Receiving NET"),
        EventKind::SendPortAbs => chars_of("Sending PORT_ABS"),
        EventKind::RecvPortAbs => chars_of("Receiving PORT_ABS"),
        EventKind::SendPtag => chars_of("Sending PTAG"),
        EventKind::SendTaggedMsg => chars_of("Sending TAGGED_MSG"),
        EventKind::RecvTaggedMsg => chars_of("Receiving TAGGED_MSG"),
        EventKind::SendTag => chars_of("Sending TAG"),
        EventKind::RecvStopReq => chars_of("Receiving STOP_REQ"),
        EventKind::SendStopReq => chars_of("Sending STOP_REQ"),
        EventKind::RecvStopReqRep => chars_of("Receiving STOP_REQ_REP"),
        EventKind::SendStopGrn => chars_of("Sending STOP_GRN"),
        EventKind::RecvLtc => chars_of("Receiving LTC"),
    }
}

impl EventKind {
    /// The text of the kind of event.
    pub fn to_string(&self) -> (r: String)
        ensures
            r@ == kind_text(*self),
    {
        string_from_chars(&kind_chars(*self))
    }
}

/// The text of a tag: its time and its microstep, in parentheses.
pub open spec fn tag_text(t: Tag) -> Seq<char> {
    "("@ + int_text(t.0 as int) + ", "@ + nat_text(t.1 as nat) + ")"@
}

/// Reading the text form of a tag gives the tag back, wherever its microstep is written as a
/// number that an `i64` holds (the infinite microstep is written as the largest `u64`, which
/// does not read as an `i64`).
pub proof fn lemma_tag_text_reads_back(t: Tag)
    requires
        t.1 <= i64::MAX,
    ensures
        tag_text_readable(tag_text(t)),
        tag_read(tag_text(t)) == Ok::<Tag, Seq<char>>(t),
{
    reveal_strlit("(");
    reveal_strlit(", ");
    reveal_strlit(")");
    let a = int_text(t.0 as int);
    let b = nat_text(t.1 as nat);
    lemma_int_text_reads(t.0 as int);
    lemma_nat_text_digits(t.1 as nat);
    let s = tag_text(t);
    let inner = a + ", "@ + b;
    assert(tag_inner(s) =~= inner);
    let p = a.len() as int;
    assert(sep_at(inner, p));
    assert forall|j: int| 0 <= j < p implies inner[j] != ',' by {
        assert(inner[j] == a[j]);
    }
    lemma_sep_first_at(inner, 0, p);
    assert(first_part(inner) =~= a);
    assert(inner.skip(p + 2) =~= b);
    assert forall|j: int| 0 <= j < b.len() implies b[j] != ',' by {
        assert(is_digit(b[j]));
    }
    lemma_no_sep_from(b, 0);
    assert(first_part(b) == b);
    assert(is_digit(b[0]));
    assert(decimal_body(b, true) == b);
    assert(s[0] == '(');
    assert(s.last() == ')');
}

impl Tag {
    /// The text of the tag; `Tag::from_str` reads it back as the same tag wherever the microstep
    /// fits an `i64`.
    pub fn to_string(&self) -> (r: String)
        ensures
            r@ == tag_text(*self),
            self.1 <= i64::MAX ==> tag_text_readable(r@) && tag_read(r@) == Ok::<Tag, Seq<char>>(*self),
    {
        proof {
            if self.1 <= i64::MAX {
                lemma_tag_text_reads_back(*self);
            }
        }
        let mut v: Vec<char> = Vec::new();
        push_str(&mut v, "(");
        extend_chars(&mut v, &signed_decimal_chars(self.0));
        push_str(&mut v, ", ");
        extend_chars(&mut v, &decimal_chars(self.1));
        push_str(&mut v, ")");
        string_from_chars(&v)
    }
}

/// A delay that has a text: no delay, the microstep delay, or a positive time.
pub open spec fn delay_has_text(d: Delay) -> bool {
    d.0 > 0 || d.1 <= 1
}

/// The text of a delay.
pub open spec fn delay_text(d: Delay) -> Seq<char> {
    if d.0 == 0 && d.1 == 0 {
        "no_delay"@
    } else if d.0 == 0 && d.1 == 1 {
        "(0, 0)"@
    } else {
        nat_text(d.0 as nat)
    }
}

impl Delay {
    /// The text of the delay.
    pub fn to_string(&self) -> (r: String)
        requires
            delay_has_text(*self),
        ensures
            r@ == delay_text(*self),
    {
        if self.0 == 0 && self.1 == 0 {
            string_from_chars(&chars_of("no_delay"))
        } else if self.0 == 0 && self.1 == 1 {
            string_from_chars(&chars_of("(0, 0)"))
        } else {
            string_from_chars(&decimal_chars(self.0))
        }
    }
}

// ---------------------------------------------------------------------------------------------
// Terms and atoms
// ---------------------------------------------------------------------------------------------

/// The text of a delay term.
pub open spec fn delay_term_text(d: DelayTerm) -> Seq<char> {
    match d {
        DelayTerm::SmallestDelayBetween => "(smallest connection delay between federate of e1 and federate of e2)"@,
        DelayTerm::SmallestDelayFrom => "(the smallest delay of a connection going out of the federate of e1)"@,
        DelayTerm::SmallestDelayFromSomeImmUpstreamFed => "(smallest delay of a connection going in to the federate of eXXX)"@,
        DelayTerm::LargestDelayFrom => "(largest delay of a connection from the federate of e1 to the federate of e2)"@,
        DelayTerm::LargestDelayFromSomeImmUpstreamFed => "(largest delay of a connection going in to the federate of eXXX)"@,
    }
}

fn delay_term_chars(d: DelayTerm) -> (r: Vec<char>)
    ensures
        r@ == delay_term_text(d),
{
    match d {
        DelayTerm::SmallestDelayBetween => chars_of("(smallest connection delay between federate of e1 and federate of e2)"),
        DelayTerm::SmallestDelayFrom => chars_of("(the smallest delay of a connection going out of the federate of e1)"),
        DelayTerm::SmallestDelayFromSomeImmUpstreamFed => chars_of("(smallest delay of a connection going in to the federate of eXXX)"),
        DelayTerm::LargestDelayFrom => chars_of("(largest delay of a connection from the federate of e1 to the federate of e2)"),
        DelayTerm::LargestDelayFromSomeImmUpstreamFed => chars_of("(largest delay of a connection going in to the federate of eXXX)"),
    }
}

impl DelayTerm {
    /// The text of the delay term.
    pub fn to_string(&self) -> (r: String)
        ensures
            r@ == delay_term_text(*self),
    {
        string_from_chars(&delay_term_chars(*self))
    }
}

/// The text of a term.
pub open spec fn term_text(t: Term) -> Seq<char> {
    match t {
        Term::Tag => "(Tag eXXX)"@,
        Term::TagPlusDelay(d) => "(Tag eXXX) + "@ + delay_term_text(d),
        Term::TagStrictPlusDelay(d) => "(Tag eXXX) strict+ "@ + delay_term_text(d),
    }
}

fn term_chars(t: Term) -> (r: Vec<char>)
    ensures
        r@ == term_text(t),
{
    match t {
        Term::Tag => chars_of("(Tag eXXX)"),
        Term::TagPlusDelay(d) => {
            let mut v = chars_of("(Tag eXXX) + ");
            extend_chars(&mut v, &delay_term_chars(d));
            v
        },
        Term::TagStrictPlusDelay(d) => {
            let mut v = chars_of("(Tag eXXX) strict+ ");
            extend_chars(&mut v, &delay_term_chars(d));
            v
        },
    }
}

impl Term {
    /// The text of the term.
    pub fn to_string(&self) -> (r: String)
        ensures
            r@ == term_text(*self),
    {
        string_from_chars(&term_chars(*self))
    }
}

/// The text of an atomic predicate.
pub open spec fn ua_text(a: UnaryRelationAtom) -> Seq<char> {
    match a {
        UnaryRelationAtom::FedHasNoneUpstreamWithDelayLessThanOrEqualCurrentTag => "(Fed eXXX) has no upstream with delay \u{2264} (Tag eXXX)"@,
        UnaryRelationAtom::TagNonzero => "(Tag eXXX) \u{2260} 0"@,
        UnaryRelationAtom::TagFinite => "(Tag eXXX) finite"@,
        UnaryRelationAtom::EventIs(k) => "(eXXX is ("@ + kind_text(k) + "))"@,
    }
}

fn ua_chars(a: UnaryRelationAtom) -> (r: Vec<char>)
    ensures
        r@ == ua_text(a),
{
    match a {
        UnaryRelationAtom::FedHasNoneUpstreamWithDelayLessThanOrEqualCurrentTag => chars_of("(Fed eXXX) has no upstream with delay \u{2264} (Tag eXXX)"),
        UnaryRelationAtom::TagNonzero => chars_of("(Tag eXXX) \u{2260} 0"),
        UnaryRelationAtom::TagFinite => chars_of("(Tag eXXX) finite"),
        UnaryRelationAtom::EventIs(k) => {
            let mut v = chars_of("(eXXX is (");
            extend_chars(&mut v, &kind_chars(k));
            push_str(&mut v, "))");
            v
        },
    }
}

impl UnaryRelationAtom {
    /// The text of the atomic predicate.
    pub fn to_string(&self) -> (r: String)
        ensures
            r@ == ua_text(*self),
    {
        string_from_chars(&ua_chars(*self))
    }
}

/// The text of the comparison of an atom that compares two terms.
pub open spec fn comparison_text(a: BinaryRelationAtom) -> Seq<char> {
    match a {
        BinaryRelationAtom::LessThan(_, _) => "<"@,
        BinaryRelationAtom::LessThanOrEqual(_, _) => "\u{2264}"@,
        BinaryRelationAtom::GreaterThanOrEqual(_, _) => "\u{2265}"@,
        BinaryRelationAtom::GreaterThan(_, _) => ">"@,
        _ => "="@,
    }
}

/// The text of two compared terms: the first one speaks of `e1`, the second of `e2`.
pub open spec fn compared_text(t0: Term, op: Seq<char>, t1: Term) -> Seq<char> {
    replace_all(term_text(t0), "eXXX"@, "e1"@) + " "@ + op + " "@ + replace_all(term_text(t1), "eXXX"@, "e2"@)
}

/// The text of an atomic binary relation.
pub open spec fn ba_text(a: BinaryRelationAtom) -> Seq<char> {
    match a {
        BinaryRelationAtom::FederateEquals => "Federate(e1) = Federate(e2)"@,
        BinaryRelationAtom::FederateZeroDelayDirectlyUpstreamOf => "(Federate of e1 is upstream of federate of e2 via a zero-delay connection)"@,
        BinaryRelationAtom::FederateDirectlyUpstreamOf => "(Federate of e1 is directly upstream of federate of e2)"@,
        BinaryRelationAtom::LessThan(t0, t1) => compared_text(t0, comparison_text(a), t1),
        BinaryRelationAtom::LessThanOrEqual(t0, t1) => compared_text(t0, comparison_text(a), t1),
        BinaryRelationAtom::GreaterThanOrEqual(t0, t1) => compared_text(t0, comparison_text(a), t1),
        BinaryRelationAtom::GreaterThan(t0, t1) => compared_text(t0, comparison_text(a), t1),
        BinaryRelationAtom::Equal(t0, t1) => compared_text(t0, comparison_text(a), t1),
    }
}

fn compared_chars(t0: Term, op: &str, t1: Term) -> (r: Vec<char>)
    ensures
        r@ == compared_text(t0, op@, t1),
{
    let xxx = chars_of("eXXX");
    proof {
        reveal_strlit("eXXX");
    }
    let mut v = replace_chars(&term_chars(t0), &xxx, &chars_of("e1"));
    push_str(&mut v, " ");
    push_str(&mut v, op);
    push_str(&mut v, " ");
    extend_chars(&mut v, &replace_chars(&term_chars(t1), &xxx, &chars_of("e2")));
    v
}

fn ba_chars(a: BinaryRelationAtom) -> (r: Vec<char>)
    ensures
        r@ == ba_text(a),
{
    match a {
        BinaryRelationAtom::FederateEquals => chars_of("Federate(e1) = Federate(e2)"),
        BinaryRelationAtom::FederateZeroDelayDirectlyUpstreamOf => chars_of("(Federate of e1 is upstream of federate of e2 via a zero-delay connection)"),
        BinaryRelationAtom::FederateDirectlyUpstreamOf => chars_of("(Federate of e1 is directly upstream of federate of e2)"),
        BinaryRelationAtom::LessThan(t0, t1) => compared_chars(t0, "<", t1),
        BinaryRelationAtom::LessThanOrEqual(t0, t1) => compared_chars(t0, "\u{2264}", t1),
        BinaryRelationAtom::GreaterThanOrEqual(t0, t1) => compared_chars(t0, "\u{2265}", t1),
        BinaryRelationAtom::GreaterThan(t0, t1) => compared_chars(t0, ">", t1),
        BinaryRelationAtom::Equal(t0, t1) => compared_chars(t0, "=", t1),
    }
}

impl BinaryRelationAtom {
    /// The text of the atomic binary relation.
    pub fn to_string(&self) -> (r: String)
        ensures
            r@ == ba_text(*self),
    {
        string_from_chars(&ba_chars(*self))
    }
}

// ---------------------------------------------------------------------------------------------
// Relations and rules
// ---------------------------------------------------------------------------------------------

/// The predicate has a text: it binds no event (an event has no text), and each of its
/// conjunctions and disjunctions has an operand.
pub open spec fn u_has_text(r: UnaryRelation) -> bool
    decreases r,
{
    match r {
        UnaryRelation::Atom(_) => true,
        UnaryRelation::IsFirst(b) => b_has_text(*b),
        UnaryRelation::IsFirstForFederate(b) => b_has_text(*b),
        UnaryRelation::And(l) => match l {
            UnaryRelations::Nil => false,
            UnaryRelations::Cons(h, t) => u_has_text(*h) && ul_has_text(*t),
        },
        UnaryRelation::Or(l) => match l {
            UnaryRelations::Nil => false,
            UnaryRelations::Cons(h, t) => u_has_text(*h) && ul_has_text(*t),
        },
        UnaryRelation::Not(x) => u_has_text(*x),
        UnaryRelation::BoundMary(_, _) => false,
    }
}

/// Every predicate of the list has a text.
pub open spec fn ul_has_text(l: UnaryRelations) -> bool
    decreases l,
{
    match l {
        UnaryRelations::Nil => true,
        UnaryRelations::Cons(h, t) => u_has_text(*h) && ul_has_text(*t),
    }
}

/// The binary relation has a text (see `u_has_text`).
pub open spec fn b_has_text(r: BinaryRelation) -> bool
    decreases r,
{
    match r {
        BinaryRelation::Atom(_) => true,
        BinaryRelation::IsFirst(b) => b_has_text(*b),
        BinaryRelation::IsFirstForFederate(b) => b_has_text(*b),
        BinaryRelation::And(l) => match l {
            BinaryRelations::Nil => false,
            BinaryRelations::Cons(h, t) => b_has_text(*h) && bl_has_text(*t),
        },
        BinaryRelation::Or(l) => match l {
            BinaryRelations::Nil => false,
            BinaryRelations::Cons(h, t) => b_has_text(*h) && bl_has_text(*t),
        },
        BinaryRelation::Not(x) => b_has_text(*x),
        BinaryRelation::BoundMary(u) => u_has_text(*u),
    }
}

/// Every relation of the list has a text.
pub open spec fn bl_has_text(l: BinaryRelations) -> bool
    decreases l,
{
    match l {
        BinaryRelations::Nil => true,
        BinaryRelations::Cons(h, t) => b_has_text(*h) && bl_has_text(*t),
    }
}

/// The text of a predicate. A conjunction closes a parenthesis after its first operand and
/// another at the end; a disjunction is in one pair of parentheses.
pub open spec fn u_text(r: UnaryRelation) -> Seq<char>
    decreases r,
{
    match r {
        UnaryRelation::Atom(a) => ua_text(a),
        UnaryRelation::IsFirst(b) => "(FIRST "@ + b_text(*b) + ")"@,
        UnaryRelation::IsFirstForFederate(b) => "(FedwiseFIRST "@ + b_text(*b) + ")"@,
        UnaryRelation::And(l) => match l {
            UnaryRelations::Nil => seq![],
            UnaryRelations::Cons(h, t) => "("@ + u_text(*h) + ")"@ + ul_join(*t, " \u{2227} "@) + ")"@,
        },
        UnaryRelation::Or(l) => match l {
            UnaryRelations::Nil => seq![],
            UnaryRelations::Cons(h, t) => "("@ + u_text(*h) + ul_join(*t, " \u{2228} "@) + ")"@,
        },
        UnaryRelation::Not(x) => "\u{ac}"@ + u_text(*x),
        UnaryRelation::BoundMary(_, _) => seq![],
    }
}

/// The texts of the predicates of the list, each after the separator.
pub open spec fn ul_join(l: UnaryRelations, sep: Seq<char>) -> Seq<char>
    decreases l,
{
    match l {
        UnaryRelations::Nil => seq![],
        UnaryRelations::Cons(h, t) => sep + u_text(*h) + ul_join(*t, sep),
    }
}

/// The text of a binary relation; a bound predicate shows as the predicate.
pub open spec fn b_text(r: BinaryRelation) -> Seq<char>
    decreases r,
{
    match r {
        BinaryRelation::Atom(a) => ba_text(a),
        BinaryRelation::IsFirst(b) => "(FIRST "@ + b_text(*b) + ")"@,
        BinaryRelation::IsFirstForFederate(b) => "(FedwiseFIRST "@ + b_text(*b) + ")"@,
        BinaryRelation::And(l) => match l {
            BinaryRelations::Nil => seq![],
            BinaryRelations::Cons(h, t) => "("@ + b_text(*h) + ")"@ + bl_join(*t, " \u{2227} "@) + ")"@,
        },
        BinaryRelation::Or(l) => match l {
            BinaryRelations::Nil => seq![],
            BinaryRelations::Cons(h, t) => "("@ + b_text(*h) + bl_join(*t, " \u{2228} "@) + ")"@,
        },
        BinaryRelation::Not(x) => "\u{ac}"@ + b_text(*x),
        BinaryRelation::BoundMary(u) => u_text(*u),
    }
}

/// The texts of the relations of the list, each after the separator.
pub open spec fn bl_join(l: BinaryRelations, sep: Seq<char>) -> Seq<char>
    decreases l,
{
    match l {
        BinaryRelations::Nil => seq![],
        BinaryRelations::Cons(h, t) => sep + b_text(*h) + bl_join(*t, sep),
    }
}

fn u_chars(r: &UnaryRelation) -> (v: Vec<char>)
    requires
        u_has_text(*r),
    ensures
        v@ == u_text(*r),
    decreases r,
{
    match r {
        UnaryRelation::Atom(a) => ua_chars(*a),
        UnaryRelation::IsFirst(b) => {
            let mut v = chars_of("(FIRST ");
            extend_chars(&mut v, &b_chars(b));
            push_str(&mut v, ")");
            v
        },
        UnaryRelation::IsFirstForFederate(b) => {
            let mut v = chars_of("(FedwiseFIRST ");
            extend_chars(&mut v, &b_chars(b));
            push_str(&mut v, ")");
            v
        },
        UnaryRelation::And(l) => match l {
            UnaryRelations::Nil => Vec::new(),
            UnaryRelations::Cons(h, t) => {
                let mut v = chars_of("(");
                extend_chars(&mut v, &u_chars(h));
                push_str(&mut v, ")");
                extend_chars(&mut v, &ul_join_chars(t, " \u{2227} "));
                push_str(&mut v, ")");
                v
            },
        },
        UnaryRelation::Or(l) => match l {
            UnaryRelations::Nil => Vec::new(),
            UnaryRelations::Cons(h, t) => {
                let mut v = chars_of("(");
                extend_chars(&mut v, &u_chars(h));
                extend_chars(&mut v, &ul_join_chars(t, " \u{2228} "));
                push_str(&mut v, ")");
                v
            },
        },
        UnaryRelation::Not(x) => {
            let mut v = chars_of("\u{ac}");
            extend_chars(&mut v, &u_chars(x));
            v
        },
        UnaryRelation::BoundMary(_, _) => Vec::new(),
    }
}

fn ul_join_chars(l: &UnaryRelations, sep: &str) -> (v: Vec<char>)
    requires
        ul_has_text(*l),
    ensures
        v@ == ul_join(*l, sep@),
    decreases l,
{
    match l {
        UnaryRelations::Nil => Vec::new(),
        UnaryRelations::Cons(h, t) => {
            let mut v = chars_of(sep);
            extend_chars(&mut v, &u_chars(h));
            extend_chars(&mut v, &ul_join_chars(t, sep));
            v
        },
    }
}

fn b_chars(r: &BinaryRelation) -> (v: Vec<char>)
    requires
        b_has_text(*r),
    ensures
        v@ == b_text(*r),
    decreases r,
{
    match r {
        BinaryRelation::Atom(a) => ba_chars(*a),
        BinaryRelation::IsFirst(b) => {
            let mut v = chars_of("(FIRST ");
            extend_chars(&mut v, &b_chars(b));
            push_str(&mut v, ")");
            v
        },
        BinaryRelation::IsFirstForFederate(b) => {
            let mut v = chars_of("(FedwiseFIRST ");
            extend_chars(&mut v, &b_chars(b));
            push_str(&mut v, ")");
            v
        },
        BinaryRelation::And(l) => match l {
            BinaryRelations::Nil => Vec::new(),
            BinaryRelations::Cons(h, t) => {
                let mut v = chars_of("(");
                extend_chars(&mut v, &b_chars(h));
                push_str(&mut v, ")");
                extend_chars(&mut v, &bl_join_chars(t, " \u{2227} "));
                push_str(&mut v, ")");
                v
            },
        },
        BinaryRelation::Or(l) => match l {
            BinaryRelations::Nil => Vec::new(),
            BinaryRelations::Cons(h, t) => {
                let mut v = chars_of("(");
                extend_chars(&mut v, &b_chars(h));
                extend_chars(&mut v, &bl_join_chars(t, " \u{2228} "));
                push_str(&mut v, ")");
                v
            },
        },
        BinaryRelation::Not(x) => {
            let mut v = chars_of("\u{ac}");
            extend_chars(&mut v, &b_chars(x));
            v
        },
        BinaryRelation::BoundMary(u) => u_chars(u),
    }
}

fn bl_join_chars(l: &BinaryRelations, sep: &str) -> (v: Vec<char>)
    requires
        bl_has_text(*l),
    ensures
        v@ == bl_join(*l, sep@),
    decreases l,
{
    match l {
        BinaryRelations::Nil => Vec::new(),
        BinaryRelations::Cons(h, t) => {
            let mut v = chars_of(sep);
            extend_chars(&mut v, &b_chars(h));
            extend_chars(&mut v, &bl_join_chars(t, sep));
            v
        },
    }
}

impl UnaryRelation {
    /// The text of the predicate.
    pub fn to_string(&self) -> (r: String)
        requires
            u_has_text(*self),
        ensures
            r@ == u_text(*self),
    {
        string_from_chars(&u_chars(self))
    }
}

impl BinaryRelation {
    /// The text of the binary relation.
    pub fn to_string(&self) -> (r: String)
        requires
            b_has_text(*self),
        ensures
            r@ == b_text(*self),
    {
        string_from_chars(&b_chars(self))
    }
}

/// The text of a rule: its preceding event speaks of `e1`, its event of `e2`, and `e1` must come
/// first.
pub open spec fn rule_text(rule: Rule) -> Seq<char> {
    replace_all(b_text(rule.preceding_event), "eXXX"@, "e1"@) + " \u{2227} "@ + replace_all(u_text(rule.event), "eXXX"@, "e2"@)
        + " \u{21d2} e1 \u{227a} e2"@
}

impl Rule {
    /// The text of the rule.
    pub fn to_string(&self) -> (r: String)
        requires
            b_has_text(self.preceding_event),
            u_has_text(self.event),
        ensures
            r@ == rule_text(*self),
    {
        let xxx = chars_of("eXXX");
        proof {
            reveal_strlit("eXXX");
        }
        let mut v = replace_chars(&b_chars(&self.preceding_event), &xxx, &chars_of("e1"));
        push_str(&mut v, " \u{2227} ");
        extend_chars(&mut v, &replace_chars(&u_chars(&self.event), &xxx, &chars_of("e2")));
        push_str(&mut v, " \u{21d2} e1 \u{227a} e2");
        string_from_chars(&v)
    }
}

/// A text that neither starts nor ends with white space is its own trimmed text.
proof fn lemma_trim_unchanged(s: Seq<char>)
    requires
        s.len() > 0,
        !spec_is_whitespace(s[0]),
        !spec_is_whitespace(s.last()),
    ensures
        spec_trim(s) == s,
{
    assert(leading_ws(s) == 0);
    assert(s.skip(0) =~= s);
    assert(trailing_ws(s) == 0);
    assert(s.take(s.len() as int) =~= s);
}

/// The text of a kind of event parses back to that kind.
pub proof fn lemma_kind_text_parses(k: EventKind)
    ensures
        kind_named(spec_trim(kind_text(k))) == Some(k),
{
    reveal_strlit("Receiving FED_ID");
    reveal_strlit("Sending ACK");
    reveal_strlit("Sending TIMESTAMP");
    reveal_strlit("Receiving TIMESTAMP");
    reveal_strlit("Receiving NET");
    reveal_strlit("Sending PORT_ABS");
    reveal_strlit("Receiving PORT_ABS");
    reveal_strlit("Sending PTAG");
    reveal_strlit("Sending TAGGED_MSG");
    reveal_strlit("Receiving TAGGED_MSG");
    reveal_strlit("Sending TAG");
    reveal_strlit("Receiving STOP_REQ");
    reveal_strlit("Sending STOP_REQ");
    reveal_strlit("Receiving STOP_REQ_REP");
    reveal_strlit("Sending STOP_GRN");
    reveal_strlit("Receiving LTC");
    lemma_trim_unchanged(kind_text(k));
}

/// Whether the predicate has a text.
pub fn u_has_text_exec(r: &UnaryRelation) -> (b: bool)
    ensures
        b == u_has_text(*r),
    decreases r,
{
    match r {
        UnaryRelation::Atom(_) => true,
        UnaryRelation::IsFirst(b) => b_has_text_exec(b),
        UnaryRelation::IsFirstForFederate(b) => b_has_text_exec(b),
        UnaryRelation::And(l) => match l {
            UnaryRelations::Nil => false,
            UnaryRelations::Cons(h, t) => u_has_text_exec(h) && ul_has_text_exec(t),
        },
        UnaryRelation::Or(l) => match l {
            UnaryRelations::Nil => false,
            UnaryRelations::Cons(h, t) => u_has_text_exec(h) && ul_has_text_exec(t),
        },
        UnaryRelation::Not(x) => u_has_text_exec(x),
        UnaryRelation::BoundMary(_, _) => false,
    }
}

fn ul_has_text_exec(l: &UnaryRelations) -> (b: bool)
    ensures
        b == ul_has_text(*l),
    decreases l,
{
    match l {
        UnaryRelations::Nil => true,
        UnaryRelations::Cons(h, t) => u_has_text_exec(h) && ul_has_text_exec(t),
    }
}

/// Whether the binary relation has a text.
pub fn b_has_text_exec(r: &BinaryRelation) -> (b: bool)
    ensures
        b == b_has_text(*r),
    decreases r,
{
    match r {
        BinaryRelation::Atom(_) => true,
        BinaryRelation::IsFirst(b) => b_has_text_exec(b),
        BinaryRelation::IsFirstForFederate(b) => b_has_text_exec(b),
        BinaryRelation::And(l) => match l {
            BinaryRelations::Nil => false,
            BinaryRelations::Cons(h, t) => b_has_text_exec(h) && bl_has_text_exec(t),
        },
        BinaryRelation::Or(l) => match l {
            BinaryRelations::Nil => false,
            BinaryRelations::Cons(h, t) => b_has_text_exec(h) && bl_has_text_exec(t),
        },
        BinaryRelation::Not(x) => b_has_text_exec(x),
        BinaryRelation::BoundMary(u) => u_has_text_exec(u),
    }
}

fn bl_has_text_exec(l: &BinaryRelations) -> (b: bool)
    ensures
        b == bl_has_text(*l),
    decreases l,
{
    match l {
        BinaryRelations::Nil => true,
        BinaryRelations::Cons(h, t) => b_has_text_exec(h) && bl_has_text_exec(t),
    }
}

impl Rule {
    /// Whether the rule has a text.
    pub fn has_text(&self) -> (b: bool)
        ensures
            b == (b_has_text(self.preceding_event) && u_has_text(self.event)),
    {
        b_has_text_exec(&self.preceding_event) && u_has_text_exec(&self.event)
    }
}

/// The rule has a text.
pub open spec fn rule_has_text(rule: Rule) -> bool {
    b_has_text(rule.preceding_event) && u_has_text(rule.event)
}

/// Every one of the axioms has a text.
pub proof fn lemma_axioms_have_text()
    ensures
        forall|i: int| 0 <= i < axiom_table().len() ==> rule_has_text(#[trigger] axiom_table()[i]),
{
    reveal_with_fuel(b_has_text, 12);
    reveal_with_fuel(bl_has_text, 12);
    reveal_with_fuel(u_has_text, 12);
    reveal_with_fuel(ul_has_text, 12);
    reveal_with_fuel(crate::relation::binary_list_onto, 12);
    reveal_with_fuel(crate::relation::unary_list_onto, 12);
    assert(rule_has_text(rule_0()));
    assert(rule_has_text(rule_1()));
    assert(rule_has_text(rule_2()));
    assert(rule_has_text(rule_3()));
    assert(rule_has_text(rule_4()));
    assert(rule_has_text(rule_5()));
    assert(rule_has_text(rule_6()));
    assert(rule_has_text(rule_7()));
    assert(rule_has_text(rule_8()));
    assert(rule_has_text(rule_9()));
    assert(rule_has_text(rule_10()));
    assert(rule_has_text(rule_11()));
    assert(rule_has_text(rule_12()));
    assert(rule_has_text(rule_13()));
    assert(rule_has_text(rule_14()));
    assert(rule_has_text(rule_15()));
    assert(rule_has_text(rule_16()));
    assert(rule_has_text(rule_17()));
    assert forall|i: int| 0 <= i < axiom_table().len() implies rule_has_text(#[trigger] axiom_table()[i]) by {
        if i == 0 {
            assert(axiom_table()[0] == rule_0());
        } else if i == 1 {
            assert(axiom_table()[1] == rule_1());
        } else if i == 2 {
            assert(axiom_table()[2] == rule_2());
        } else if i == 3 {
            assert(axiom_table()[3] == rule_3());
        } else if i == 4 {
            assert(axiom_table()[4] == rule_4());
        } else if i == 5 {
            assert(axiom_table()[5] == rule_5());
        } else if i == 6 {
            assert(axiom_table()[6] == rule_6());
        } else if i == 7 {
            assert(axiom_table()[7] == rule_7());
        } else if i == 8 {
            assert(axiom_table()[8] == rule_8());
        } else if i == 9 {
            assert(axiom_table()[9] == rule_9());
        } else if i == 10 {
            assert(axiom_table()[10] == rule_10());
        } else if i == 11 {
            assert(axiom_table()[11] == rule_11());
        } else if i == 12 {
            assert(axiom_table()[12] == rule_12());
        } else if i == 13 {
            assert(axiom_table()[13] == rule_13());
        } else if i == 14 {
            assert(axiom_table()[14] == rule_14());
        } else if i == 15 {
            assert(axiom_table()[15] == rule_15());
        } else if i == 16 {
            assert(axiom_table()[16] == rule_16());
        } else {
            assert(axiom_table()[17] == rule_17());
        }
    }
}

// ---------------------------------------------------------------------------------------------
// The pairs found by recording traces
// ---------------------------------------------------------------------------------------------

/// `q` is strictly increasing.
pub open spec fn increasing(q: Seq<int>) -> bool {
    forall|i: int, j: int| 0 <= i < j < q.len() ==> q[i] < q[j]
}

/// The members of a finite set of positions, in ascending order.
pub open spec fn ascending(s: Set<int>) -> Seq<int> {
    choose|q: Seq<int>| increasing(q) && forall|x: int| s.contains(x) <==> q.contains(x)
}

/// Two ascending sequences with the same members are equal.
proof fn lemma_ascending_unique(a: Seq<int>, b: Seq<int>)
    requires
        increasing(a),
        increasing(b),
        forall|x: int| a.contains(x) <==> b.contains(x),
    ensures
        a == b,
    decreases a.len(),
{
    if a.len() == 0 {
        if b.len() > 0 {
            assert(b.contains(b[0]));
        }
        assert(a =~= b);
    } else {
        assert(a.contains(a[0]));
        assert(b.contains(b[0]));
        let i = choose|i: int| 0 <= i < b.len() && b[i] == a[0];
        let j = choose|j: int| 0 <= j < a.len() && a[j] == b[0];
        if i > 0 {
            assert(b[0] < b[i]);
        }
        if j > 0 {
            assert(a[0] < a[j]);
        }
        assert(a[0] == b[0]);
        let a1 = a.drop_first();
        let b1 = b.drop_first();
        assert forall|x: int| a1.contains(x) implies b1.contains(x) by {
            let k = choose|k: int| 0 <= k < a1.len() && a1[k] == x;
            assert(a[k + 1] == x);
            assert(a.contains(x));
            let m = choose|m: int| 0 <= m < b.len() && b[m] == x;
            assert(m != 0);
            assert(b1[m - 1] == x);
        }
        assert forall|x: int| b1.contains(x) implies a1.contains(x) by {
            let k = choose|k: int| 0 <= k < b1.len() && b1[k] == x;
            assert(b[k + 1] == x);
            assert(b.contains(x));
            let m = choose|m: int| 0 <= m < a.len() && a[m] == x;
            assert(m != 0);
            assert(a1[m - 1] == x);
        }
        lemma_ascending_unique(a1, b1);
        assert(a1.len() == b1.len());
        assert(a.len() == b.len());
        assert(a =~= b) by {
            assert forall|k: int| 0 <= k < a.len() implies a[k] == b[k] by {
                if k > 0 {
                    assert(a[k] == a1[k - 1]);
                    assert(b[k] == b1[k - 1]);
                }
            }
        }
    }
}

/// Positions written as `OgRank(n)`, separated by `, `.
pub open spec fn ogrank_items_text(q: Seq<int>) -> Seq<char>
    decreases q.len(),
{
    if q.len() == 0 {
        seq![]
    } else if q.len() == 1 {
        "OgRank("@ + int_text(q[0]) + ")"@
    } else {
        ogrank_items_text(q.drop_last()) + ", OgRank("@ + int_text(q.last()) + ")"@
    }
}

/// The text of a set of positions: its members in ascending order, in braces.
pub open spec fn ogrank_set_text(s: Set<int>) -> Seq<char> {
    "{"@ + ogrank_items_text(ascending(s)) + "}"@
}

/// The text of the pairs found: for each event, a line `before_and_afters[i]: ` with the set of
/// events found on both sides of it.
pub open spec fn orderings_text(sets: Seq<Set<int>>) -> Seq<char>
    decreases sets.len(),
{
    if sets.len() == 0 {
        seq![]
    } else {
        orderings_text(sets.drop_last()) + "before_and_afters["@ + nat_text((sets.len() - 1) as nat) + "]: "@
            + ogrank_set_text(sets.last()) + "\n"@
    }
}

/// The text of a set of positions, `{OgRank(a), OgRank(b)}`, in ascending order.
pub fn fmt_ogrank_set(set: &RankSet) -> (r: String)
    requires
        set.universe() <= u32::MAX + 1,
    ensures
        r@ == ogrank_set_text(set@),
{
    let v = set.to_sorted_vec();
    let ghost q = v@.map_values(|x: u32| x as int);
    proof {
        assert(increasing(q));
        assert forall|x: int| set@.contains(x) <==> q.contains(x) by {
            if set@.contains(x) {
                let a = choose|a: int| 0 <= a < v@.len() && v@[a] == x;
                assert(q[a] == x);
            }
            if q.contains(x) {
                let a = choose|a: int| 0 <= a < q.len() && q[a] == x;
                assert(v@[a] == x);
            }
        }
        let w = ascending(set@);
        assert(increasing(w) && forall|x: int| set@.contains(x) <==> w.contains(x));
        lemma_ascending_unique(q, w);
        reveal_strlit("OgRank(");
        reveal_strlit(", OgRank(");
        reveal_strlit(")");
    }
    let mut out: Vec<char> = Vec::new();
    push_str(&mut out, "{");
    let ghost head = out@;
    let mut i: usize = 0;
    while i < v.len()
        invariant
            i <= v@.len(),
            q == v@.map_values(|x: u32| x as int),
            out@ == head + ogrank_items_text(q.take(i as int)),
        decreases v@.len() - i,
    {
        let ghost before = out@;
        if i == 0 {
            push_str(&mut out, "OgRank(");
        } else {
            push_str(&mut out, ", OgRank(");
        }
        extend_chars(&mut out, &decimal_chars(v[i] as u64));
        push_str(&mut out, ")");
        proof {
            let t = q.take(i + 1);
            assert(t.drop_last() =~= q.take(i as int));
            assert(t.last() == v@[i as int] as int);
            assert(int_text(t.last()) == nat_text(v@[i as int] as nat));
            if i == 0 {
                assert(q.take(0) =~= Seq::<int>::empty());
                assert(t[0] == t.last());
            }
            assert(out@ =~= head + ogrank_items_text(t));
        }
        i += 1;
    }
    push_str(&mut out, "}");
    proof {
        assert(q.take(q.len() as int) =~= q);
    }
    string_from_chars(&out)
}

impl<'a> Orderings<'a> {
    /// The text of the pairs found in this record (not those of its ancestors): a line for each
    /// event.
    pub fn to_string(&self) -> (r: String)
        requires
            self.wf(),
        ensures
            r@ == orderings_text(set_views(self.before_and_afters@)),
    {
        let sets = self.before_and_afters;
        let mut out: Vec<char> = Vec::new();
        let mut i: usize = 0;
        proof {
            assert(set_views(sets@).take(0) =~= Seq::<Set<int>>::empty());
        }
        while i < sets.len()
            invariant
                self.wf(),
                sets == self.before_and_afters,
                i <= sets@.len(),
                out@ == orderings_text(set_views(sets@).take(i as int)),
            decreases sets@.len() - i,
        {
            push_str(&mut out, "before_and_afters[");
            extend_chars(&mut out, &decimal_chars(i as u64));
            push_str(&mut out, "]: ");
            let t = fmt_ogrank_set(&sets[i]);
            extend_chars(&mut out, &chars_of(t.as_str()));
            push_str(&mut out, "\n");
            proof {
                let ss = set_views(sets@).take(i + 1);
                assert(ss.drop_last() =~= set_views(sets@).take(i as int));
                assert(ss.last() == sets@[i as int]@);
                assert(out@ =~= orderings_text(ss));
            }
            i += 1;
        }
        proof {
            assert(set_views(sets@).take(sets@.len() as int) =~= set_views(sets@));
        }
        string_from_chars(&out)
    }
}

} // verus!
