//! Which events of a trace can be reordered: the immediate precedences that the rules establish,
//! and their closure into the sets of preceding events that are not predecessors.
use vstd::prelude::*;
use crate::rankset::RankSet;
use crate::conninfo::{ConnInfo, FedId};
use crate::relation::{b_holds, b_ok, b_ok_exec, u_holds, u_ok, u_ok_exec, BinaryRelation, Event, UnaryRelation};

verus! {

/// For each position of the original trace, the positions that must come before it (its
/// immediate predecessors), and the positions whose events occur in every execution.
pub struct Unpermutables {
    pub ogrank2immediatepredecessors: Vec<RankSet>,
    pub always_occurring: RankSet,
}

/// The views of a sequence of rank sets.
pub open spec fn set_views(s: Seq<RankSet>) -> Seq<Set<int>> {
    s.map_values(|r: RankSet| r@)
}

/// `x` is a preceding permutable of `k`: it precedes `k` in the original trace, and for every
/// always-occurring immediate predecessor `p` of `k`, either `x` comes after `p` or `x` is itself a
/// preceding permutable of `p`. (A preceding event is a predecessor iff it is a predecessor of
/// some always-occurring immediate predecessor, or that predecessor itself.)
pub open spec fn is_permutable(ipreds: Seq<Set<int>>, always: Set<int>, k: int, x: int) -> bool
    decreases k,
{
    &&& 0 <= x < k
    &&& forall|p: int|
        0 <= p < k && #[trigger] ipreds[k].contains(p) && always.contains(p) ==> (x > p
            || is_permutable(ipreds, always, p, x))
}

/// The preceding permutables of `k`.
pub open spec fn permutables_of(ipreds: Seq<Set<int>>, always: Set<int>, k: int) -> Set<int> {
    Set::new(|x: int| is_permutable(ipreds, always, k, x))
}

/// The always-occurring immediate predecessors of every position come before it.
pub open spec fn predecessors_precede(ipreds: Seq<Set<int>>, always: Set<int>) -> bool {
    forall|k: int, p: int|
        0 <= k < ipreds.len() && #[trigger] ipreds[k].contains(p) && always.contains(p) ==> p < k
}

impl Unpermutables {
    pub open spec fn wf(&self) -> bool {
        &&& forall|k: int|
            0 <= k < self.ogrank2immediatepredecessors@.len()
                ==> #[trigger] self.ogrank2immediatepredecessors@[k].wf()
        &&& self.always_occurring.wf()
    }

    /// For each position, the set of the positions before it whose events may come after it in
    /// some execution.
    pub fn preceding_permutables_by_ogrank(&self) -> (ret: Vec<RankSet>)
        requires
            self.wf(),
            self.ogrank2immediatepredecessors@.len() <= u32::MAX,
            predecessors_precede(
                set_views(self.ogrank2immediatepredecessors@),
                self.always_occurring@,
            ),
        ensures
            ret@.len() == self.ogrank2immediatepredecessors@.len(),
            forall|k: int|
                0 <= k < ret@.len() ==> (#[trigger] ret@[k]).wf() && ret@[k].universe() == k
                    && ret@[k]@ == permutables_of(
                    set_views(self.ogrank2immediatepredecessors@),
                    self.always_occurring@,
                    k,
                ),
    {
        let ghost ipreds = set_views(self.ogrank2immediatepredecessors@);
        let ghost always = self.always_occurring@;
        let n = self.ogrank2immediatepredecessors.len();
        let mut ret: Vec<RankSet> = Vec::new();
        let mut ogrank: usize = 0;
        while ogrank < n
            invariant
                n == self.ogrank2immediatepredecessors@.len(),
                n <= u32::MAX,
                ipreds == set_views(self.ogrank2immediatepredecessors@),
                always == self.always_occurring@,
                self.wf(),
                predecessors_precede(ipreds, always),
                ogrank <= n,
                ret@.len() == ogrank,
                forall|k: int|
                    0 <= k < ogrank ==> (#[trigger] ret@[k]).wf() && ret@[k].universe() == k
                        && ret@[k]@ == permutables_of(ipreds, always, k),
            decreases n - ogrank,
        {
            let ip = &self.ogrank2immediatepredecessors[ogrank];
            assert(ipreds[ogrank as int] == ip@);
            // The always-occurring immediate predecessor with the fewest candidates.
            let mut best: Option<usize> = None;
            let mut best_size: usize = 0;
            let mut p: usize = 0;
            while p < ogrank
                invariant
                    p <= ogrank,
                    ret@.len() == ogrank,
                    ogrank <= u32::MAX,
                    forall|k: int|
                        0 <= k < ogrank ==> (#[trigger] ret@[k]).wf() && ret@[k].universe() == k,
                    match best {
                        Some(b) => b < p && ip@.contains(b as int) && always.contains(b as int),
                        None => forall|q: int|
                            0 <= q < p ==> !(ip@.contains(q) && always.contains(q)),
                    },
                    always == self.always_occurring@,
                decreases ogrank - p,
            {
                if ip.contains(p as u32) && self.always_occurring.contains(p as u32) {
                    proof {
                        ret@[p as int].lemma_bounded();
                        ret@[p as int].lemma_len_bound();
                    }
                    let size = ret[p].len() + (ogrank - p);
                    match best {
                        None => {
                            best = Some(p);
                            best_size = size;
                        },
                        Some(_) => {
                            if size < best_size {
                                best = Some(p);
                                best_size = size;
                            }
                        },
                    }
                }
                p += 1;
            }
            match best {
                None => {
                    let full = RankSet::full(ogrank);
                    proof {
                        assert(full@ =~= permutables_of(ipreds, always, ogrank as int)) by {
                            assert forall|x: int| full@.contains(x) implies is_permutable(
                                ipreds,
                                always,
                                ogrank as int,
                                x,
                            ) by {
                                assert forall|q: int|
                                    0 <= q < ogrank && #[trigger] ipreds[ogrank as int].contains(
                                        q,
                                    ) && always.contains(q) implies (x > q || is_permutable(
                                    ipreds,
                                    always,
                                    q,
                                    x,
                                )) by {
                                    assert(!(ip@.contains(q) && always.contains(q)));
                                }
                            }
                        }
                    }
                    ret.push(full);
                },
                Some(p0) => {
                    let mut running = ret[p0].copy_with_universe(ogrank);
                    let mut x: usize = p0 + 1;
                    while x < ogrank
                        invariant
                            p0 < x <= ogrank,
                            ogrank <= u32::MAX,
                            running.wf(),
                            running.universe() == ogrank,
                            forall|y: int|
                                0 <= y < ogrank ==> (running@.contains(y) == (ret@[p0 as int]@.contains(
                                    y,
                                ) || (p0 < y < x))),
                        decreases ogrank - x,
                    {
                        running.insert(x as u32);
                        x += 1;
                    }
                    proof {
                        running.lemma_bounded();
                    }
                    let mut q: usize = 0;
                    while q < ogrank
                        invariant
                            q <= ogrank,
                            ogrank <= u32::MAX,
                            ret@.len() == ogrank,
                            p0 < ogrank,
                            forall|k: int|
                                0 <= k < ogrank ==> (#[trigger] ret@[k]).wf() && ret@[k].universe()
                                    == k,
                            running.wf(),
                            running.universe() == ogrank,
                            forall|y: int|
                                0 <= y < ogrank ==> (running@.contains(y) == ((ret@[p0 as int]@.contains(
                                    y,
                                ) || y > p0) && forall|r: int|
                                    0 <= r < q && ip@.contains(r) && always.contains(r) ==> (
                                    ret@[r]@.contains(y) || y > r))),
                            forall|y: int| #[trigger] running@.contains(y) ==> 0 <= y < ogrank,
                            always == self.always_occurring@,
                        decreases ogrank - q,
                    {
                        let ghost at_q = running@;
                        if q != p0 && ip.contains(q as u32) && self.always_occurring.contains(
                            q as u32,
                        ) {
                            let ghost before = running@;
                            let mut y: usize = 0;
                            while y < ogrank
                                invariant
                                    y <= ogrank,
                                    q < ogrank,
                                    ogrank <= u32::MAX,
                                    ret@.len() == ogrank,
                                    running.wf(),
                                    running.universe() == ogrank,
                                    forall|z: int|
                                        0 <= z < ogrank ==> running@.contains(z) == (before.contains(
                                            z,
                                        ) && (z >= y || ret@[q as int]@.contains(z) || z > q)),
                                    forall|z: int| #[trigger] running@.contains(z) ==> 0 <= z < ogrank,
                                decreases ogrank - y,
                            {
                                if running.contains(y as u32) && !(ret[q].contains(y as u32)
                                    || y > q) {
                                    running.remove(y as u32);
                                }
                                y += 1;
                            }
                        }
                        proof {
                            let in_p = ip@.contains(q as int) && always.contains(q as int);
                            assert forall|y: int| 0 <= y < ogrank implies (running@.contains(y) == ((
                            ret@[p0 as int]@.contains(y) || y > p0) && forall|r: int|
                                0 <= r < q + 1 && ip@.contains(r) && always.contains(r) ==> (
                                ret@[r]@.contains(y) || y > r))) by {
                                let a = ret@[p0 as int]@.contains(y) || y > p0;
                                let old_all = forall|r: int|
                                    0 <= r < q && ip@.contains(r) && always.contains(r) ==> (
                                    ret@[r]@.contains(y) || y > r);
                                let new_all = forall|r: int|
                                    0 <= r < q + 1 && ip@.contains(r) && always.contains(r) ==> (
                                    ret@[r]@.contains(y) || y > r);
                                assert(at_q.contains(y) == (a && old_all));
                                if q != p0 && in_p {
                                    assert(running@.contains(y) == (at_q.contains(y) && (
                                    ret@[q as int]@.contains(y) || y > q)));
                                    if a && old_all && (ret@[q as int]@.contains(y) || y > q) {
                                        assert(new_all);
                                    }
                                    if a && new_all {
                                        assert(old_all);
                                    }
                                } else {
                                    assert(running@ == at_q);
                                    if a && old_all {
                                        assert(new_all);
                                    }
                                    if a && new_all {
                                        assert(old_all);
                                    }
                                }
                            }
                        }
                        q += 1;
                    }
                    proof {
                        assert(running@ =~= permutables_of(ipreds, always, ogrank as int)) by {
                            assert forall|y: int| running@.contains(y) == is_permutable(
                                ipreds,
                                always,
                                ogrank as int,
                                y,
                            ) by {
                                if 0 <= y < ogrank {
                                    assert(ret@[p0 as int]@ == permutables_of(
                                        ipreds,
                                        always,
                                        p0 as int,
                                    ));
                                    if running@.contains(y) {
                                        assert forall|r: int|
                                            0 <= r < ogrank && #[trigger] ipreds[ogrank as int].contains(
                                                r,
                                            ) && always.contains(r) implies (y > r || is_permutable(
                                            ipreds,
                                            always,
                                            r,
                                            y,
                                        )) by {
                                            assert(ret@[r]@ == permutables_of(ipreds, always, r));
                                        }
                                    }
                                    if is_permutable(ipreds, always, ogrank as int, y) {
                                        assert(ipreds[ogrank as int].contains(p0 as int));
                                        assert forall|r: int|
                                            0 <= r < ogrank && ip@.contains(r) && always.contains(
                                                r,
                                            ) implies (ret@[r]@.contains(y) || y > r) by {
                                            assert(ipreds[ogrank as int].contains(r));
                                            assert(ret@[r]@ == permutables_of(ipreds, always, r));
                                        }
                                    }
                                }
                            }
                        }
                    }
                    ret.push(running);
                },
            }
            ogrank += 1;
        }
        ret
    }
}

// ---------------------------------------------------------------------------------------------
// Rules
// ---------------------------------------------------------------------------------------------

/// If two events match a rule, then the rule says that there is a precedence relation between them
/// (with the preceding event occurring first in all non-error traces).
#[derive(Debug, PartialEq, Eq, Hash, PartialOrd, Ord)]
pub struct Rule {
    pub event: UnaryRelation,
    pub preceding_event: BinaryRelation,
}

impl Rule {
    /// A copy of the rule.
    pub fn duplicate(&self) -> (r: Rule)
        ensures
            r == *self,
    {
        Rule { event: self.event.duplicate(), preceding_event: self.preceding_event.duplicate() }
    }
}

/// An observed trace that contradicts a rule: the event at `ogrank` matches the rule's event, and
/// the later event at `counterexample` matches the rule's preceding event.
#[derive(Debug, Clone, Copy, PartialEq, Eq, Structural)]
pub struct RuleViolation {
    pub rule: usize,
    pub ogrank: usize,
    pub counterexample: usize,
}

/// The event at `j` is related to the event at `k` as the rule's preceding event.
pub open spec fn precedes_by(rule: Rule, trace: Seq<Event>, j: int, k: int, ci: ConnInfo) -> bool {
    b_holds(rule.preceding_event, trace[j], trace[k], ci)
}

/// The event at `k` matches the rule, and some later event matches its preceding event.
pub open spec fn violated_at(rule: Rule, trace: Seq<Event>, k: int, ci: ConnInfo) -> bool {
    &&& u_holds(rule.event, trace[k], ci)
    &&& exists|j: int| k < j < trace.len() && precedes_by(rule, trace, j, k, ci)
}

/// The first later event that matches the rule's preceding event.
pub open spec fn first_counterexample(
    rule: Rule,
    trace: Seq<Event>,
    k: int,
    j: int,
    ci: ConnInfo,
) -> bool {
    &&& k < j < trace.len()
    &&& precedes_by(rule, trace, j, k, ci)
    &&& forall|m: int| k < m < j ==> !precedes_by(rule, trace, m, k, ci)
}

/// The positions before `k` whose events the rule says precede the event at `k`.
pub open spec fn rule_preds(rule: Rule, trace: Seq<Event>, k: int, ci: ConnInfo) -> Set<int> {
    if u_holds(rule.event, trace[k], ci) {
        Set::new(|j: int| 0 <= j < k && precedes_by(rule, trace, j, k, ci))
    } else {
        Set::empty()
    }
}

/// Applying the rule at position `k` does not panic: the rule's event can be evaluated on the event
/// at `k` and, if it matches, the preceding event can be evaluated on every earlier event and on
/// every later one up to the first match.
pub open spec fn rule_ok_at(rule: Rule, trace: Seq<Event>, k: int, ci: ConnInfo) -> bool {
    &&& u_ok(rule.event, trace[k], ci)
    &&& u_holds(rule.event, trace[k], ci) ==> {
        &&& forall|j: int|
            0 <= j < k ==> #[trigger] b_ok(rule.preceding_event, trace[j], trace[k], ci)
        &&& forall|j: int|
            k < j < trace.len() && (forall|m: int| k < m < j ==> !precedes_by(rule, trace, m, k, ci))
                ==> #[trigger] b_ok(rule.preceding_event, trace[j], trace[k], ci)
    }
}

/// The result of applying a rule to the event at `k`.
pub open spec fn apply_rule_result(
    rule: Rule,
    trace: Seq<Event>,
    k: int,
    ci: ConnInfo,
    r: Result<RankSet, usize>,
) -> bool {
    match r {
        Ok(set) => !violated_at(rule, trace, k, ci) && set@ == rule_preds(rule, trace, k, ci),
        Err(j) => violated_at(rule, trace, k, ci) && first_counterexample(rule, trace, k, j as int, ci),
    }
}

/// The preceding events that the rule relates to the event at `k`; the position of the first
/// later event that it relates to the event at `k`, if there is one.
fn apply_rule(rule: &Rule, trace: &Vec<Event>, k: usize, universe: usize, conninfo: &ConnInfo) -> (r:
    Result<RankSet, usize>)
    requires
        conninfo.wf(),
        k < trace@.len() <= universe <= u32::MAX,
        rule_ok_at(*rule, trace@, k as int, *conninfo),
    ensures
        apply_rule_result(*rule, trace@, k as int, *conninfo, r),
        r matches Ok(set) ==> set.wf() && set.universe() == universe,
{
    let e = &trace[k];
    if !rule.event.holds(&[e.duplicate()], conninfo) {
        let empty = RankSet::new(universe);
        proof {
            assert(empty@ =~= rule_preds(*rule, trace@, k as int, *conninfo));
        }
        return Ok(empty);
    }
    let mut j: usize = k + 1;
    while j < trace.len()
        invariant
            k < j <= trace@.len(),
            conninfo.wf(),
            rule_ok_at(*rule, trace@, k as int, *conninfo),
            u_holds(rule.event, trace@[k as int], *conninfo),
            *e == trace@[k as int],
            forall|m: int| k < m < j ==> !precedes_by(*rule, trace@, m, k as int, *conninfo),
        decreases trace@.len() - j,
    {
        assert(b_ok(rule.preceding_event, trace@[j as int], trace@[k as int], *conninfo));
        if rule.preceding_event.holds(&[trace[j].duplicate(), e.duplicate()], conninfo) {
            assert(precedes_by(*rule, trace@, j as int, k as int, *conninfo));
            return Err(j);
        }
        j += 1;
    }
    let mut set = RankSet::new(universe);
    let mut i: usize = 0;
    while i < k
        invariant
            i <= k < trace@.len() <= universe <= u32::MAX,
            conninfo.wf(),
            rule_ok_at(*rule, trace@, k as int, *conninfo),
            u_holds(rule.event, trace@[k as int], *conninfo),
            *e == trace@[k as int],
            set.wf(),
            set.universe() == universe,
            set@ == Set::new(|m: int| 0 <= m < i && precedes_by(*rule, trace@, m, k as int, *conninfo)),
        decreases k - i,
    {
        assert(b_ok(rule.preceding_event, trace@[i as int], trace@[k as int], *conninfo));
        if rule.preceding_event.holds(&[trace[i].duplicate(), e.duplicate()], conninfo) {
            set.insert(i as u32);
        }
        proof {
            assert(set@ =~= Set::new(
                |m: int| 0 <= m < i + 1 && precedes_by(*rule, trace@, m, k as int, *conninfo),
            ));
        }
        i += 1;
    }
    proof {
        assert(set@ =~= rule_preds(*rule, trace@, k as int, *conninfo));
    }
    Ok(set)
}

/// The event at `k` satisfies the rule: it does not match, or no later event matches its preceding
/// event.
fn check_rule(trace: &Vec<Event>, k: usize, rule: &Rule, conninfo: &ConnInfo) -> (r: Result<(), usize>)
    requires
        conninfo.wf(),
        k < trace@.len() <= u32::MAX,
        rule_ok_at(*rule, trace@, k as int, *conninfo),
    ensures
        r is Ok <==> !violated_at(*rule, trace@, k as int, *conninfo),
        r matches Err(j) ==> first_counterexample(*rule, trace@, k as int, j as int, *conninfo),
{
    match apply_rule(rule, trace, k, trace.len(), conninfo) {
        Ok(_) => Ok(()),
        Err(j) => Err(j),
    }
}

/// Applying the rule does not panic at any position of the trace.
pub open spec fn rule_ok(rule: Rule, trace: Seq<Event>, ci: ConnInfo) -> bool {
    forall|k: int| 0 <= k < trace.len() ==> #[trigger] rule_ok_at(rule, trace, k, ci)
}

impl Rule {
    /// The trace satisfies the rule; where it does not, the first position whose event matches
    /// the rule while a later event matches its preceding event, and that later event.
    pub fn check(&self, trace: &Vec<Event>, conninfo: &ConnInfo) -> (r: Result<(), RuleViolation>)
        requires
            conninfo.wf(),
            trace@.len() <= u32::MAX,
            rule_ok(*self, trace@, *conninfo),
        ensures
            r is Ok <==> forall|k: int| 0 <= k < trace@.len() ==> !violated_at(*self, trace@, k, *conninfo),
            r matches Err(v) ==> {
                &&& v.rule == 0
                &&& v.ogrank < trace@.len()
                &&& violated_at(*self, trace@, v.ogrank as int, *conninfo)
                &&& forall|k: int| 0 <= k < v.ogrank ==> !violated_at(*self, trace@, k, *conninfo)
                &&& first_counterexample(*self, trace@, v.ogrank as int, v.counterexample as int, *conninfo)
            },
    {
        let mut k: usize = 0;
        while k < trace.len()
            invariant
                k <= trace@.len() <= u32::MAX,
                conninfo.wf(),
                rule_ok(*self, trace@, *conninfo),
                forall|m: int| 0 <= m < k ==> !violated_at(*self, trace@, m, *conninfo),
            decreases trace@.len() - k,
        {
            assert(rule_ok_at(*self, trace@, k as int, *conninfo));
            match check_rule(trace, k, self, conninfo) {
                Ok(()) => {},
                Err(j) => {
                    return Err(RuleViolation { rule: 0, ogrank: k, counterexample: j });
                },
            }
            k += 1;
        }
        Ok(())
    }
}

// ---------------------------------------------------------------------------------------------
// Virtual first events
// ---------------------------------------------------------------------------------------------

/// The predicate of a virtual first event, and the federate that it is the first for, if any.
pub open spec fn first_of(e: Event) -> Option<(UnaryRelation, Option<FedId>)> {
    match e {
        Event::Concrete(_) => None,
        Event::First(set) => Some((set, None)),
        Event::FirstInEquivClass { proj, set } => Some((set, Some(proj))),
    }
}

/// The recorded event at `j`, after the virtual first event at `k`, is one that the first event
/// stands for: it satisfies its predicate, and belongs to its federate if it has one.
pub open spec fn first_matches(trace: Seq<Event>, k: int, j: int, ci: ConnInfo) -> bool {
    match first_of(trace[k]) {
        Some((set, fed)) => {
            &&& k < j < trace.len()
            &&& u_holds(set, trace[j], ci)
            &&& trace[j] matches Event::Concrete(c) && (fed matches Some(f) ==> c.fedid == f)
        },
        None => false,
    }
}

/// The events that the first event at `k` stands for.
pub open spec fn matches_of(trace: Seq<Event>, k: int, ci: ConnInfo) -> Set<int> {
    Set::new(|j: int| first_matches(trace, k, j, ci))
}

/// The only event that the first event at `k` stands for, if there is exactly one.
pub open spec fn single_match(trace: Seq<Event>, k: int, ci: ConnInfo) -> Option<int> {
    if exists|f: int|
        first_matches(trace, k, f, ci) && forall|j: int| #[trigger] first_matches(trace, k, j, ci) ==> j == f {
        Some(
            choose|f: int|
                first_matches(trace, k, f, ci) && forall|j: int|
                    #[trigger] first_matches(trace, k, j, ci) ==> j == f,
        )
    } else {
        None
    }
}

/// The ranks that are immediate predecessors of every event that the first event at `k` stands
/// for.
pub open spec fn common_preds(p: Seq<Set<int>>, trace: Seq<Event>, k: int, ci: ConnInfo) -> Set<int> {
    Set::new(
        |x: int|
            forall|j: int| #[trigger] first_matches(trace, k, j, ci) ==> p[j].contains(x),
    )
}

/// The precedences after the first event at `k` has been placed before every event it stands for,
/// and every rank that precedes all of them has been placed before the first event.
pub open spec fn firsts_inserted(p: Seq<Set<int>>, trace: Seq<Event>, k: int, ci: ConnInfo) -> Seq<Set<int>> {
    let m = matches_of(trace, k, ci);
    Seq::new(
        p.len(),
        |j: int|
            if m.contains(j) {
                p[j].insert(k)
            } else if j == k && !m.is_empty() {
                p[k].union(common_preds(p, trace, k, ci))
            } else {
                p[j]
            },
    )
}

/// The precedences that the first event at `k` adds: it precedes every event it stands for; what
/// precedes all of them precedes it; and, where it stands for a single event, that event precedes
/// whatever the first event precedes after it.
pub open spec fn firsts_step(p: Seq<Set<int>>, trace: Seq<Event>, k: int, ci: ConnInfo) -> Seq<Set<int>> {
    let inserted = firsts_inserted(p, trace, k, ci);
    match single_match(trace, k, ci) {
        Some(f) => Seq::new(
            p.len(),
            |j: int|
                if j > f && inserted[j].contains(k) {
                    inserted[j].insert(f)
                } else {
                    inserted[j]
                },
        ),
        None => inserted,
    }
}

/// Where the first event at `k` stands for finitely many events, one of which is `f`: it stands
/// for exactly one event iff `single_match` names one, and then that event is `f`.
proof fn lemma_single_match(trace: Seq<Event>, k: int, ci: ConnInfo, f: int)
    requires
        matches_of(trace, k, ci).finite(),
        first_matches(trace, k, f, ci),
    ensures
        (matches_of(trace, k, ci).len() == 1) == (single_match(trace, k, ci) is Some),
        single_match(trace, k, ci) is Some ==> single_match(trace, k, ci) == Some(f),
{
    let m = matches_of(trace, k, ci);
    Set::lemma_is_singleton(m);
    assert(m.contains(f));
    if m.len() == 1 {
        assert(forall|j: int| #[trigger] first_matches(trace, k, j, ci) ==> j == f) by {
            assert forall|j: int| #[trigger] first_matches(trace, k, j, ci) implies j == f by {
                assert(m.contains(j));
            }
        }
    }
    if single_match(trace, k, ci) is Some {
        let g = choose|g: int|
            first_matches(trace, k, g, ci) && forall|j: int|
                #[trigger] first_matches(trace, k, j, ci) ==> j == g;
        assert(f == g);
        assert forall|x: int, y: int| m.contains(x) && m.contains(y) implies x == y by {
            assert(first_matches(trace, k, x, ci));
            assert(first_matches(trace, k, y, ci));
        }
    }
}

/// The precedences after the first events at positions below `m` have added theirs.
pub open spec fn firsts_upto(p: Seq<Set<int>>, trace: Seq<Event>, m: int, ci: ConnInfo) -> Seq<Set<int>>
    decreases m,
{
    if m <= 0 {
        p
    } else {
        firsts_step(firsts_upto(p, trace, m - 1, ci), trace, m - 1, ci)
    }
}

/// Evaluating the predicates of the first events does not panic.
pub open spec fn firsts_ok(trace: Seq<Event>, ci: ConnInfo) -> bool {
    forall|k: int, j: int|
        0 <= k < j < trace.len() && #[trigger] first_of(trace[k]) is Some ==> u_ok(
            (first_of(trace[k])->0).0,
            #[trigger] trace[j],
            ci,
        )
}

/// Every set is well formed and over the universe `n`.
pub open spec fn sets_over(v: Seq<RankSet>, n: nat) -> bool {
    forall|k: int| 0 <= k < v.len() ==> (#[trigger] v[k]).wf() && v[k].universe() == n
}

proof fn lemma_set_views_update(v: Seq<RankSet>, i: int, s: RankSet)
    requires
        0 <= i < v.len(),
    ensures
        set_views(v.update(i, s)) == set_views(v).update(i, s@),
{
    assert(set_views(v.update(i, s)) =~= set_views(v).update(i, s@));
}

/// Whether the event at `j` is one that the first event with predicate `set` (for federate `fed`,
/// if any) stands for.
fn matches_first(set: &UnaryRelation, fed: Option<FedId>, e: &Event, conninfo: &ConnInfo) -> (r: bool)
    requires
        conninfo.wf(),
        u_ok(*set, *e, *conninfo),
    ensures
        r == (u_holds(*set, *e, *conninfo) && (*e matches Event::Concrete(c) && (fed matches Some(f)
            ==> c.fedid == f))),
{
    if !set.holds(&[e.duplicate()], conninfo) {
        return false;
    }
    match e {
        Event::Concrete(c) => match fed {
            Some(f) => c.fedid == f,
            None => true,
        },
        _ => false,
    }
}

/// The precedences after the first event at `k` has been placed before every event it stands for.
pub open spec fn firsts_marked(p: Seq<Set<int>>, trace: Seq<Event>, k: int, ci: ConnInfo) -> Seq<Set<int>> {
    Seq::new(
        p.len(),
        |j: int|
            if matches_of(trace, k, ci).contains(j) {
                p[j].insert(k)
            } else {
                p[j]
            },
    )
}

/// The precedences after the single event `f` that the first event at `k` stands for has been
/// placed before whatever, after it, the first event precedes.
pub open spec fn firsts_forwarded(p: Seq<Set<int>>, k: int, f: int) -> Seq<Set<int>> {
    Seq::new(
        p.len(),
        |j: int|
            if j > f && p[j].contains(k) {
                p[j].insert(f)
            } else {
                p[j]
            },
    )
}

/// Places the first event at `ogrank` (with predicate `set`, for federate `fedid` if any) before
/// every event that it stands for. Returns the ranks that preceded all of those events (none if
/// there were none), how many there were, and the earliest of them.
fn mark_matches(
    preds: &mut Vec<RankSet>,
    trace: &Vec<Event>,
    conninfo: &ConnInfo,
    ogrank: usize,
    set: &UnaryRelation,
    fedid: Option<FedId>,
) -> (r: (Option<RankSet>, usize, usize))
    requires
        conninfo.wf(),
        firsts_ok(trace@, *conninfo),
        old(preds)@.len() == trace@.len() <= u32::MAX,
        sets_over(old(preds)@, trace@.len()),
        ogrank < trace@.len(),
        first_of(trace@[ogrank as int]) == Some((*set, fedid)),
    ensures
        final(preds)@.len() == trace@.len(),
        sets_over(final(preds)@, trace@.len()),
        set_views(final(preds)@) == firsts_marked(set_views(old(preds)@), trace@, ogrank as int, *conninfo),
        matches_of(trace@, ogrank as int, *conninfo).finite(),
        r.1 == matches_of(trace@, ogrank as int, *conninfo).len(),
        r.1 > 0 ==> first_matches(trace@, ogrank as int, r.2 as int, *conninfo),
        (r.1 == 0) == (r.0 is None),
        r.0 matches Some(rs) ==> rs.wf() && rs.universe() == trace@.len() && rs@ == common_preds(
            set_views(old(preds)@),
            trace@,
            ogrank as int,
            *conninfo,
        ),
{
    let n = trace.len();
    let ghost before = set_views(preds@);
    let mut running: Option<RankSet> = None;
    let mut n_matches: usize = 0;
    let mut first_match: usize = 0;
    let mut j: usize = ogrank + 1;
    proof {
        assert forall|m: int, x: int| 0 <= m < n && #[trigger] before[m].contains(x) implies 0 <= x < n by {
            preds@[m].lemma_bounded();
        }
        assert(Set::new(|m: int| m < j && first_matches(trace@, ogrank as int, m, *conninfo)) =~= Set::<int>::empty());
    }
    while j < n
        invariant
            n == trace@.len() <= u32::MAX,
            conninfo.wf(),
            firsts_ok(trace@, *conninfo),
            ogrank < j <= n,
            first_of(trace@[ogrank as int]) == Some((*set, fedid)),
            preds@.len() == n,
            sets_over(preds@, n as nat),
            before.len() == n,
            forall|m: int, x: int| 0 <= m < n && #[trigger] before[m].contains(x) ==> 0 <= x < n,
            n_matches <= j,
            n_matches == Set::new(|m: int| m < j && first_matches(trace@, ogrank as int, m, *conninfo)).len(),
            Set::new(|m: int| m < j && first_matches(trace@, ogrank as int, m, *conninfo)).finite(),
            n_matches > 0 ==> first_matches(trace@, ogrank as int, first_match as int, *conninfo),
            (n_matches == 0) == (running is None),
            forall|m: int| 0 <= m < n ==> set_views(preds@)[m] == if m < j && first_matches(trace@, ogrank as int, m, *conninfo) {
                before[m].insert(ogrank as int)
            } else {
                before[m]
            },
            running matches Some(rs) ==> rs.wf() && rs.universe() == n && rs@ == Set::new(
                |x: int| forall|m: int| m < j && #[trigger] first_matches(trace@, ogrank as int, m, *conninfo) ==> before[m].contains(x),
            ),
        decreases n - j,
    {
        proof {
            assert(u_ok(*set, trace@[j as int], *conninfo));
        }
        let ghost old_set = Set::new(|m: int| m < j && first_matches(trace@, ogrank as int, m, *conninfo));
        let ghost new_set = Set::new(|m: int| m < j + 1 && first_matches(trace@, ogrank as int, m, *conninfo));
        if matches_first(set, fedid, &trace[j], conninfo) {
            assert(first_matches(trace@, ogrank as int, j as int, *conninfo));
            proof {
                assert(new_set =~= old_set.insert(j as int));
                assert(!old_set.contains(j as int));
            }
            n_matches = n_matches + 1;
            if n_matches == 1 {
                first_match = j;
            }
            let cur = &preds[j];
            assert(cur@ == before[j as int]);
            match running {
                None => {
                    let rs = cur.copy_with_universe(n);
                    proof {
                        assert(old_set.len() == 0);
                        old_set.lemma_len0_is_empty();
                        assert(rs@ =~= Set::new(
                            |x: int| forall|m: int| m < j + 1 && #[trigger] first_matches(trace@, ogrank as int, m, *conninfo) ==> before[m].contains(x),
                        )) by {
                            assert forall|x: int| rs@.contains(x) implies forall|m: int| m < j + 1 && #[trigger] first_matches(trace@, ogrank as int, m, *conninfo) ==> before[m].contains(x) by {
                                assert forall|m: int| m < j + 1 && #[trigger] first_matches(trace@, ogrank as int, m, *conninfo) implies before[m].contains(x) by {
                                    if m < j {
                                        assert(old_set.contains(m));
                                    }
                                }
                            }
                        }
                    }
                    running = Some(rs);
                },
                Some(mut rs) => {
                    let mut x: usize = 0;
                    while x < n
                        invariant
                            x <= n <= u32::MAX,
                            rs.wf(),
                            rs.universe() == n,
                            j < n,
                            before.len() == n,
                            cur@ == before[j as int],
                            forall|y: int| #![trigger rs@.contains(y)] 0 <= y < n ==> rs@.contains(y) == ((forall|m: int| m < j && #[trigger] first_matches(trace@, ogrank as int, m, *conninfo) ==> before[m].contains(y)) && (y < x ==> before[j as int].contains(y))),
                        decreases n - x,
                    {
                        if rs.contains(x as u32) && !cur.contains(x as u32) {
                            rs.remove(x as u32);
                        }
                        x += 1;
                    }
                    proof {
                        rs.lemma_bounded();
                        assert(rs@ =~= Set::new(
                            |y: int| forall|m: int| m < j + 1 && #[trigger] first_matches(trace@, ogrank as int, m, *conninfo) ==> before[m].contains(y),
                        )) by {
                            assert forall|y: int| rs@.contains(y) == (forall|m: int| m < j + 1 && #[trigger] first_matches(trace@, ogrank as int, m, *conninfo) ==> before[m].contains(y)) by {
                                if 0 <= y < n {
                                    if forall|m: int| m < j + 1 && #[trigger] first_matches(trace@, ogrank as int, m, *conninfo) ==> before[m].contains(y) {
                                        assert(before[j as int].contains(y));
                                    }
                                } else {
                                    assert(!rs@.contains(y));
                                    assert(first_matches(trace@, ogrank as int, j as int, *conninfo));
                                    assert(!before[j as int].contains(y));
                                }
                            }
                        }
                    }
                    running = Some(rs);
                },
            }
            let ghost pre = preds@;
            let mut s = preds[j].copy_with_universe(n);
            s.insert(ogrank as u32);
            preds.set(j, s);
            proof {
                lemma_set_views_update(pre, j as int, s);
            }
        } else {
            proof {
                assert(new_set =~= old_set);
            }
        }
        j += 1;
    }
    proof {
        let mset = matches_of(trace@, ogrank as int, *conninfo);
        assert(Set::new(|m: int| m < n && first_matches(trace@, ogrank as int, m, *conninfo)) =~= mset);
        assert(set_views(preds@) =~= firsts_marked(before, trace@, ogrank as int, *conninfo));
        if running is Some {
            assert(running->0@ =~= common_preds(before, trace@, ogrank as int, *conninfo));
        }
    }
    (running, n_matches, first_match)
}

/// Adds the ranks of `extra` to the precedences of `k`.
fn add_all(preds: &mut Vec<RankSet>, k: usize, extra: &RankSet)
    requires
        k < old(preds)@.len() <= u32::MAX,
        sets_over(old(preds)@, old(preds)@.len()),
        extra.wf(),
        extra.universe() == old(preds)@.len(),
    ensures
        final(preds)@.len() == old(preds)@.len(),
        sets_over(final(preds)@, old(preds)@.len()),
        set_views(final(preds)@) == set_views(old(preds)@).update(
            k as int,
            old(preds)@[k as int]@.union(extra@),
        ),
{
    let n = preds.len();
    let ghost pre = preds@;
    let mut s = preds[k].copy_with_universe(n);
    let mut x: usize = 0;
    while x < n
        invariant
            x <= n <= u32::MAX,
            s.wf(),
            s.universe() == n,
            forall|y: int| 0 <= y < n ==> #[trigger] s@.contains(y) == (pre[k as int]@.contains(y) || (y < x && extra@.contains(y))),
        decreases n - x,
    {
        if extra.contains(x as u32) {
            s.insert(x as u32);
        }
        x += 1;
    }
    proof {
        s.lemma_bounded();
        extra.lemma_bounded();
        pre[k as int].lemma_bounded();
        assert(s@ =~= pre[k as int]@.union(extra@));
    }
    preds.set(k, s);
    proof {
        lemma_set_views_update(pre, k as int, s);
    }
}

/// Places `f` before every rank after it that `k` precedes.
fn forward_precedences(preds: &mut Vec<RankSet>, k: usize, f: usize)
    requires
        k < f < old(preds)@.len() <= u32::MAX,
        sets_over(old(preds)@, old(preds)@.len()),
    ensures
        final(preds)@.len() == old(preds)@.len(),
        sets_over(final(preds)@, old(preds)@.len()),
        set_views(final(preds)@) == firsts_forwarded(set_views(old(preds)@), k as int, f as int),
{
    let n = preds.len();
    let ghost p0 = set_views(preds@);
    let mut j: usize = f + 1;
    while j < n
        invariant
            k < f < n <= u32::MAX,
            f + 1 <= j <= n,
            p0.len() == n,
            preds@.len() == n,
            sets_over(preds@, n as nat),
            forall|m: int| 0 <= m < n ==> set_views(preds@)[m] == if f < m < j && p0[m].contains(k as int) {
                p0[m].insert(f as int)
            } else {
                p0[m]
            },
        decreases n - j,
    {
        assert(set_views(preds@)[j as int] == p0[j as int]);
        if preds[j].contains(k as u32) {
            let ghost pre = preds@;
            let mut s = preds[j].copy_with_universe(n);
            s.insert(f as u32);
            preds.set(j, s);
            proof {
                lemma_set_views_update(pre, j as int, s);
            }
        }
        j += 1;
    }
    proof {
        assert(set_views(preds@) =~= firsts_forwarded(p0, k as int, f as int));
    }
}

/// Adds the precedences of the first event at `ogrank`, if there is one there.
fn add_first_step(preds: &mut Vec<RankSet>, trace: &Vec<Event>, conninfo: &ConnInfo, ogrank: usize)
    requires
        conninfo.wf(),
        old(preds)@.len() == trace@.len() <= u32::MAX,
        sets_over(old(preds)@, trace@.len()),
        firsts_ok(trace@, *conninfo),
        ogrank < trace@.len(),
    ensures
        final(preds)@.len() == trace@.len(),
        sets_over(final(preds)@, trace@.len()),
        set_views(final(preds)@) == firsts_step(set_views(old(preds)@), trace@, ogrank as int, *conninfo),
{
    let ghost before = set_views(preds@);
    let tr = &trace[ogrank];
    let (set, fedid): (&UnaryRelation, Option<FedId>) = match tr {
        Event::Concrete(_) => {
            proof {
                assert(matches_of(trace@, ogrank as int, *conninfo) =~= Set::<int>::empty());
                assert(single_match(trace@, ogrank as int, *conninfo) is None);
                assert(firsts_inserted(before, trace@, ogrank as int, *conninfo) =~= before);
                assert(firsts_step(before, trace@, ogrank as int, *conninfo) =~= before);
            }
            return;
        },
        Event::First(set) => (set, None),
        Event::FirstInEquivClass { proj, set } => (set, Some(*proj)),
    };
    let (running, n_matches, first_match) = mark_matches(
        preds,
        trace,
        conninfo,
        ogrank,
        set,
        fedid,
    );
    let ghost mset = matches_of(trace@, ogrank as int, *conninfo);
    let ghost marked = set_views(preds@);
    let ghost inserted = firsts_inserted(before, trace@, ogrank as int, *conninfo);
    proof {
        if n_matches == 0 {
            mset.lemma_len0_is_empty();
        } else {
            assert(mset.contains(first_match as int));
        }
        assert(!mset.contains(ogrank as int));
    }
    match running {
        Some(rs) => {
            let ghost pre = preds@;
            add_all(preds, ogrank, &rs);
            proof {
                assert(n_matches != 0);
                assert(!mset.is_empty()) by {
                    assert(mset.contains(first_match as int));
                }
                assert(marked[ogrank as int] == before[ogrank as int]);
                assert(pre[ogrank as int]@ == marked[ogrank as int]);
                assert forall|j: int| 0 <= j < marked.len() implies #[trigger] set_views(preds@)[j] == inserted[j] by {
                    if j == ogrank {
                        assert(set_views(preds@)[j] == before[j].union(rs@));
                    }
                }
                assert(set_views(preds@) =~= inserted);
            }
        },
        None => {
            proof {
                assert(set_views(preds@) =~= inserted);
            }
        },
    }
    if n_matches == 1 {
        forward_precedences(preds, ogrank, first_match);
        proof {
            lemma_single_match(trace@, ogrank as int, *conninfo, first_match as int);
            assert(set_views(preds@) =~= firsts_step(before, trace@, ogrank as int, *conninfo));
        }
    } else {
        proof {
            if n_matches > 0 {
                lemma_single_match(trace@, ogrank as int, *conninfo, first_match as int);
            } else if single_match(trace@, ogrank as int, *conninfo) is Some {
                let f = single_match(trace@, ogrank as int, *conninfo)->0;
                assert(mset.contains(f));
            }
            assert(set_views(preds@) =~= firsts_step(before, trace@, ogrank as int, *conninfo));
        }
    }
}

impl Unpermutables {
    /// The first appears before all that which it matches, and all that appears before all that
    /// which it matches, excluding itself, appears before it.
    fn add_precedences_for_firsts(
        ogrank2immediatepredecessors: &mut Vec<RankSet>,
        trace: &Vec<Event>,
        conninfo: &ConnInfo,
    )
        requires
            conninfo.wf(),
            old(ogrank2immediatepredecessors)@.len() == trace@.len() <= u32::MAX,
            sets_over(old(ogrank2immediatepredecessors)@, trace@.len()),
            firsts_ok(trace@, *conninfo),
        ensures
            final(ogrank2immediatepredecessors)@.len() == trace@.len(),
            sets_over(final(ogrank2immediatepredecessors)@, trace@.len()),
            set_views(final(ogrank2immediatepredecessors)@) == firsts_upto(
                set_views(old(ogrank2immediatepredecessors)@),
                trace@,
                trace@.len() as int,
                *conninfo,
            ),
    {
        let n = trace.len();
        let ghost p0 = set_views(ogrank2immediatepredecessors@);
        let mut ogrank: usize = 0;
        while ogrank < n
            invariant
                n == trace@.len() <= u32::MAX,
                conninfo.wf(),
                firsts_ok(trace@, *conninfo),
                ogrank <= n,
                ogrank2immediatepredecessors@.len() == n,
                sets_over(ogrank2immediatepredecessors@, n as nat),
                set_views(ogrank2immediatepredecessors@) == firsts_upto(p0, trace@, ogrank as int, *conninfo),
            decreases n - ogrank,
        {
            add_first_step(ogrank2immediatepredecessors, trace, conninfo, ogrank);
            ogrank += 1;
        }
    }
}


// ---------------------------------------------------------------------------------------------
// From a trace and its rules
// ---------------------------------------------------------------------------------------------

/// The positions whose events some rule says precede the event at `k`.
pub open spec fn rules_preds(axioms: Seq<Rule>, trace: Seq<Event>, k: int, ci: ConnInfo) -> Set<int> {
    Set::new(
        |j: int|
            exists|i: int| 0 <= i < axioms.len() && #[trigger] rule_preds(axioms[i], trace, k, ci).contains(j),
    )
}

/// For each position, the positions whose events some rule says precede it.
pub open spec fn base_preds(axioms: Seq<Rule>, trace: Seq<Event>, ci: ConnInfo) -> Seq<Set<int>> {
    Seq::new(trace.len(), |k: int| rules_preds(axioms, trace, k, ci))
}

/// How many precedences the rule establishes for the events before position `k`.
pub open spec fn rule_uses(rule: Rule, trace: Seq<Event>, k: int, ci: ConnInfo) -> nat
    decreases k,
{
    if k <= 0 {
        0
    } else {
        rule_uses(rule, trace, k - 1, ci) + rule_preds(rule, trace, k - 1, ci).len()
    }
}

proof fn lemma_rule_uses_monotonic(rule: Rule, trace: Seq<Event>, k: int, m: int, ci: ConnInfo)
    requires
        k <= m,
    ensures
        rule_uses(rule, trace, k, ci) <= rule_uses(rule, trace, m, ci),
    decreases m - k,
{
    if k < m {
        lemma_rule_uses_monotonic(rule, trace, k, m - 1, ci);
    }
}

/// Applying every rule does not panic anywhere in the trace.
pub open spec fn rules_ok(axioms: Seq<Rule>, trace: Seq<Event>, ci: ConnInfo) -> bool {
    forall|i: int| 0 <= i < axioms.len() ==> #[trigger] rule_ok(axioms[i], trace, ci)
}

/// No rule is violated at a position before `k`, nor at `k` by a rule before the `i`-th.
pub open spec fn no_violation_before(axioms: Seq<Rule>, trace: Seq<Event>, k: int, i: int, ci: ConnInfo) -> bool {
    forall|m: int, r: int|
        0 <= m < trace.len() && 0 <= r < axioms.len() && (m < k || (m == k && r < i))
            ==> !#[trigger] violated_at(axioms[r], trace, m, ci)
}

impl Unpermutables {
    /// The precedences of a trace that satisfies every rule: for each position, the earlier
    /// positions that some rule places before it, completed by the precedences of the first events;
    /// and, for each rule, how many precedences it established. Where a rule is violated, the
    /// first violation, by position and then by rule.
    pub fn from_realizable_trace(
        trace: &Vec<Event>,
        axioms: &Vec<Rule>,
        always_occurring: RankSet,
        conninfo: &ConnInfo,
    ) -> (r: Result<(Vec<u32>, Unpermutables), RuleViolation>)
        requires
            conninfo.wf(),
            trace@.len() <= u32::MAX,
            always_occurring.wf(),
            rules_ok(axioms@, trace@, *conninfo),
            firsts_ok(trace@, *conninfo),
            forall|i: int|
                0 <= i < axioms@.len() ==> #[trigger] rule_uses(axioms@[i], trace@, trace@.len() as int, *conninfo)
                    <= u32::MAX,
        ensures
            r is Ok <==> no_violation_before(axioms@, trace@, trace@.len() as int, 0, *conninfo),
            r matches Ok((counts, u)) ==> {
                &&& counts@.len() == axioms@.len()
                &&& forall|i: int|
                    0 <= i < axioms@.len() ==> counts@[i] == rule_uses(
                        axioms@[i],
                        trace@,
                        trace@.len() as int,
                        *conninfo,
                    )
                &&& u.wf()
                &&& u.always_occurring@ == always_occurring@
                &&& u.always_occurring.universe() == always_occurring.universe()
                &&& u.ogrank2immediatepredecessors@.len() == trace@.len()
                &&& sets_over(u.ogrank2immediatepredecessors@, trace@.len())
                &&& set_views(u.ogrank2immediatepredecessors@) == firsts_upto(
                    base_preds(axioms@, trace@, *conninfo),
                    trace@,
                    trace@.len() as int,
                    *conninfo,
                )
            },
            r matches Err(v) ==> {
                &&& v.ogrank < trace@.len()
                &&& v.rule < axioms@.len()
                &&& violated_at(axioms@[v.rule as int], trace@, v.ogrank as int, *conninfo)
                &&& no_violation_before(axioms@, trace@, v.ogrank as int, v.rule as int, *conninfo)
                &&& first_counterexample(
                    axioms@[v.rule as int],
                    trace@,
                    v.ogrank as int,
                    v.counterexample as int,
                    *conninfo,
                )
            },
    {
        let n = trace.len();
        let na = axioms.len();
        let mut counts: Vec<u32> = Vec::new();
        let mut i: usize = 0;
        while i < na
            invariant
                i <= na == axioms@.len(),
                counts@.len() == i,
                forall|r: int| 0 <= r < i ==> counts@[r] == 0,
            decreases na - i,
        {
            counts.push(0);
            i += 1;
        }
        let mut preds: Vec<RankSet> = Vec::new();
        let mut k: usize = 0;
        while k < n
            invariant
                n == trace@.len() <= u32::MAX,
                na == axioms@.len(),
                conninfo.wf(),
                rules_ok(axioms@, trace@, *conninfo),
                forall|i: int|
                    0 <= i < axioms@.len() ==> #[trigger] rule_uses(axioms@[i], trace@, n as int, *conninfo)
                        <= u32::MAX,
                k <= n,
                counts@.len() == na,
                forall|r: int| 0 <= r < na ==> counts@[r] == rule_uses(axioms@[r], trace@, k as int, *conninfo),
                preds@.len() == k,
                forall|m: int| 0 <= m < k ==> (#[trigger] preds@[m]).wf() && preds@[m].universe() == n,
                forall|m: int| 0 <= m < k ==> preds@[m]@ == rules_preds(axioms@, trace@, m, *conninfo),
                no_violation_before(axioms@, trace@, k as int, 0, *conninfo),
            decreases n - k,
        {
            let mut imm = RankSet::new(n);
            let mut i: usize = 0;
            while i < na
                invariant
                    n == trace@.len() <= u32::MAX,
                    na == axioms@.len(),
                    conninfo.wf(),
                    rules_ok(axioms@, trace@, *conninfo),
                    forall|i: int|
                        0 <= i < axioms@.len() ==> #[trigger] rule_uses(axioms@[i], trace@, n as int, *conninfo)
                            <= u32::MAX,
                    k < n,
                    i <= na,
                    counts@.len() == na,
                    forall|r: int|
                        0 <= r < na ==> counts@[r] == rule_uses(
                            axioms@[r],
                            trace@,
                            if r < i { k + 1 } else { k as int },
                            *conninfo,
                        ),
                    imm.wf(),
                    imm.universe() == n,
                    imm@ == Set::new(
                        |j: int|
                            exists|r: int| 0 <= r < i && #[trigger] rule_preds(axioms@[r], trace@, k as int, *conninfo).contains(j),
                    ),
                    no_violation_before(axioms@, trace@, k as int, i as int, *conninfo),
                decreases na - i,
            {
                let rule = &axioms[i];
                assert(rule_ok(axioms@[i as int], trace@, *conninfo));
                assert(rule_ok_at(*rule, trace@, k as int, *conninfo));
                match apply_rule(rule, trace, k, n, conninfo) {
                    Err(j) => {
                        return Err(RuleViolation { rule: i, ogrank: k, counterexample: j });
                    },
                    Ok(set) => {
                        let c = set.len();
                        proof {
                            lemma_rule_uses_monotonic(*rule, trace@, k + 1, n as int, *conninfo);
                            assert(rule_uses(*rule, trace@, k + 1, *conninfo) == rule_uses(
                                *rule,
                                trace@,
                                k as int,
                                *conninfo,
                            ) + c);
                            assert(rule_uses(axioms@[i as int], trace@, n as int, *conninfo) <= u32::MAX);
                        }
                        let updated = counts[i] + c as u32;
                        counts.set(i, updated);
                        let ghost prev = imm@;
                        imm.union_with(&set);
                        proof {
                            assert(imm@ =~= Set::new(
                                |j: int|
                                    exists|r: int| 0 <= r < i + 1 && #[trigger] rule_preds(axioms@[r], trace@, k as int, *conninfo).contains(j),
                            )) by {
                                assert forall|j: int| imm@.contains(j) implies exists|r: int| 0 <= r < i + 1 && #[trigger] rule_preds(axioms@[r], trace@, k as int, *conninfo).contains(j) by {
                                    if set@.contains(j) {
                                        assert(rule_preds(axioms@[i as int], trace@, k as int, *conninfo).contains(j));
                                    }
                                }
                            }
                            assert(no_violation_before(axioms@, trace@, k as int, i + 1, *conninfo));
                        }
                    },
                }
                i += 1;
            }
            proof {
                assert(imm@ =~= rules_preds(axioms@, trace@, k as int, *conninfo));
                assert(no_violation_before(axioms@, trace@, k + 1, 0, *conninfo));
            }
            preds.push(imm);
            k += 1;
        }
        proof {
            assert(set_views(preds@) =~= base_preds(axioms@, trace@, *conninfo));
        }
        Self::add_precedences_for_firsts(&mut preds, trace, conninfo);
        let u = Unpermutables { ogrank2immediatepredecessors: preds, always_occurring };
        Ok((counts, u))
    }
}

/// For each position of a trace that satisfies every rule, the earlier positions whose events may
/// come after it in some execution; and, for each rule, how many precedences it established. Where
/// a rule is violated, the first violation.
pub fn preceding_permutables_by_ogrank(
    trace: &Vec<Event>,
    axioms: &Vec<Rule>,
    always_occurring: RankSet,
    conninfo: &ConnInfo,
) -> (r: Result<(Vec<u32>, Vec<RankSet>), RuleViolation>)
    requires
        conninfo.wf(),
        trace@.len() <= u32::MAX,
        always_occurring.wf(),
        rules_ok(axioms@, trace@, *conninfo),
        firsts_ok(trace@, *conninfo),
        forall|i: int|
            0 <= i < axioms@.len() ==> #[trigger] rule_uses(axioms@[i], trace@, trace@.len() as int, *conninfo)
                <= u32::MAX,
        predecessors_precede(
            firsts_upto(base_preds(axioms@, trace@, *conninfo), trace@, trace@.len() as int, *conninfo),
            always_occurring@,
        ),
    ensures
        r is Ok <==> no_violation_before(axioms@, trace@, trace@.len() as int, 0, *conninfo),
        r matches Ok((counts, permutables)) ==> {
            &&& counts@.len() == axioms@.len()
            &&& forall|i: int|
                0 <= i < axioms@.len() ==> counts@[i] == rule_uses(
                    axioms@[i],
                    trace@,
                    trace@.len() as int,
                    *conninfo,
                )
            &&& permutables@.len() == trace@.len()
            &&& forall|k: int|
                0 <= k < trace@.len() ==> (#[trigger] permutables@[k])@ == permutables_of(
                    firsts_upto(base_preds(axioms@, trace@, *conninfo), trace@, trace@.len() as int, *conninfo),
                    always_occurring@,
                    k,
                )
        },
        r matches Err(v) ==> {
            &&& v.ogrank < trace@.len()
            &&& v.rule < axioms@.len()
            &&& violated_at(axioms@[v.rule as int], trace@, v.ogrank as int, *conninfo)
            &&& no_violation_before(axioms@, trace@, v.ogrank as int, v.rule as int, *conninfo)
            &&& first_counterexample(
                axioms@[v.rule as int],
                trace@,
                v.ogrank as int,
                v.counterexample as int,
                *conninfo,
            )
        },
{
    match Unpermutables::from_realizable_trace(trace, axioms, always_occurring, conninfo) {
        Ok((counts, unpermutables)) => {
            let permutables = unpermutables.preceding_permutables_by_ogrank();
            Ok((counts, permutables))
        },
        Err(v) => Err(v),
    }
}

// ---------------------------------------------------------------------------------------------
// Checking that the rules can be applied
// ---------------------------------------------------------------------------------------------

/// Whether the rule can be applied at position `k` of the trace.
pub fn rule_ok_at_exec(rule: &Rule, trace: &Vec<Event>, k: usize, conninfo: &ConnInfo) -> (b: bool)
    requires
        conninfo.wf(),
        k < trace@.len(),
    ensures
        b == rule_ok_at(*rule, trace@, k as int, *conninfo),
{
    let e = &trace[k];
    if !u_ok_exec(&rule.event, e, conninfo) {
        return false;
    }
    if !rule.event.holds(&[e.duplicate()], conninfo) {
        return true;
    }
    let mut j: usize = 0;
    while j < k
        invariant
            conninfo.wf(),
            k < trace.len(),
            *e == trace@[k as int],
            u_ok(rule.event, trace@[k as int], *conninfo),
            u_holds(rule.event, trace@[k as int], *conninfo),
            j <= k,
            forall|m: int| 0 <= m < j ==> #[trigger] b_ok(rule.preceding_event, trace@[m], trace@[k as int], *conninfo),
        decreases k - j,
    {
        if !b_ok_exec(&rule.preceding_event, &trace[j], e, conninfo) {
            return false;
        }
        j += 1;
    }
    let mut j: usize = k + 1;
    while j < trace.len()
        invariant
            conninfo.wf(),
            k < j <= trace@.len(),
            *e == trace@[k as int],
            u_ok(rule.event, trace@[k as int], *conninfo),
            u_holds(rule.event, trace@[k as int], *conninfo),
            forall|m: int| 0 <= m < k ==> #[trigger] b_ok(rule.preceding_event, trace@[m], trace@[k as int], *conninfo),
            forall|m: int| k < m < j ==> #[trigger] b_ok(rule.preceding_event, trace@[m], trace@[k as int], *conninfo),
            forall|m: int| k < m < j ==> !#[trigger] precedes_by(*rule, trace@, m, k as int, *conninfo),
        decreases trace@.len() - j,
    {
        if !b_ok_exec(&rule.preceding_event, &trace[j], e, conninfo) {
            proof {
                assert forall|q: int| k < q < j implies !precedes_by(*rule, trace@, q, k as int, *conninfo) by {
                    assert(b_ok(rule.preceding_event, trace@[q], trace@[k as int], *conninfo));
                }
            }
            return false;
        }
        if rule.preceding_event.holds(&[trace[j].duplicate(), e.duplicate()], conninfo) {
            proof {
                assert(precedes_by(*rule, trace@, j as int, k as int, *conninfo));
                assert forall|m: int| k < m < trace@.len() && (forall|q: int| k < q < m ==> !precedes_by(*rule, trace@, q, k as int, *conninfo))
                    implies #[trigger] b_ok(rule.preceding_event, trace@[m], trace@[k as int], *conninfo) by {
                    if m > j {
                        assert(!precedes_by(*rule, trace@, j as int, k as int, *conninfo));
                    }
                }
            }
            return true;
        }
        assert(b_ok(rule.preceding_event, trace@[j as int], trace@[k as int], *conninfo));
        assert(!precedes_by(*rule, trace@, j as int, k as int, *conninfo));
        j += 1;
    }
    true
}

/// Whether the rule can be applied everywhere in the trace.
pub fn rule_ok_exec(rule: &Rule, trace: &Vec<Event>, conninfo: &ConnInfo) -> (b: bool)
    requires
        conninfo.wf(),
    ensures
        b == rule_ok(*rule, trace@, *conninfo),
{
    let mut k: usize = 0;
    while k < trace.len()
        invariant
            conninfo.wf(),
            k <= trace@.len(),
            forall|m: int| 0 <= m < k ==> #[trigger] rule_ok_at(*rule, trace@, m, *conninfo),
        decreases trace@.len() - k,
    {
        if !rule_ok_at_exec(rule, trace, k, conninfo) {
            return false;
        }
        k += 1;
    }
    true
}

/// Whether every rule can be applied everywhere in the trace.
pub fn rules_ok_exec(axioms: &Vec<Rule>, trace: &Vec<Event>, conninfo: &ConnInfo) -> (b: bool)
    requires
        conninfo.wf(),
    ensures
        b == rules_ok(axioms@, trace@, *conninfo),
{
    let mut i: usize = 0;
    while i < axioms.len()
        invariant
            conninfo.wf(),
            i <= axioms@.len(),
            forall|r: int| 0 <= r < i ==> #[trigger] rule_ok(axioms@[r], trace@, *conninfo),
        decreases axioms@.len() - i,
    {
        let mut k: usize = 0;
        while k < trace.len()
            invariant
                conninfo.wf(),
                i < axioms@.len(),
                k <= trace@.len(),
                forall|m: int| 0 <= m < k ==> #[trigger] rule_ok_at(axioms@[i as int], trace@, m, *conninfo),
            decreases trace@.len() - k,
        {
            if !rule_ok_at_exec(&axioms[i], trace, k, conninfo) {
                proof {
                    assert(!rule_ok(axioms@[i as int], trace@, *conninfo));
                }
                return false;
            }
            k += 1;
        }
        i += 1;
    }
    true
}

/// Whether the predicate of every virtual first event can be evaluated on every later event.
pub fn firsts_ok_exec(trace: &Vec<Event>, conninfo: &ConnInfo) -> (b: bool)
    requires
        conninfo.wf(),
    ensures
        b == firsts_ok(trace@, *conninfo),
{
    let mut k: usize = 0;
    while k < trace.len()
        invariant
            conninfo.wf(),
            k <= trace@.len(),
            forall|a: int, j: int| 0 <= a < k && a < j < trace@.len() && #[trigger] first_of(trace@[a]) is Some
                ==> u_ok((first_of(trace@[a])->0).0, #[trigger] trace@[j], *conninfo),
        decreases trace@.len() - k,
    {
        let pred = match &trace[k] {
            Event::Concrete(_) => None,
            Event::First(set) => Some(set),
            Event::FirstInEquivClass { proj: _, set } => Some(set),
        };
        match pred {
            None => {},
            Some(p) => {
                let mut j: usize = k + 1;
                while j < trace.len()
                    invariant
                        conninfo.wf(),
                        k < j <= trace@.len(),
                        first_of(trace@[k as int]) is Some,
                        *p == (first_of(trace@[k as int])->0).0,
                        forall|m: int| k < m < j ==> u_ok(*p, #[trigger] trace@[m], *conninfo),
                    decreases trace@.len() - j,
                {
                    if !u_ok_exec(p, &trace[j], conninfo) {
                        return false;
                    }
                    j += 1;
                }
            },
        }
        k += 1;
    }
    true
}

/// A rule establishes no more precedences up to position `k` than there are pairs of positions
/// before `k`.
proof fn lemma_rule_uses_bound(rule: Rule, trace: Seq<Event>, k: int, ci: ConnInfo)
    requires
        0 <= k,
    ensures
        rule_uses(rule, trace, k, ci) <= k * k,
    decreases k,
{
    if k > 0 {
        lemma_rule_uses_bound(rule, trace, k - 1, ci);
        vstd::set_lib::lemma_int_range(0, k - 1);
        let s = rule_preds(rule, trace, k - 1, ci);
        assert(s.subset_of(vstd::set_lib::set_int_range(0, k - 1)));
        vstd::set_lib::lemma_len_subset(s, vstd::set_lib::set_int_range(0, k - 1));
        assert((k - 1) * (k - 1) + (k - 1) <= k * k) by (nonlinear_arith)
            requires
                k > 0;
    }
}

/// The preceding permutable events of each position, as `preceding_permutables_by_ogrank` gives
/// them, where the rules can be applied without panicking: `None` where some rule or some first
/// event cannot be evaluated somewhere in the trace, where the trace is too long for the counts
/// of precedences to be sure to fit (more than 65535 events), or where an immediate predecessor
/// that always occurs would come after its successor.
pub fn try_preceding_permutables_by_ogrank(
    trace: &Vec<Event>,
    axioms: &Vec<Rule>,
    always_occurring: RankSet,
    conninfo: &ConnInfo,
) -> (r: Option<Result<(Vec<u32>, Vec<RankSet>), RuleViolation>>)
    requires
        conninfo.wf(),
        always_occurring.wf(),
    ensures
        r is Some ==> {
            &&& trace@.len() <= 0xffff
            &&& rules_ok(axioms@, trace@, *conninfo)
            &&& firsts_ok(trace@, *conninfo)
        },
        (trace@.len() <= 0xffff && rules_ok(axioms@, trace@, *conninfo) && firsts_ok(trace@, *conninfo)
            && no_violation_before(axioms@, trace@, trace@.len() as int, 0, *conninfo) && predecessors_precede(
            firsts_upto(base_preds(axioms@, trace@, *conninfo), trace@, trace@.len() as int, *conninfo),
            always_occurring@,
        )) ==> r is Some,
        (trace@.len() <= 0xffff && rules_ok(axioms@, trace@, *conninfo) && firsts_ok(trace@, *conninfo)
            && !no_violation_before(axioms@, trace@, trace@.len() as int, 0, *conninfo)) ==> r is Some,
        r matches Some(Ok((counts, permutables))) ==> {
            &&& predecessors_precede(
                firsts_upto(base_preds(axioms@, trace@, *conninfo), trace@, trace@.len() as int, *conninfo),
                always_occurring@,
            )
            &&& no_violation_before(axioms@, trace@, trace@.len() as int, 0, *conninfo)
            &&& counts@.len() == axioms@.len()
            &&& forall|i: int|
                0 <= i < axioms@.len() ==> counts@[i] == rule_uses(axioms@[i], trace@, trace@.len() as int, *conninfo)
            &&& permutables@.len() == trace@.len()
            &&& forall|k: int|
                0 <= k < trace@.len() ==> (#[trigger] permutables@[k])@ == permutables_of(
                    firsts_upto(base_preds(axioms@, trace@, *conninfo), trace@, trace@.len() as int, *conninfo),
                    always_occurring@,
                    k,
                )
        },
        r matches Some(Err(v)) ==> {
            &&& v.ogrank < trace@.len()
            &&& v.rule < axioms@.len()
            &&& violated_at(axioms@[v.rule as int], trace@, v.ogrank as int, *conninfo)
            &&& no_violation_before(axioms@, trace@, v.ogrank as int, v.rule as int, *conninfo)
            &&& first_counterexample(axioms@[v.rule as int], trace@, v.ogrank as int, v.counterexample as int, *conninfo)
        },
{
    if trace.len() > 0xffff || !rules_ok_exec(axioms, trace, conninfo) || !firsts_ok_exec(trace, conninfo) {
        return None;
    }
    proof {
        assert forall|i: int| 0 <= i < axioms@.len() implies #[trigger] rule_uses(axioms@[i], trace@, trace@.len() as int, *conninfo)
            <= u32::MAX by {
            lemma_rule_uses_bound(axioms@[i], trace@, trace@.len() as int, *conninfo);
            assert(trace@.len() * trace@.len() <= 0xffff * 0xffff) by (nonlinear_arith)
                requires
                    trace@.len() <= 0xffff;
        }
    }
    match Unpermutables::from_realizable_trace(trace, axioms, always_occurring, conninfo) {
        Err(v) => Some(Err(v)),
        Ok((counts, u)) => {
            let n = u.ogrank2immediatepredecessors.len();
            let mut k: usize = 0;
            while k < n
                invariant
                    n == u.ogrank2immediatepredecessors@.len(),
                    n == trace@.len(),
                    n <= 0xffff,
                    u.wf(),
                    sets_over(u.ogrank2immediatepredecessors@, trace@.len()),
                    u.always_occurring@ == always_occurring@,
                    no_violation_before(axioms@, trace@, trace@.len() as int, 0, *conninfo),
                    set_views(u.ogrank2immediatepredecessors@) == firsts_upto(
                        base_preds(axioms@, trace@, *conninfo),
                        trace@,
                        trace@.len() as int,
                        *conninfo,
                    ),
                    k <= n,
                    forall|a: int, p: int| 0 <= a < k && #[trigger] set_views(u.ogrank2immediatepredecessors@)[a].contains(p)
                        && u.always_occurring@.contains(p) ==> p < a,
                decreases n - k,
            {
                let preds = u.ogrank2immediatepredecessors[k].to_sorted_vec();
                let mut q: usize = 0;
                while q < preds.len()
                    invariant
                        n == u.ogrank2immediatepredecessors@.len(),
                        k < n,
                        u.wf(),
                        u.always_occurring@ == always_occurring@,
                        no_violation_before(axioms@, trace@, trace@.len() as int, 0, *conninfo),
                        set_views(u.ogrank2immediatepredecessors@) == firsts_upto(
                            base_preds(axioms@, trace@, *conninfo),
                            trace@,
                            trace@.len() as int,
                            *conninfo,
                        ),
                        q <= preds@.len(),
                        forall|x: int| u.ogrank2immediatepredecessors@[k as int]@.contains(x) <==> (exists|a: int| 0 <= a < preds@.len() && preds@[a] == x),
                        forall|a: int| 0 <= a < q ==> u.always_occurring@.contains(#[trigger] preds@[a] as int) ==> preds@[a] < k,
                    decreases preds@.len() - q,
                {
                    if preds[q] as usize >= k && u.always_occurring.contains(preds[q]) {
                        proof {
                            let p = preds@[q as int] as int;
                            assert(u.ogrank2immediatepredecessors@[k as int]@.contains(p));
                            assert(set_views(u.ogrank2immediatepredecessors@)[k as int] == u.ogrank2immediatepredecessors@[k as int]@);
                            assert(!predecessors_precede(
                                firsts_upto(base_preds(axioms@, trace@, *conninfo), trace@, trace@.len() as int, *conninfo),
                                always_occurring@,
                            ));
                        }
                        return None;
                    }
                    q += 1;
                }
                proof {
                    assert forall|a: int, p: int| 0 <= a < k + 1 && #[trigger] set_views(u.ogrank2immediatepredecessors@)[a].contains(p)
                        && u.always_occurring@.contains(p) implies p < a by {
                        if a == k {
                            assert(set_views(u.ogrank2immediatepredecessors@)[a] == u.ogrank2immediatepredecessors@[a]@);
                            let b = choose|b: int| 0 <= b < preds@.len() && preds@[b] == p;
                        }
                    }
                }
                k += 1;
            }
            let permutables = u.preceding_permutables_by_ogrank();
            Some(Ok((counts, permutables)))
        },
    }
}

} // verus!
