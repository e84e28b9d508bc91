//! The test harness's bookkeeping: how a test program ended, which ports a test may use, the
//! delay vectors handed to federates, the constraint lists of precedences, and the counts of hook
//! invocations in a trace.
use vstd::prelude::*;
use std::collections::hash_map::DefaultHasher;
use std::hash::Hasher;
use sha2::Digest;
use vstd::utf8::encode_utf8;
use vstd::std_specs::hash::DefaultHasherAdditionalSpecFns;
use crate::ordering::{FederateId, HookId, HookInvocation, SequenceNumberByFileAndLine};
use crate::text::{decimal_chars, extend_chars, int_text, nat_text, signed_decimal_chars, string_from_chars};
use crate::text::{chars_of, ends_with, ends_with_chars, has_infix, has_infix_chars};
use crate::trace::TraceRecord;
use crate::transpositions::OgRank;

verus! {

/// The index of a worker thread of the harness.
#[derive(Debug, Clone, Copy)]
pub struct ThreadId(pub usize);

/// How a test program ended.
#[derive(Debug, Clone, Copy, PartialEq, Eq, Structural)]
pub enum Status {
    Timeout,
    TerminatedBySignal,
    Termination(i32),
}

impl Status {
    /// The exit code, if the program exited by itself.
    pub fn code(&self) -> (r: Option<i32>)
        ensures
            r == (match *self {
                Status::Termination(c) => Some(c),
                _ => None,
            }),
    {
        match self {
            Status::Timeout => None,
            Status::TerminatedBySignal => None,
            Status::Termination(status) => Some(*status),
        }
    }

    /// How a program ended, from what waiting for it gave: nothing where it timed out, else its exit
    /// code if it exited by itself (none where a signal stopped it).
    pub fn from_result(result: Option<Option<i32>>) -> (r: Status)
        ensures
            r == (match result {
                None => Status::Timeout,
                Some(None) => Status::TerminatedBySignal,
                Some(Some(code)) => Status::Termination(code),
            }),
    {
        match result {
            Some(exit) => match exit {
                Some(code) => Status::Termination(code),
                None => Status::TerminatedBySignal,
            },
            None => Status::Timeout,
        }
    }

    /// The program exited by itself with code 0.
    pub fn is_success(&self) -> (r: bool)
        ensures
            r == (*self == Status::Termination(0)),
    {
        match self {
            Status::Timeout => false,
            Status::TerminatedBySignal => false,
            Status::Termination(status) => *status == 0,
        }
    }

    /// The program was stopped because it ran too long.
    pub fn is_timeout(&self) -> (r: bool)
        ensures
            r == (*self == Status::Timeout),
    {
        match self {
            Status::Timeout => true,
            Status::TerminatedBySignal => false,
            Status::Termination(_) => false,
        }
    }
}

/// What a run of a test program produced.
pub struct ExecResult {
    pub status: Status,
    pub selected_output: Vec<String>,
    pub stderr: String,
}

/// The lines of `s` whose verdicts in `keep` are true, in order.
pub open spec fn kept_lines(s: Seq<Seq<char>>, keep: Seq<bool>) -> Seq<Seq<char>>
    decreases s.len(),
{
    if s.len() == 0 {
        Seq::empty()
    } else {
        let rest = kept_lines(s.drop_last(), keep);
        if keep[s.len() - 1] {
            rest.push(s.last())
        } else {
            rest
        }
    }
}

/// `f` can answer `b` for the line.
pub open spec fn verdict<F: Fn(&str) -> bool>(f: F, line: Seq<char>, b: bool) -> bool {
    exists|x: &str| x@ == line && #[trigger] f.ensures((x,), b)
}

/// The views of a sequence of strings.
pub open spec fn string_views(s: Seq<String>) -> Seq<Seq<char>> {
    s.map_values(|x: String| x@)
}

impl ExecResult {
    /// Keeps the selected lines of output for which `f` says yes, in order.
    pub fn retain_output<F: Fn(&str) -> bool>(&mut self, f: F)
        requires
            forall|x: &str| #[trigger] f.requires((x,)),
        ensures
            final(self).status == old(self).status,
            final(self).stderr == old(self).stderr,
            exists|keep: Seq<bool>|
                keep.len() == old(self).selected_output@.len() && (forall|i: int|
                    0 <= i < keep.len() ==> #[trigger] verdict(f, old(self).selected_output@[i]@, keep[i]))
                    && string_views(final(self).selected_output@) == kept_lines(
                    string_views(old(self).selected_output@),
                    keep,
                ),
    {
        let ghost orig = self.selected_output@;
        let mut kept: Vec<String> = Vec::new();
        let mut rest: Vec<String> = Vec::new();
        std::mem::swap(&mut rest, &mut self.selected_output);
        let ghost mut keep: Seq<bool> = Seq::empty();
        let n = rest.len();
        let mut i: usize = 0;
        while i < n
            invariant
                n == rest@.len(),
                rest@ == orig,
                i <= n,
                keep.len() == i,
                forall|x: &str| #[trigger] f.requires((x,)),
                forall|j: int| 0 <= j < i ==> #[trigger] verdict(f, orig[j]@, keep[j]),
                string_views(kept@) == kept_lines(string_views(orig.take(i as int)), keep),
            decreases n - i,
        {
            let line = &rest[i];
            let x = line.as_str();
            let b = f(x);
            let ghost keep_old = keep;
            proof {
                keep = keep.push(b);
                assert(keep.drop_last() =~= keep_old);
                assert(string_views(orig.take(i + 1)).drop_last() =~= string_views(orig.take(i as int)));
                assert(forall|k: int| 0 <= k < i ==> keep[k] == keep.drop_last()[k]);
                lemma_kept_lines_prefix(string_views(orig.take(i as int)), keep.drop_last(), keep);
            }
            if b {
                let ghost pre = kept@;
                kept.push(line.clone());
                proof {
                    assert(string_views(kept@) =~= string_views(pre).push(orig[i as int]@));
                }
            }
            proof {
                assert(string_views(orig.take(i + 1)).last() == orig[i as int]@);
                assert(x@ == orig[i as int]@);
                assert(f.ensures((x,), keep[i as int]));
                assert forall|j: int| 0 <= j < i + 1 implies #[trigger] verdict(f, orig[j]@, keep[j]) by {
                    if j == i {
                        assert(x@ == orig[j]@ && f.ensures((x,), keep[j]));
                    } else {
                        assert(keep[j] == keep_old[j]);
                        assert(verdict(f, orig[j]@, keep_old[j]));
                    }
                }
            }
            i += 1;
        }
        proof {
            assert(orig.take(n as int) =~= orig);
        }
        self.selected_output = kept;
        assert(keep.len() == orig.len() && (forall|i: int|
            0 <= i < keep.len() ==> #[trigger] verdict(f, orig[i]@, keep[i])) && string_views(self.selected_output@)
            == kept_lines(string_views(orig), keep));
    }
}

proof fn lemma_kept_lines_prefix(s: Seq<Seq<char>>, a: Seq<bool>, b: Seq<bool>)
    requires
        a.len() >= s.len(),
        b.len() >= s.len(),
        forall|k: int| 0 <= k < s.len() ==> a[k] == b[k],
    ensures
        kept_lines(s, a) == kept_lines(s, b),
    decreases s.len(),
{
    if s.len() > 0 {
        lemma_kept_lines_prefix(s.drop_last(), a, b);
    }
}

// ---------------------------------------------------------------------------------------------
// Ports
// ---------------------------------------------------------------------------------------------

/// How many consecutive ports a test may need.
pub const REQUIRED_CONTIGUOUS_PORTS: u16 = 24;

/// How many entries of the list of open ports a test reserves.
pub const MAX_REQUIRED_PORTS: u16 = 36;

/// The open ports from position `k` on leave room for a test: the port `REQUIRED_CONTIGUOUS_PORTS`
/// entries later is at most that many ports higher.
pub open spec fn window_at(open_ports: Seq<u16>, k: int) -> bool {
    k + 24 < open_ports.len() && open_ports[k + 24] <= open_ports[k] + 24
}

/// Picks the ports of a test from the sorted list of open ports, starting at position `idx`: the
/// first position from there whose window is contiguous enough. Returns the port there and the
/// position from which the next test may start.
pub fn get_valid_port(open_ports: &Vec<u16>, idx: usize) -> (r: (u16, usize))
    requires
        idx + 10 < open_ports@.len(),
        exists|k: int| idx <= k && window_at(open_ports@, k),
        forall|k: int| idx <= k < open_ports@.len() ==> open_ports@[k] + 24 <= u16::MAX,
        open_ports@.len() + 36 <= usize::MAX,
    ensures
        window_at(open_ports@, r.1 - 36),
        forall|k: int| idx <= k < r.1 - 36 ==> !window_at(open_ports@, k),
        idx + 36 <= r.1,
        r.0 == open_ports@[r.1 - 36],
{
    let mut current: usize = idx;
    while open_ports[current + (REQUIRED_CONTIGUOUS_PORTS as usize)] > open_ports[current]
        + REQUIRED_CONTIGUOUS_PORTS
        invariant
            idx <= current,
            exists|k: int| current <= k && window_at(open_ports@, k),
            forall|k: int| idx <= k < current ==> !window_at(open_ports@, k),
            forall|k: int| idx <= k < open_ports@.len() ==> open_ports@[k] + 24 <= u16::MAX,
            open_ports@.len() + 36 <= usize::MAX,
        decreases open_ports@.len() - current,
    {
        proof {
            let k = choose|k: int| current <= k && window_at(open_ports@, k);
            assert(k != current);
        }
        current += 1;
    }
    (open_ports[current], current + (MAX_REQUIRED_PORTS as usize))
}

/// The text of a delay vector: the number of entries, then each entry's index (relative to
/// `offset`, wrapped to 32 bits) and delay, one per line.
pub open spec fn dvec_text(conl: Seq<(u32, i16)>, offset: u32) -> Seq<char>
    decreases conl.len(),
{
    if conl.len() == 0 {
        Seq::empty()
    } else {
        dvec_text(conl.drop_last(), offset) + nat_text(
            (conl.last().0 as i32 - offset as i32) as u32 as nat,
        ) + seq![' '] + int_text(conl.last().1 as int) + seq!['\n']
    }
}

/// The delay vector as the federates read it.
pub fn stringify_dvec(conl: &[(u32, i16)], offset: u32) -> (r: String)
    requires
        forall|i: int|
            0 <= i < conl@.len() ==> i32::MIN <= (#[trigger] conl@[i]).0 as i32 - offset as i32
                <= i32::MAX,
    ensures
        r@ == nat_text(conl@.len() as nat) + seq!['\n'] + dvec_text(conl@, offset),
{
    let mut out: Vec<char> = decimal_chars(conl.len() as u64);
    out.push('\n');
    let ghost head = out@;
    let mut k: usize = 0;
    while k < conl.len()
        invariant
            k <= conl@.len(),
            forall|i: int|
                0 <= i < conl@.len() ==> i32::MIN <= (#[trigger] conl@[i]).0 as i32 - offset as i32
                    <= i32::MAX,
            out@ == head + dvec_text(conl@.take(k as int), offset),
        decreases conl@.len() - k,
    {
        let (idx, delay) = conl[k];
        assert(i32::MIN <= conl@[k as int].0 as i32 - offset as i32 <= i32::MAX);
        let adjusted = ((idx as i32) - (offset as i32)) as u32;
        proof {
            assert(conl@.take(k + 1).drop_last() =~= conl@.take(k as int));
        }
        extend_chars(&mut out, &decimal_chars(adjusted as u64));
        out.push(' ');
        extend_chars(&mut out, &signed_decimal_chars(delay as i64));
        out.push('\n');
        proof {
            assert(out@ =~= head + dvec_text(conl@.take(k + 1), offset));
        }
        k += 1;
    }
    assert(conl@.take(conl@.len() as int) =~= conl@);
    string_from_chars(&out)
}

// ---------------------------------------------------------------------------------------------
// Constraint lists
// ---------------------------------------------------------------------------------------------

/// The number of (waiter, notifier) pairs in a node of a constraint list.
pub const DELAY_VECTOR_CHUNK_SIZE: usize = 8;

/// The position of a constraint list in its registry.
#[derive(Debug, Clone, Copy, PartialEq, Eq, Hash, Structural)]
pub struct ConstraintListIndex(pub u32);

/// A list of (waiter, notifier) pairs, stored in chunks: this node's pairs (each notifier relative
/// to its waiter), then those of the parent node in the registry.
pub struct ConstraintList {
    pub waiter_idxs: [u32; 8],
    pub notifier_delta_idxs: [i16; 8],
    pub parent: Option<ConstraintListIndex>,
    pub length: u32,
}

/// Following parents from `node`, the registry's nodes reached, `node` first; `None` where a parent
/// is missing from the registry or the chain is longer than `fuel`.
pub open spec fn chain(clr: Seq<ConstraintList>, node: ConstraintList, fuel: nat) -> Option<Seq<ConstraintList>>
    decreases fuel,
{
    match node.parent {
        None => Some(seq![node]),
        Some(p) => if fuel == 0 || p.0 >= clr.len() {
            None
        } else {
            match chain(clr, clr[p.0 as int], (fuel - 1) as nat) {
                Some(rest) => Some(seq![node] + rest),
                None => None,
            }
        },
    }
}

/// The chain of nodes from `node` ends, within the registry.
pub open spec fn chain_ends(clr: Seq<ConstraintList>, node: ConstraintList) -> bool {
    exists|fuel: nat| #[trigger] chain(clr, node, fuel) is Some
}

/// The nodes of the chain from `node`.
pub open spec fn nodes_of(clr: Seq<ConstraintList>, node: ConstraintList) -> Seq<ConstraintList> {
    chain(clr, node, choose|fuel: nat| #[trigger] chain(clr, node, fuel) is Some)->0
}

proof fn lemma_chain_fuel(clr: Seq<ConstraintList>, node: ConstraintList, a: nat, b: nat)
    requires
        chain(clr, node, a) is Some,
        a <= b,
    ensures
        chain(clr, node, b) == chain(clr, node, a),
    decreases a,
{
    match node.parent {
        None => {},
        Some(p) => {
            lemma_chain_fuel(clr, clr[p.0 as int], (a - 1) as nat, (b - 1) as nat);
        },
    }
}

/// The pairs of a node, in order.
pub open spec fn node_pairs(node: ConstraintList) -> Seq<(OgRank, OgRank)> {
    Seq::new(
        8,
        |i: int|
            (
                OgRank(node.waiter_idxs@[i]),
                OgRank((node.waiter_idxs@[i] as i32 + node.notifier_delta_idxs@[i] as i32) as u32),
            ),
    )
}

/// The pairs of the nodes, in order.
pub open spec fn chain_pairs(nodes: Seq<ConstraintList>) -> Seq<(OgRank, OgRank)>
    decreases nodes.len(),
{
    if nodes.len() == 0 {
        Seq::empty()
    } else {
        node_pairs(nodes[0]) + chain_pairs(nodes.drop_first())
    }
}

impl ConstraintList {
    /// The list of the single pair (waiter, notifier), the other slots of the node zero.
    pub fn singleton(waiter_idx: OgRank, notifier_idx: OgRank, length: u32) -> (r: Self)
        requires
            i16::MIN <= notifier_idx.0 as i32 - waiter_idx.0 as i32 <= i16::MAX,
        ensures
            r.waiter_idxs@ == seq![waiter_idx.0, 0, 0, 0, 0, 0, 0, 0],
            r.notifier_delta_idxs@ == seq![(notifier_idx.0 as i32 - waiter_idx.0 as i32) as i16, 0, 0, 0, 0, 0, 0, 0],
            r.parent is None,
            r.length == length,
    {
        let mut waiter_idxs: [u32; 8] = [0; 8];
        let mut notifier_delta_idxs: [i16; 8] = [0; 8];
        waiter_idxs[0] = waiter_idx.0;
        notifier_delta_idxs[0] = (notifier_idx.0 as i32 - waiter_idx.0 as i32) as i16;
        assert(waiter_idxs@ =~= seq![waiter_idx.0, 0, 0, 0, 0, 0, 0, 0]);
        assert(notifier_delta_idxs@ =~= seq![(notifier_idx.0 as i32 - waiter_idx.0 as i32) as i16, 0, 0, 0, 0, 0, 0, 0]);
        ConstraintList { waiter_idxs, notifier_delta_idxs, parent: None, length }
    }

    /// The number of pair slots in the chain of nodes from this one.
    pub fn num_of_pairs(&self, clr: &Vec<ConstraintList>) -> (r: usize)
        requires
            chain_ends(clr@, *self),
            nodes_of(clr@, *self).len() * 8 <= usize::MAX,
        ensures
            r == nodes_of(clr@, *self).len() * 8,
    {
        let ghost fuel = choose|fuel: nat| #[trigger] chain(clr@, *self, fuel) is Some;
        let ghost nodes = nodes_of(clr@, *self);
        let mut current: &ConstraintList = self;
        let mut ret: usize = 0;
        let mut k: usize = 0;
        loop
            invariant
                nodes == nodes_of(clr@, *self),
                chain(clr@, *self, fuel) == Some(nodes),
                nodes.len() * 8 <= usize::MAX,
                k < nodes.len(),
                ret == k * 8,
                chain(clr@, *current, (fuel - k) as nat) == Some(nodes.skip(k as int)),
                k <= fuel,
            decreases nodes.len() - k,
        {
            proof {
                assert((k + 1) * 8 <= nodes.len() * 8) by (nonlinear_arith)
                    requires
                        k < nodes.len(),
                ;
            }
            ret += DELAY_VECTOR_CHUNK_SIZE;
            match current.parent {
                None => {
                    assert(nodes.skip(k as int).len() == 1);
                    assert(nodes.len() == k + 1);
                    assert(ret == nodes.len() * 8) by (nonlinear_arith)
                        requires
                            ret == k * 8 + 8,
                            nodes.len() == k + 1,
                    ;
                    return ret;
                },
                Some(p) => {
                    proof {
                        let rest = chain(clr@, clr@[p.0 as int], (fuel - k - 1) as nat)->0;
                        assert(nodes.skip(k as int) =~= seq![*current] + rest);
                        assert(nodes.skip(k + 1) =~= nodes.skip(k as int).drop_first());
                        assert(rest =~= nodes.skip(k + 1));
                    }
                    current = &clr[p.0 as usize];
                    k += 1;
                },
            }
        }
    }
}

/// How many elements of `s` have a waiter at most `w`.
pub open spec fn count_le(s: Seq<(OgRank, OgRank)>, w: u32) -> nat
    decreases s.len(),
{
    if s.len() == 0 {
        0
    } else {
        count_le(s.drop_last(), w) + if s.last().0.0 <= w {
            1nat
        } else {
            0nat
        }
    }
}

/// The pairs sorted by waiter, pairs with the same waiter in their original order: each pair is
/// inserted after those already placed whose waiter is not greater.
pub open spec fn sorted_by_waiter(s: Seq<(OgRank, OgRank)>) -> Seq<(OgRank, OgRank)>
    decreases s.len(),
{
    if s.len() == 0 {
        Seq::empty()
    } else {
        let t = sorted_by_waiter(s.drop_last());
        t.insert(count_le(t, s.last().0.0) as int, s.last())
    }
}

pub open spec fn waiters_sorted(s: Seq<(OgRank, OgRank)>) -> bool {
    forall|i: int, j: int| 0 <= i < j < s.len() ==> s[i].0.0 <= s[j].0.0
}

/// In a sequence sorted by waiter, the elements whose waiter is at most `w` are the first
/// `count_le(s, w)` ones.
proof fn lemma_count_le_split(s: Seq<(OgRank, OgRank)>, w: u32)
    requires
        waiters_sorted(s),
    ensures
        count_le(s, w) <= s.len(),
        forall|i: int| 0 <= i < count_le(s, w) ==> s[i].0.0 <= w,
        forall|i: int| count_le(s, w) <= i < s.len() ==> s[i].0.0 > w,
    decreases s.len(),
{
    if s.len() > 0 {
        let t = s.drop_last();
        lemma_count_le_split(t, w);
        let c = count_le(t, w);
        assert forall|i: int| 0 <= i < t.len() implies s[i] == t[i] by {}
        if s.last().0.0 <= w {
            if c < t.len() {
                assert(t[c as int].0.0 > w);
                assert(s[c as int].0.0 <= s[s.len() - 1].0.0);
                assert(false);
            }
            assert(count_le(s, w) == s.len());
        } else {
            assert(count_le(s, w) == c);
        }
    }
}

proof fn lemma_sorted_by_waiter_sorted(s: Seq<(OgRank, OgRank)>)
    ensures
        waiters_sorted(sorted_by_waiter(s)),
        sorted_by_waiter(s).len() == s.len(),
    decreases s.len(),
{
    if s.len() > 0 {
        let t = sorted_by_waiter(s.drop_last());
        lemma_sorted_by_waiter_sorted(s.drop_last());
        let w = s.last().0.0;
        lemma_count_le_split(t, w);
        let c = count_le(t, w) as int;
        let r = t.insert(c, s.last());
        assert forall|i: int, j: int| 0 <= i < j < r.len() implies r[i].0.0 <= r[j].0.0 by {
            if j < c {
            } else if j == c {
            } else if i < c {
            } else if i == c {
            } else {
                assert(r[i] == t[i - 1] && r[j] == t[j - 1]);
            }
        }
    }
}

proof fn lemma_sorted_by_waiter_permutes(s: Seq<(OgRank, OgRank)>)
    ensures
        sorted_by_waiter(s).to_multiset() == s.to_multiset(),
    decreases s.len(),
{
    broadcast use vstd::seq_lib::group_seq_properties, vstd::multiset::group_multiset_axioms;

    if s.len() == 0 {
        assert(sorted_by_waiter(s) =~= s);
    } else {
        let t = sorted_by_waiter(s.drop_last());
        lemma_sorted_by_waiter_permutes(s.drop_last());
        lemma_sorted_by_waiter_sorted(s.drop_last());
        let x = s.last();
        lemma_count_le_split(t, x.0.0);
        let c = count_le(t, x.0.0) as int;
        let a = t.take(c);
        let b = t.skip(c);
        assert(t.insert(c, x) =~= a.push(x) + b);
        assert(t =~= a + b);
        vstd::seq_lib::lemma_multiset_commutative(a.push(x), b);
        vstd::seq_lib::lemma_multiset_commutative(a, b);
        assert(a.push(x).to_multiset() =~= a.to_multiset().insert(x));
        assert(s =~= s.drop_last().push(x));
        assert(s.to_multiset() =~= s.drop_last().to_multiset().insert(x));
        assert(t.insert(c, x).to_multiset() =~= t.to_multiset().insert(x));
    }
}

proof fn lemma_chain_pairs_len(nodes: Seq<ConstraintList>)
    ensures
        chain_pairs(nodes).len() == nodes.len() * 8,
    decreases nodes.len(),
{
    if nodes.len() > 0 {
        lemma_chain_pairs_len(nodes.drop_first());
    }
}

/// The pairs of a chain of nodes, sorted by waiter as `to_pairs_sorted` gives them, are eight per
/// node, in non-decreasing order of waiter, and the chain's pairs each as many times as there.
pub proof fn lemma_pairs_sorted(nodes: Seq<ConstraintList>)
    ensures
        sorted_by_waiter(chain_pairs(nodes)).len() == nodes.len() * 8,
        waiters_sorted(sorted_by_waiter(chain_pairs(nodes))),
        sorted_by_waiter(chain_pairs(nodes)).to_multiset() == chain_pairs(nodes).to_multiset(),
{
    lemma_chain_pairs_len(nodes);
    lemma_sorted_by_waiter_sorted(chain_pairs(nodes));
    lemma_sorted_by_waiter_permutes(chain_pairs(nodes));
}

/// Inserts `x` after the elements of the sorted `v` whose waiter is not greater.
fn insert_by_waiter(v: &mut Vec<(OgRank, OgRank)>, x: (OgRank, OgRank))
    requires
        waiters_sorted(old(v)@),
    ensures
        final(v)@ == old(v)@.insert(count_le(old(v)@, x.0.0) as int, x),
{
    let mut p: usize = 0;
    while p < v.len() && v[p].0.0 <= x.0.0
        invariant
            0 <= p <= v@.len(),
            v@ == old(v)@,
            waiters_sorted(v@),
            forall|i: int| 0 <= i < p ==> v@[i].0.0 <= x.0.0,
        decreases v@.len() - p,
    {
        p += 1;
    }
    proof {
        lemma_count_le_split(v@, x.0.0);
        let c = count_le(v@, x.0.0) as int;
        if p < v@.len() {
            assert(v@[p as int].0.0 > x.0.0);
        }
        if p < c {
            assert(v@[p as int].0.0 <= x.0.0);
        }
        if p > c {
            assert(v@[c].0.0 <= x.0.0);
        }
        assert(p == count_le(v@, x.0.0));
    }
    v.insert(p, x);
}

impl ConstraintList {
    /// The pairs of the chain of nodes from this one, sorted by waiter (pairs with the same waiter
    /// in the order of the chain).
    pub fn to_pairs_sorted(&self, clr: &Vec<ConstraintList>) -> (r: Vec<(OgRank, OgRank)>)
        requires
            chain_ends(clr@, *self),
            forall|n: int, i: int|
                #![trigger nodes_of(clr@, *self)[n].waiter_idxs@[i]]
                0 <= n < nodes_of(clr@, *self).len() && 0 <= i < 8 ==> i32::MIN <= nodes_of(clr@, *self)[n].waiter_idxs@[i] as i32
                    + nodes_of(clr@, *self)[n].notifier_delta_idxs@[i] as i32 <= i32::MAX,
        ensures
            r@ == sorted_by_waiter(chain_pairs(nodes_of(clr@, *self))),
    {
        let ghost fuel = choose|fuel: nat| #[trigger] chain(clr@, *self, fuel) is Some;
        let ghost nodes = nodes_of(clr@, *self);
        let mut current: &ConstraintList = self;
        let mut ret: Vec<(OgRank, OgRank)> = Vec::new();
        let ghost mut k: int = 0;
        let ghost mut pairs: Seq<(OgRank, OgRank)> = Seq::empty();
        proof {
            assert(nodes.skip(0) =~= nodes);
            assert(pairs + chain_pairs(nodes) =~= chain_pairs(nodes));
        }
        loop
            invariant
                nodes == nodes_of(clr@, *self),
                chain(clr@, *self, fuel) == Some(nodes),
                0 <= k < nodes.len(),
                k <= fuel,
                chain(clr@, *current, (fuel - k) as nat) == Some(nodes.skip(k as int)),
                pairs + chain_pairs(nodes.skip(k as int)) == chain_pairs(nodes),
                ret@ == sorted_by_waiter(pairs),
                forall|n: int, i: int|
                    #![trigger nodes[n].waiter_idxs@[i]]
                    0 <= n < nodes.len() && 0 <= i < 8 ==> i32::MIN <= nodes[n].waiter_idxs@[i] as i32
                        + nodes[n].notifier_delta_idxs@[i] as i32 <= i32::MAX,
            decreases nodes.len() - k,
        {
            assert(nodes.skip(k as int)[0] == *current);
            assert(nodes[k] == *current);
            assert forall|i: int| 0 <= i < 8 implies i32::MIN <= #[trigger] current.waiter_idxs@[i] as i32
                + current.notifier_delta_idxs@[i] as i32 <= i32::MAX by {
                assert(nodes[k].waiter_idxs@[i] == current.waiter_idxs@[i]);
            }
            let mut i: usize = 0;
            while i < DELAY_VECTOR_CHUNK_SIZE
                invariant
                    i <= 8,
                    ret@ == sorted_by_waiter(pairs + node_pairs(*current).take(i as int)),
                    forall|i: int|
                        0 <= i < 8 ==> i32::MIN <= #[trigger] current.waiter_idxs@[i] as i32
                            + current.notifier_delta_idxs@[i] as i32 <= i32::MAX,
                decreases 8 - i,
            {
                let x = (
                    OgRank(current.waiter_idxs[i]),
                    OgRank((current.waiter_idxs[i] as i32 + current.notifier_delta_idxs[i] as i32) as u32),
                );
                proof {
                    lemma_sorted_by_waiter_sorted(pairs + node_pairs(*current).take(i as int));
                    assert(x == node_pairs(*current)[i as int]);
                    let s = pairs + node_pairs(*current).take(i + 1);
                    assert(s.drop_last() =~= pairs + node_pairs(*current).take(i as int));
                    assert(s.last() == x);
                }
                insert_by_waiter(&mut ret, x);
                i += 1;
            }
            proof {
                assert(node_pairs(*current).take(8) =~= node_pairs(*current));
                let rest = nodes.skip(k as int);
                assert(chain_pairs(rest) == node_pairs(rest[0]) + chain_pairs(rest.drop_first()));
                assert(nodes.skip(k + 1) =~= rest.drop_first());
                pairs = pairs + node_pairs(*current);
                assert(pairs + chain_pairs(nodes.skip(k + 1)) =~= chain_pairs(nodes));
            }
            match current.parent {
                None => {
                    proof {
                        assert(nodes.skip(k as int).len() == 1);
                        assert(nodes.skip(k + 1).len() == 0);
                        assert(pairs =~= chain_pairs(nodes));
                    }
                    return ret;
                },
                Some(p) => {
                    proof {
                        let rest = chain(clr@, clr@[p.0 as int], (fuel - k - 1) as nat)->0;
                        assert(nodes.skip(k as int) =~= seq![*current] + rest);
                        assert(nodes.skip(k + 1) =~= nodes.skip(k as int).drop_first());
                        assert(rest =~= nodes.skip(k + 1));
                    }
                    current = &clr[p.0 as usize];
                    proof {
                        k = k + 1;
                    }
                },
            }
        }
    }
}

// ---------------------------------------------------------------------------------------------
// Hook invocation counts
// ---------------------------------------------------------------------------------------------

/// For each hook, how many times it ran in a trace; for each position of the trace, the
/// invocation there; and the number of processes that ran hooks.
pub struct HookInvocationCounts {
    pub hid2ic: Vec<(HookId, u32)>,
    pub ogrank2hinvoc: Vec<HookInvocation>,
    pub n_processes: usize,
}

/// The sum of the counts.
pub open spec fn count_sum(s: Seq<(HookId, u32)>) -> int
    decreases s.len(),
{
    if s.len() == 0 {
        0
    } else {
        count_sum(s.drop_last()) + s.last().1
    }
}

proof fn lemma_count_sum_prefix(s: Seq<(HookId, u32)>, i: int)
    requires
        0 <= i <= s.len(),
    ensures
        count_sum(s.take(i)) <= count_sum(s),
    decreases s.len() - i,
{
    if i < s.len() {
        lemma_count_sum_prefix(s, i + 1);
        assert(s.take(i + 1).drop_last() =~= s.take(i));
    } else {
        assert(s.take(i) =~= s);
    }
}

proof fn lemma_count_sum_update(s: Seq<(HookId, u32)>, i: int, x: (HookId, u32))
    requires
        0 <= i < s.len(),
    ensures
        count_sum(s.update(i, x)) == count_sum(s) - s[i].1 + x.1,
    decreases s.len(),
{
    if i < s.len() - 1 {
        lemma_count_sum_update(s.drop_last(), i, x);
        assert(s.update(i, x).drop_last() =~= s.drop_last().update(i, x));
    } else {
        assert(s.update(i, x).drop_last() =~= s.drop_last());
    }
}

impl HookInvocationCounts {
    /// The number of hook invocations counted.
    pub fn len(&self) -> (r: usize)
        requires
            count_sum(self.hid2ic@) <= usize::MAX,
        ensures
            r == count_sum(self.hid2ic@),
    {
        let mut sum: usize = 0;
        let mut i: usize = 0;
        while i < self.hid2ic.len()
            invariant
                i <= self.hid2ic@.len(),
                sum == count_sum(self.hid2ic@.take(i as int)),
                count_sum(self.hid2ic@) <= usize::MAX,
            decreases self.hid2ic@.len() - i,
        {
            proof {
                assert(self.hid2ic@.take(i + 1).drop_last() =~= self.hid2ic@.take(i as int));
                lemma_count_sum_prefix(self.hid2ic@, i + 1);
            }
            sum = sum + self.hid2ic[i].1 as usize;
            i += 1;
        }
        assert(self.hid2ic@.take(self.hid2ic@.len() as int) =~= self.hid2ic@);
        sum
    }

    /// No hook invocation was counted.
    pub fn is_empty(&self) -> (r: bool)
        requires
            count_sum(self.hid2ic@) <= usize::MAX,
        ensures
            r == (count_sum(self.hid2ic@) == 0),
    {
        self.len() == 0
    }
}

/// The name of the hook that a record of a hook trace reports: its line number and its process.
pub open spec fn record_hook_name(r: TraceRecord) -> Seq<char> {
    nat_text(r.line_number as nat) + seq![' '] + int_text(r.source as int)
}

/// The hook (as name and federate) that a record reports.
pub open spec fn record_hook(r: TraceRecord) -> (Seq<char>, i32) {
    (record_hook_name(r), r.source)
}

/// How many of the first `k` records report the same hook as record `k` does... or any given hook.
pub open spec fn hook_count(records: Seq<TraceRecord>, k: int, h: (Seq<char>, i32)) -> nat
    decreases k,
{
    if k <= 0 {
        0
    } else {
        hook_count(records, k - 1, h) + if record_hook(records[k - 1]) == h {
            1nat
        } else {
            0nat
        }
    }
}

/// Each record's sequence number counts the earlier records of its hook, and leaves room to add
/// one.
pub open spec fn sequence_numbers_consistent(records: Seq<TraceRecord>) -> bool {
    forall|k: int|
        0 <= k < records.len() ==> (#[trigger] records[k]).sequence_number_for_file_and_line
            == hook_count(records, k, record_hook(records[k]))
            && records[k].sequence_number_for_file_and_line < u32::MAX
}

/// Some entry of the counts is for the hook `h`.
pub open spec fn has_hook(hid2ic: Seq<(HookId, u32)>, h: (Seq<char>, i32)) -> bool {
    exists|i: int| 0 <= i < hid2ic.len() && hook_view(hid2ic[i].0) == h
}

/// The view of a hook.
pub open spec fn hook_view(h: HookId) -> (Seq<char>, i32) {
    (h.0@, h.1.0)
}

/// The processes of the first `k` records.
pub open spec fn processes(records: Seq<TraceRecord>, k: int) -> Set<i32> {
    Set::new(|p: i32| exists|m: int| 0 <= m < k && #[trigger] records[m].source == p)
}

/// The hook that a record reports.
fn hook_of(record: &TraceRecord) -> (r: HookId)
    ensures
        hook_view(r) == record_hook(*record),
{
    let mut name = decimal_chars(record.line_number as u64);
    name.push(' ');
    extend_chars(&mut name, &signed_decimal_chars(record.source as i64));
    HookId::new(string_from_chars(&name), FederateId(record.source))
}

/// The position of the hook in the counts, if it is there.
fn find_hook(hid2ic: &Vec<(HookId, u32)>, hid: &HookId) -> (r: Option<usize>)
    ensures
        r matches Some(i) ==> i < hid2ic@.len() && hook_view(hid2ic@[i as int].0) == hook_view(*hid),
        r is None ==> forall|i: int| 0 <= i < hid2ic@.len() ==> hook_view(hid2ic@[i].0) != hook_view(*hid),
{
    let mut i: usize = 0;
    while i < hid2ic.len()
        invariant
            i <= hid2ic@.len(),
            forall|m: int| 0 <= m < i ==> hook_view(hid2ic@[m].0) != hook_view(*hid),
        decreases hid2ic@.len() - i,
    {
        if hid2ic[i].0.0 == hid.0 && hid2ic[i].0.1.0 == hid.1.0 {
            return Some(i);
        }
        i += 1;
    }
    None
}

/// The counts of the hook invocations of a hook trace: for each hook, how many times it ran (one
/// entry per hook, in the order of first appearance); the invocation at each position; and the
/// number of distinct processes.
pub fn get_counts(hook_trace: &[TraceRecord]) -> (r: HookInvocationCounts)
    requires
        sequence_numbers_consistent(hook_trace@),
    ensures
        r.ogrank2hinvoc@.len() == hook_trace@.len(),
        forall|k: int|
            0 <= k < hook_trace@.len() ==> (#[trigger] r.ogrank2hinvoc@[k]).view() == (
                record_hook_name(hook_trace@[k]),
                hook_trace@[k].source,
                hook_trace@[k].sequence_number_for_file_and_line,
            ),
        forall|i: int, j: int|
            0 <= i < j < r.hid2ic@.len() ==> hook_view(r.hid2ic@[i].0) != hook_view(r.hid2ic@[j].0),
        forall|i: int|
            0 <= i < r.hid2ic@.len() ==> (#[trigger] r.hid2ic@[i]).1 == hook_count(
                hook_trace@,
                hook_trace@.len() as int,
                hook_view(r.hid2ic@[i].0),
            ),
        forall|k: int| 0 <= k < hook_trace@.len() ==> has_hook(r.hid2ic@, record_hook(#[trigger] hook_trace@[k])),
        r.n_processes == processes(hook_trace@, hook_trace@.len() as int).len(),
        count_sum(r.hid2ic@) == hook_trace@.len(),
{
    let n = hook_trace.len();
    let ghost recs = hook_trace@;
    let mut hid2ic: Vec<(HookId, u32)> = Vec::new();
    let mut ogrank2hinvoc: Vec<HookInvocation> = Vec::new();
    let mut process_ids: Vec<i32> = Vec::new();
    let mut k: usize = 0;
    proof {
        assert(process_ids@.to_set() =~= processes(recs, 0));
    }
    while k < n
        invariant
            n == recs.len(),
            recs == hook_trace@,
            sequence_numbers_consistent(recs),
            k <= n,
            ogrank2hinvoc@.len() == k,
            forall|m: int|
                0 <= m < k ==> (#[trigger] ogrank2hinvoc@[m]).view() == (
                    record_hook_name(recs[m]),
                    recs[m].source,
                    recs[m].sequence_number_for_file_and_line,
                ),
            forall|i: int, j: int|
                0 <= i < j < hid2ic@.len() ==> hook_view(hid2ic@[i].0) != hook_view(hid2ic@[j].0),
            forall|i: int|
                0 <= i < hid2ic@.len() ==> (#[trigger] hid2ic@[i]).1 == hook_count(
                    recs,
                    k as int,
                    hook_view(hid2ic@[i].0),
                ),
            forall|m: int| 0 <= m < k ==> has_hook(hid2ic@, record_hook(#[trigger] recs[m])),
            forall|h: (Seq<char>, i32)|
                (forall|i: int| 0 <= i < hid2ic@.len() ==> hook_view(hid2ic@[i].0) != h) ==> #[trigger] hook_count(recs, k as int, h) == 0,
            process_ids@.no_duplicates(),
            process_ids@.to_set() == processes(recs, k as int),
            count_sum(hid2ic@) == k,
        decreases n - k,
    {
        let record = &hook_trace[k];
        let hid = hook_of(record);
        let ghost h = record_hook(recs[k as int]);
        assert(recs[k as int].sequence_number_for_file_and_line == hook_count(recs, k as int, h));
        let pos = find_hook(&hid2ic, &hid);
        let prev: u32 = match pos {
            Some(i) => hid2ic[i].1,
            None => 0,
        };
        assert(prev == hook_count(recs, k as int, h));
        let next = prev + 1;
        let ghost pre = hid2ic@;
        match pos {
            Some(i) => {
                let entry = (HookId(hid2ic[i].0.0.clone(), hid2ic[i].0.1), next);
                hid2ic.set(i, entry);
            },
            None => {
                hid2ic.push((HookId(hid.0.clone(), hid.1), next));
            },
        }
        proof {
            match pos {
                Some(i) => {
                    lemma_count_sum_update(pre, i as int, hid2ic@[i as int]);
                    assert(hid2ic@ =~= pre.update(i as int, hid2ic@[i as int]));
                },
                None => {
                    assert(hid2ic@.drop_last() =~= pre);
                },
            }
            assert forall|i: int| 0 <= i < hid2ic@.len() implies (#[trigger] hid2ic@[i]).1 == hook_count(
                recs,
                k + 1,
                hook_view(hid2ic@[i].0),
            ) by {
                if i < pre.len() && hook_view(pre[i].0) != h {
                    assert(hid2ic@[i] == pre[i]);
                }
            }
            assert forall|a: int, b: int| 0 <= a < b < hid2ic@.len() implies hook_view(hid2ic@[a].0) != hook_view(hid2ic@[b].0) by {
                if b < pre.len() {
                    assert(hook_view(pre[a].0) != hook_view(pre[b].0));
                }
            }
            assert forall|hh: (Seq<char>, i32)|
                (forall|i: int| 0 <= i < hid2ic@.len() ==> hook_view(hid2ic@[i].0) != hh) implies #[trigger] hook_count(recs, k + 1, hh) == 0 by {
                if hh == h {
                    match pos {
                        Some(i) => {
                            assert(hook_view(hid2ic@[i as int].0) == hh);
                        },
                        None => {
                            assert(hook_view(hid2ic@[pre.len() as int].0) == hh);
                        },
                    }
                } else {
                    assert forall|i: int| 0 <= i < pre.len() implies hook_view(pre[i].0) != hh by {
                        assert(hook_view(hid2ic@[i].0) == hook_view(pre[i].0));
                    }
                    assert(hook_count(recs, k as int, hh) == 0);
                }
            }
            assert forall|m: int| 0 <= m < k + 1 implies has_hook(hid2ic@, record_hook(#[trigger] recs[m])) by {
                if m < k {
                    assert(has_hook(pre, record_hook(recs[m])));
                    let i = choose|i: int| 0 <= i < pre.len() && hook_view(pre[i].0) == record_hook(recs[m]);
                    assert(hook_view(hid2ic@[i].0) == hook_view(pre[i].0));
                } else {
                    match pos {
                        Some(i) => {
                            assert(hook_view(hid2ic@[i as int].0) == h);
                        },
                        None => {
                            assert(hook_view(hid2ic@[pre.len() as int].0) == h);
                        },
                    }
                }
            }
        }
        let seqnum = record.sequence_number_for_file_and_line;
        ogrank2hinvoc.push(HookInvocation { hid, seqnum: SequenceNumberByFileAndLine(seqnum) });
        let ghost pp = process_ids@;
        if !contains_i32(&process_ids, record.source) {
            process_ids.push(record.source);
            proof {
                assert forall|a: int, b: int| 0 <= a < b < process_ids@.len() implies process_ids@[a] != process_ids@[b] by {
                    if b == pp.len() {
                        assert(pp.contains(process_ids@[a]));
                    }
                }
            }
        }
        proof {
            assert forall|p: i32| process_ids@.to_set().contains(p) <==> processes(recs, k + 1).contains(p) by {
                if processes(recs, k + 1).contains(p) {
                    let m = choose|m: int| 0 <= m < k + 1 && #[trigger] recs[m].source == p;
                    if m < k {
                        assert(processes(recs, k as int).contains(p));
                        assert(pp.contains(p));
                        let j = choose|j: int| 0 <= j < pp.len() && pp[j] == p;
                        assert(process_ids@[j] == p);
                    } else if pp.contains(p) {
                        let j = choose|j: int| 0 <= j < pp.len() && pp[j] == p;
                        assert(process_ids@[j] == p);
                    } else {
                        assert(process_ids@[pp.len() as int] == p);
                    }
                }
                if process_ids@.contains(p) {
                    let j = choose|j: int| 0 <= j < process_ids@.len() && process_ids@[j] == p;
                    if j < pp.len() {
                        assert(pp.contains(p));
                        assert(pp.to_set().contains(p));
                        let m = choose|m: int| 0 <= m < k && #[trigger] recs[m].source == p;
                        assert(0 <= m < k + 1 && recs[m].source == p);
                    } else {
                        assert(recs[k as int].source == p);
                    }
                }
            }
            assert(process_ids@.to_set() =~= processes(recs, k + 1));
        }
        k += 1;
    }
    proof {
        process_ids@.unique_seq_to_set();
        assert forall|m: int| 0 <= m < hook_trace@.len() implies has_hook(hid2ic@, record_hook(#[trigger] hook_trace@[m])) by {
            assert(recs[m] == hook_trace@[m]);
        }
    }
    HookInvocationCounts { hid2ic, ogrank2hinvoc, n_processes: process_ids.len() }
}

fn contains_i32(v: &Vec<i32>, x: i32) -> (r: bool)
    ensures
        r == v@.contains(x),
{
    let mut i: usize = 0;
    while i < v.len()
        invariant
            i <= v@.len(),
            forall|j: int| 0 <= j < i ==> v@[j] != x,
        decreases v@.len() - i,
    {
        if v[i] == x {
            return true;
        }
        i += 1;
    }
    false
}

/// Whether a file written by a test run is a binary trace: its name ends with `.lft`.
pub fn is_trace_file_name(name: &str) -> (r: bool)
    ensures
        r == ends_with(name@, ".lft"@),
{
    ends_with_chars(&chars_of(name), &chars_of(".lft"))
}

/// Whether a file written by a test run is a trace in CSV form: its name ends with `.csv` and
/// it is not a summary (`summary.csv` does not occur in its name).
pub fn is_trace_csv_name(name: &str) -> (r: bool)
    ensures
        r == (ends_with(name@, ".csv"@) && !has_infix(name@, "summary.csv"@)),
{
    let c = chars_of(name);
    ends_with_chars(&c, &chars_of(".csv")) && !has_infix_chars(&c, &chars_of("summary.csv"))
}

/// Whether a file is a Lingua Franca program: the extension of its name (what follows its last
/// dot, where something comes before that dot) is `lf`.
pub fn is_lf_file_name(name: &str) -> (r: bool)
    ensures
        r == (ends_with(name@, ".lf"@) && name@.len() > 3),
{
    proof {
        reveal_strlit(".lf");
    }
    let c = chars_of(name);
    c.len() > 3 && ends_with_chars(&c, &chars_of(".lf"))
}

/// The SHA-256 digest of the bytes: a function of the bytes alone.
pub uninterp spec fn sha256_of(bytes: Seq<u8>) -> Seq<u8>;

/// `sha2::Sha256::digest`: the SHA-256 digest of the bytes, which is 32 bytes long.
#[verifier::external_body]
fn sha256(bytes: &[u8]) -> (r: Vec<u8>)
    ensures
        r@ == sha256_of(bytes@),
        r@.len() == 32,
{
    sha2::Sha256::digest(bytes).to_vec()
}

/// The identity of a test: the first 16 bytes of the SHA-256 digest of its path, read as a
/// number least significant byte first.
#[derive(Debug, Clone, Copy, PartialEq, Eq, Structural, Hash)]
pub struct TestId(pub u128);

/// The lowercase hexadecimal digit of `d`.
pub open spec fn hex_digit(d: int) -> char {
    if d < 10 {
        (d + '0' as int) as char
    } else {
        (d - 10 + 'a' as int) as char
    }
}

/// The `n` lowest hexadecimal digits of `v`, most significant first.
pub open spec fn hex_text(v: nat, n: nat) -> Seq<char>
    decreases n,
{
    if n == 0 {
        seq![]
    } else {
        hex_text(v / 16, (n - 1) as nat) + seq![hex_digit((v % 16) as int)]
    }
}

fn hex_digit_of(d: u32) -> (c: char)
    requires
        d < 16,
    ensures
        c == hex_digit(d as int),
{
    match d {
        0 => '0',
        1 => '1',
        2 => '2',
        3 => '3',
        4 => '4',
        5 => '5',
        6 => '6',
        7 => '7',
        8 => '8',
        9 => '9',
        10 => 'a',
        11 => 'b',
        12 => 'c',
        13 => 'd',
        14 => 'e',
        _ => 'f',
    }
}

impl TestId {
    /// The identity of the test whose path has these bytes.
    pub fn new(path_bytes: &[u8]) -> (r: TestId)
        ensures
            r.0 == vstd::bytes::spec_u128_from_le_bytes(sha256_of(path_bytes@).subrange(0, 16)),
    {
        let digest = sha256(path_bytes);
        let first = vstd::slice::slice_subrange(digest.as_slice(), 0, 16);
        TestId(vstd::bytes::u128_from_le_bytes(first))
    }

    /// The identity as 32 lowercase hexadecimal digits.
    pub fn to_string(&self) -> (r: String)
        ensures
            r@ == hex_text(self.0 as nat, 32),
    {
        let mut digits: Vec<char> = Vec::new();
        let mut v: u128 = self.0;
        let mut k: usize = 0;
        while k < 32
            invariant
                k <= 32,
                hex_text(self.0 as nat, 32) == hex_text(v as nat, (32 - k) as nat) + digits@,
            decreases 32 - k,
        {
            let c = hex_digit_of((v % 16) as u32);
            proof {
                assert(c == hex_digit((v % 16) as int));
                let m = (32 - k - 1) as nat;
                assert(hex_text(v as nat, (m + 1) as nat) == hex_text((v / 16) as nat, m) + seq![c]);
            }
            let ghost old_digits = digits@;
            digits.insert(0, c);
            proof {
                assert(digits@ =~= seq![c] + old_digits);
                assert(hex_text(self.0 as nat, 32) =~= hex_text((v / 16) as nat, (32 - k - 1) as nat) + digits@);
            }
            v = v / 16;
            k += 1;
        }
        proof {
            assert(hex_text(v as nat, 0) =~= Seq::<char>::empty());
            assert(hex_text(self.0 as nat, 32) =~= digits@);
        }
        string_from_chars(&digits)
    }
}

/// How much a test run is worth running again.
#[derive(Debug, PartialEq, Eq, Structural, Hash, Clone, Copy, PartialOrd, Ord)]
pub struct Interestingness(pub u32);

/// A hash of the parts of a trace that are compared coarsely.
#[derive(Debug, PartialEq, Eq, Structural, Hash, Clone, Copy)]
pub struct CoarseTraceHash(pub u64);

/// A hash of all the recorded parts of a trace.
#[derive(Debug, PartialEq, Eq, Structural, Hash, Clone, Copy)]
pub struct FineTraceHash(pub u64);

/// The coarse and the fine hash of a trace.
#[derive(Debug, PartialEq, Eq, Structural, Clone, Copy)]
pub struct TraceHash(pub CoarseTraceHash, pub FineTraceHash);

/// What a hasher holds after a string is fed to it as `Hash::hash` for `str` feeds it: the
/// string's UTF-8 bytes, then the byte `0xff` (which no UTF-8 text holds).
pub open spec fn str_hashed(before: Seq<Seq<u8>>, s: Seq<char>) -> Seq<Seq<u8>> {
    before.push(encode_utf8(s)).push(seq![0xffu8])
}

/// The bytes that an `i32` is fed to a hasher as: its two's-complement form, least
/// significant byte first.
pub open spec fn i32_bytes(x: i32) -> Seq<u8> {
    vstd::bytes::spec_u32_to_le_bytes(x as u32)
}

/// The bytes that an `i64` is fed to a hasher as: its two's-complement form, least
/// significant byte first.
pub open spec fn i64_bytes(x: i64) -> Seq<u8> {
    vstd::bytes::spec_u64_to_le_bytes(x as u64)
}

/// The bytes that a `u64` is fed to a hasher as, least significant byte first.
pub open spec fn u64_bytes(x: u64) -> Seq<u8> {
    vstd::bytes::spec_u64_to_le_bytes(x)
}

/// Feeds a string to the hasher as `Hash::hash` for `str` does: its bytes, then the byte `0xff`.
fn hash_str(s: &str, h: &mut DefaultHasher)
    ensures
        final(h)@ == str_hashed(old(h)@, s@),
{
    let bytes = s.as_bytes();
    assert(bytes@ == encode_utf8(s@));
    h.write(bytes);
    let end: Vec<u8> = vec![0xffu8];
    assert(end@ =~= seq![0xffu8]);
    h.write(end.as_slice());
}

/// Feeds an `i32` to the hasher as one write of its four bytes, least significant first, so
/// that the hash is the same on every machine.
fn hash_i32(x: i32, h: &mut DefaultHasher)
    ensures
        final(h)@ == old(h)@.push(i32_bytes(x)),
{
    let bytes = vstd::bytes::u32_to_le_bytes(x as u32);
    h.write(bytes.as_slice());
}

/// Feeds an `i64` to the hasher as one write of its eight bytes, least significant first.
fn hash_i64(x: i64, h: &mut DefaultHasher)
    ensures
        final(h)@ == old(h)@.push(i64_bytes(x)),
{
    let bytes = vstd::bytes::u64_to_le_bytes(x as u64);
    h.write(bytes.as_slice());
}

/// Feeds a `u64` to the hasher as one write of its eight bytes, least significant first.
fn hash_u64(x: u64, h: &mut DefaultHasher)
    ensures
        final(h)@ == old(h)@.push(u64_bytes(x)),
{
    let bytes = vstd::bytes::u64_to_le_bytes(x);
    h.write(bytes.as_slice());
}

/// What the coarse hasher holds after a record: the kind of event, the destination, the time if
/// it is not negative, and the microstep.
pub open spec fn coarse_fed(before: Seq<Seq<u8>>, tr: TraceRecord) -> Seq<Seq<u8>> {
    let h = str_hashed(before, tr.event@).push(i32_bytes(tr.destination));
    let h = if tr.elapsed_logical_time >= 0 { h.push(i64_bytes(tr.elapsed_logical_time)) } else { h };
    h.push(i64_bytes(tr.microstep))
}

/// What the fine hasher holds after a record: the kind of event, the reactor, the source, the
/// destination, the time if it is not negative, the microstep, the trigger and the extra delay.
pub open spec fn fine_fed(before: Seq<Seq<u8>>, tr: TraceRecord) -> Seq<Seq<u8>> {
    let h = str_hashed(before, tr.event@);
    let h = str_hashed(h, tr.reactor@);
    let h = h.push(i32_bytes(tr.source));
    let h = h.push(i32_bytes(tr.destination));
    let h = if tr.elapsed_logical_time >= 0 { h.push(i64_bytes(tr.elapsed_logical_time)) } else { h };
    let h = h.push(i64_bytes(tr.microstep));
    let h = str_hashed(h, tr.trigger@);
    h.push(u64_bytes(tr.extra_delay))
}

/// What the hashers hold after the records, in order.
pub open spec fn coarse_fed_all(before: Seq<Seq<u8>>, trs: Seq<TraceRecord>) -> Seq<Seq<u8>>
    decreases trs.len(),
{
    if trs.len() == 0 {
        before
    } else {
        coarse_fed(coarse_fed_all(before, trs.drop_last()), trs.last())
    }
}

/// What the fine hasher holds after the records, in order.
pub open spec fn fine_fed_all(before: Seq<Seq<u8>>, trs: Seq<TraceRecord>) -> Seq<Seq<u8>>
    decreases trs.len(),
{
    if trs.len() == 0 {
        before
    } else {
        fine_fed(fine_fed_all(before, trs.drop_last()), trs.last())
    }
}

/// Two records agree on every field that the hashers are fed: the kind of event, the reactor,
/// the source, the destination, the microstep, the trigger, the extra delay, and the time (or
/// both times are negative).
pub open spec fn same_hashed_fields(a: TraceRecord, b: TraceRecord) -> bool {
    &&& a.event@ == b.event@
    &&& a.reactor@ == b.reactor@
    &&& a.source == b.source
    &&& a.destination == b.destination
    &&& a.microstep == b.microstep
    &&& a.trigger@ == b.trigger@
    &&& a.extra_delay == b.extra_delay
    &&& (a.elapsed_logical_time == b.elapsed_logical_time || (a.elapsed_logical_time < 0 && b.elapsed_logical_time < 0))
}

/// Traces whose records agree, one by one, on the fields that are hashed get the same coarse and
/// fine hashes: the physical time, the file, the line and the sequence numbers do not count.
pub proof fn lemma_trace_hash_ignores_unhashed(before: Seq<Seq<u8>>, a: Seq<TraceRecord>, b: Seq<TraceRecord>)
    requires
        a.len() == b.len(),
        forall|i: int| 0 <= i < a.len() ==> #[trigger] same_hashed_fields(a[i], b[i]),
    ensures
        coarse_fed_all(before, a) == coarse_fed_all(before, b),
        fine_fed_all(before, a) == fine_fed_all(before, b),
    decreases a.len(),
{
    if a.len() > 0 {
        let n = a.len() - 1;
        assert forall|i: int| 0 <= i < a.drop_last().len() implies #[trigger] same_hashed_fields(a.drop_last()[i], b.drop_last()[i]) by {
            assert(same_hashed_fields(a[i], b[i]));
        }
        lemma_trace_hash_ignores_unhashed(before, a.drop_last(), b.drop_last());
        assert(same_hashed_fields(a[n], b[n]));
    }
}

/// What a fresh hasher holds after the fields of a record that identify its trace point: the kind
/// of event, the reactor, the source, the destination, the time, the microstep, the trigger and
/// the extra delay.
pub open spec fn point_fed(tr: TraceRecord) -> Seq<Seq<u8>> {
    let h = str_hashed(seq![], tr.event@);
    let h = str_hashed(h, tr.reactor@);
    let h = h.push(i32_bytes(tr.source));
    let h = h.push(i32_bytes(tr.destination));
    let h = h.push(i64_bytes(tr.elapsed_logical_time));
    let h = h.push(i64_bytes(tr.microstep));
    let h = str_hashed(h, tr.trigger@);
    h.push(u64_bytes(tr.extra_delay))
}

/// The hash of the fields of a record that identify its trace point.
pub fn point_hash(tr: &TraceRecord) -> (r: u64)
    ensures
        r == DefaultHasher::spec_finish(point_fed(*tr)),
{
    let mut h = DefaultHasher::new();
    hash_str(tr.event.as_str(), &mut h);
    hash_str(tr.reactor.as_str(), &mut h);
    hash_i32(tr.source, &mut h);
    hash_i32(tr.destination, &mut h);
    hash_i64(tr.elapsed_logical_time, &mut h);
    hash_i64(tr.microstep, &mut h);
    hash_str(tr.trigger.as_str(), &mut h);
    hash_u64(tr.extra_delay, &mut h);
    h.finish()
}

/// Hashes a trace record by record, coarsely and finely.
pub struct TraceHasher {
    coarse: DefaultHasher,
    fine: DefaultHasher,
}

impl TraceHasher {
    /// The records that the coarse hasher has been fed, as its state.
    pub closed spec fn coarse_state(&self) -> Seq<Seq<u8>> {
        self.coarse@
    }

    /// The records that the fine hasher has been fed, as its state.
    pub closed spec fn fine_state(&self) -> Seq<Seq<u8>> {
        self.fine@
    }

    /// Feeds a record to both hashers.
    pub fn update(&mut self, tr: &TraceRecord)
        ensures
            final(self).coarse_state() == coarse_fed(old(self).coarse_state(), *tr),
            final(self).fine_state() == fine_fed(old(self).fine_state(), *tr),
    {
        hash_str(tr.event.as_str(), &mut self.coarse);
        hash_i32(tr.destination, &mut self.coarse);
        if tr.elapsed_logical_time >= 0 {
            hash_i64(tr.elapsed_logical_time, &mut self.coarse);
        }
        hash_i64(tr.microstep, &mut self.coarse);
        hash_str(tr.event.as_str(), &mut self.fine);
        hash_str(tr.reactor.as_str(), &mut self.fine);
        hash_i32(tr.source, &mut self.fine);
        hash_i32(tr.destination, &mut self.fine);
        if tr.elapsed_logical_time >= 0 {
            hash_i64(tr.elapsed_logical_time, &mut self.fine);
        }
        hash_i64(tr.microstep, &mut self.fine);
        hash_str(tr.trigger.as_str(), &mut self.fine);
        hash_u64(tr.extra_delay, &mut self.fine);
    }

    /// The coarse and the fine hash of what the hashers were fed.
    pub fn finish(self) -> (r: TraceHash)
        ensures
            r == TraceHash(
                CoarseTraceHash(DefaultHasher::spec_finish(self.coarse_state())),
                FineTraceHash(DefaultHasher::spec_finish(self.fine_state())),
            ),
    {
        TraceHash(CoarseTraceHash(self.coarse.finish()), FineTraceHash(self.fine.finish()))
    }
}

impl Default for TraceHasher {
    fn default() -> (r: Self)
        ensures
            r.coarse_state() == Seq::<Seq<u8>>::empty(),
            r.fine_state() == Seq::<Seq<u8>>::empty(),
    {
        TraceHasher { coarse: DefaultHasher::new(), fine: DefaultHasher::new() }
    }
}

/// Hashes a whole trace: what a default hasher gives after it has been fed every record in
/// order.
pub fn trace_hash(trs: &Vec<TraceRecord>) -> (r: TraceHash)
    ensures
        r == TraceHash(
            CoarseTraceHash(DefaultHasher::spec_finish(coarse_fed_all(seq![], trs@))),
            FineTraceHash(DefaultHasher::spec_finish(fine_fed_all(seq![], trs@))),
        ),
{
    let mut h = TraceHasher::default();
    let mut i: usize = 0;
    while i < trs.len()
        invariant
            i <= trs@.len(),
            h.coarse_state() == coarse_fed_all(seq![], trs@.take(i as int)),
            h.fine_state() == fine_fed_all(seq![], trs@.take(i as int)),
        decreases trs@.len() - i,
    {
        h.update(&trs[i]);
        assert(trs@.take(i + 1).drop_last() =~= trs@.take(i as int));
        i += 1;
    }
    assert(trs@.take(trs@.len() as int) =~= trs@);
    h.finish()
}

} // verus!
