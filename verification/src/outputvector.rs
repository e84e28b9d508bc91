//! Compact storage of observed orders: each order is cut into chunks, the chunks and the pairs of
//! parts above them are kept once in a registry shared by all orders, and an order is the index of
//! its root in the registry.
use vstd::prelude::*;
use std::collections::hash_map::DefaultHasher;
use vstd::std_specs::hash::DefaultHasherAdditionalSpecFns;
use crate::harness::{coarse_fed_all, fine_fed_all, point_fed, point_hash, trace_hash, CoarseTraceHash, FineTraceHash, TraceHash};
use crate::trace::TraceRecord;
use crate::transpositions::{CurRank, OgRank, OgRank2CurRank};

verus! {

/// The number of positions in a chunk.
pub const OUTPUT_VECTOR_CHUNK_SIZE: usize = 32;

/// The index of a node in the registry.
#[derive(Debug, Clone, Copy, PartialEq, Eq, Structural, Hash, Default)]
pub struct OutputVectorNodeIdx(pub u64);

/// The observed positions of a chunk of original positions, each relative to the chunk's first
/// original position; the default value marks a position that was not observed.
#[derive(Debug, Clone, Copy)]
pub struct OutputVectorChunk {
    pub rel_ranks: [i32; 32],
}

/// A part made of two halves.
#[derive(Debug, Clone, Copy)]
pub struct OutputVectorNodePair {
    pub left: OutputVectorNodeIdx,
    pub right: Option<OutputVectorNodeIdx>,
}

/// A node of the registry.
#[derive(Debug, Clone, Copy)]
pub enum OutputVectorNode {
    Leaf(OutputVectorChunk),
    Node(OutputVectorNodePair),
}

/// An observed order, stored in a registry.
#[derive(Debug, Clone, Copy)]
pub struct OutputVector {
    pub data: OutputVectorNodeIdx,
    pub len: usize,
}

/// The registry of nodes, shared by the orders stored in it.
#[derive(Debug)]
pub struct OvrReg {
    pub idx2node: Vec<OutputVectorNode>,
    pub idx2node_saved_up_to: OutputVectorNodeIdx,
}

/// The nodes added to a registry since it was last saved, with their indices.
#[derive(Debug)]
pub struct OvrDelta {
    pub idx2node: Vec<(usize, OutputVectorNode)>,
}

// ---------------------------------------------------------------------------------------------
// Powers of two
// ---------------------------------------------------------------------------------------------

pub open spec fn is_pow2(p: nat) -> bool
    decreases p,
{
    if p == 1 {
        true
    } else if p == 0 || p % 2 != 0 {
        false
    } else {
        is_pow2(p / 2)
    }
}

/// The least power of two, doubling from `p`, that is at least `n`.
pub open spec fn pow2_from(n: nat, p: nat) -> nat
    decreases (if p >= n { 0 } else { n - p }),
{
    if p == 0 || p >= n {
        p
    } else {
        pow2_from(n, 2 * p)
    }
}

/// The least power of two that is at least `n`, as `usize::next_power_of_two` gives it.
pub open spec fn next_pow2(n: nat) -> nat {
    pow2_from(n, 1)
}

/// Where a part of `n` positions is cut: half the next power of two.
pub open spec fn split_at(n: nat) -> nat {
    next_pow2(n) / 2
}

/// `n` rounded up to a whole number of chunks.
pub open spec fn rounded_up(n: nat) -> nat {
    ((n - 1) / 32 * 32 + 32) as nat
}

pub proof fn lemma_pow2_from(n: nat, p: nat)
    requires
        is_pow2(p),
    ensures
        is_pow2(pow2_from(n, p)),
        pow2_from(n, p) >= n,
        pow2_from(n, p) == p || pow2_from(n, p) / 2 < n,
    decreases (if p >= n { 0 } else { n - p }),
{
    if p < n {
        assert(is_pow2(2 * p)) by {
            assert((2 * p) % 2 == 0);
            assert((2 * p) / 2 == p);
        }
        lemma_pow2_from(n, 2 * p);
        assert((2 * p) / 2 == p);
    }
}

pub proof fn lemma_pow2_shapes(p: nat)
    requires
        is_pow2(p),
    ensures
        p == 1 || p == 2 || p == 4 || p == 8 || p == 16 || p % 32 == 0,
        p >= 1,
    decreases p,
{
    if p != 1 {
        lemma_pow2_shapes(p / 2);
    }
}

pub proof fn lemma_pow2_double(a: nat, b: nat)
    requires
        is_pow2(a),
        is_pow2(b),
        a < b,
    ensures
        2 * a <= b,
    decreases b,
{
    lemma_pow2_shapes(a);
    lemma_pow2_shapes(b);
    if a == 1 {
    } else {
        lemma_pow2_double(a / 2, b / 2);
    }
}

/// The next power of two of `n` is the power of two `p` with `p / 2 < n <= p`.
pub proof fn lemma_next_pow2_unique(n: nat, p: nat)
    requires
        n >= 2,
        is_pow2(p),
        p / 2 < n <= p,
    ensures
        next_pow2(n) == p,
{
    lemma_pow2_from(n, 1);
    let q = next_pow2(n);
    if q < p {
        lemma_pow2_double(q, p);
    } else if p < q {
        lemma_pow2_double(p, q);
    }
}

/// A part of more than one chunk is cut into a whole number of chunks, and at least one chunk
/// follows the cut; cutting its rounded-up length gives the same halves.
pub proof fn lemma_split(n: nat)
    requires
        n > 32,
    ensures
        split_at(n) % 32 == 0,
        32 <= split_at(n) < n,
        split_at(rounded_up(n)) == split_at(n),
        rounded_up(n) == split_at(n) + rounded_up((n - split_at(n)) as nat),
        rounded_up(n) % 32 == 0,
        rounded_up(n) > 32,
{
    lemma_pow2_from(n, 1);
    let p = next_pow2(n);
    lemma_pow2_shapes(p);
    lemma_pow2_shapes(p / 2);
    assert(is_pow2(p / 2)) by {
        assert(p != 1);
    }
    let r = rounded_up(n);
    assert(r % 32 == 0 && r >= n && r < n + 32 && r > 32) by (nonlinear_arith)
        requires
            r == (n - 1) / 32 * 32 + 32,
            n > 32,
    ;
    assert(r <= p) by (nonlinear_arith)
        requires
            r == (n - 1) / 32 * 32 + 32,
            n <= p,
            p % 32 == 0,
            n > 32,
    ;
    lemma_next_pow2_unique(r, p);
    let m = p / 2;
    assert(rounded_up((n - m) as nat) + m == r) by (nonlinear_arith)
        requires
            m % 32 == 0,
            m < n,
            r == (n - 1) / 32 * 32 + 32,
    ;
}

/// `usize::next_power_of_two`.
fn next_power_of_two(n: usize) -> (r: usize)
    requires
        n <= 0x8000_0000,
    ensures
        r == next_pow2(n as nat),
{
    let mut p: usize = 1;
    while p < n
        invariant
            1 <= p,
            n <= 0x8000_0000,
            pow2_from(n as nat, p as nat) == next_pow2(n as nat),
        decreases (if p < n { n - p } else { 0 }),
    {
        p = p * 2;
    }
    p
}

// ---------------------------------------------------------------------------------------------
// What a node stands for
// ---------------------------------------------------------------------------------------------

/// Unpacking node `id` into `len` positions whose first original position is `start`, with
/// `dflt` the default rank, runs to its end: the node exists, the length is a whole number of
/// chunks matching the node's shape, and no arithmetic overflows.
pub open spec fn unpack_ok(reg: Seq<OutputVectorNode>, id: nat, len: nat, start: nat, dflt: u32) -> bool
    decreases len,
{
    if id >= reg.len() || len % 32 != 0 || len == 0 || start + len > 0x8000_0000 {
        false
    } else {
        match reg[id as int] {
            OutputVectorNode::Leaf(c) => len == 32 && forall|i: int|
                0 <= i < 32 ==> (#[trigger] c.rel_ranks@[i] == dflt as i32 || i32::MIN <= c.rel_ranks@[i] + start <= i32::MAX),
            OutputVectorNode::Node(p) => {
                if len <= 32 {
                    false
                } else {
                    let mid = split_at(len);
                    proof {
                        lemma_split(len);
                    }
                    unpack_ok(reg, p.left.0 as nat, mid, start, dflt) && match p.right {
                        Some(r) => unpack_ok(reg, r.0 as nat, (len - mid) as nat, start + mid, dflt),
                        None => true,
                    }
                }
            },
        }
    }
}

/// The ranks that unpacking node `id` writes into `len` positions whose first original position
/// is `start`; positions that the node leaves alone keep the default rank `dflt`.
pub open spec fn unpack_seq(reg: Seq<OutputVectorNode>, id: nat, len: nat, start: nat, dflt: u32) -> Seq<CurRank>
    decreases len,
{
    if !unpack_ok(reg, id, len, start, dflt) {
        Seq::new(len, |i: int| CurRank(dflt))
    } else {
        match reg[id as int] {
            OutputVectorNode::Leaf(c) => Seq::new(
                32,
                |i: int|
                    if c.rel_ranks@[i] == dflt as i32 {
                        CurRank(dflt)
                    } else {
                        CurRank((c.rel_ranks@[i] + start) as u32)
                    },
            ),
            OutputVectorNode::Node(p) => {
                let mid = split_at(len);
                proof {
                    lemma_split(len);
                }
                unpack_seq(reg, p.left.0 as nat, mid, start, dflt) + match p.right {
                    Some(r) => unpack_seq(reg, r.0 as nat, (len - mid) as nat, start + mid, dflt),
                    None => Seq::new((len - mid) as nat, |i: int| CurRank(dflt)),
                }
            },
        }
    }
}

/// Every node refers only to nodes registered before it.
pub open spec fn reg_wf(reg: Seq<OutputVectorNode>) -> bool {
    forall|j: int| 0 <= j < reg.len() ==> match #[trigger] reg[j] {
        OutputVectorNode::Leaf(_) => true,
        OutputVectorNode::Node(p) => p.left.0 < j && match p.right {
            Some(r) => r.0 < j,
            None => true,
        },
    }
}

impl OvrReg {
    pub open spec fn wf(&self) -> bool {
        reg_wf(self.idx2node@)
    }
}

/// Registering more nodes does not change what the nodes already registered stand for.
pub proof fn lemma_registry_extension(reg: Seq<OutputVectorNode>, more: Seq<OutputVectorNode>, id: nat, len: nat, start: nat, dflt: u32)
    requires
        unpack_ok(reg, id, len, start, dflt),
    ensures
        unpack_ok(reg + more, id, len, start, dflt),
        unpack_seq(reg + more, id, len, start, dflt) == unpack_seq(reg, id, len, start, dflt),
    decreases len,
{
    let ext = reg + more;
    assert(ext[id as int] == reg[id as int]);
    match reg[id as int] {
        OutputVectorNode::Leaf(c) => {},
        OutputVectorNode::Node(p) => {
            lemma_split(len);
            let mid = split_at(len);
            lemma_registry_extension(reg, more, p.left.0 as nat, mid, start, dflt);
            match p.right {
                Some(r) => {
                    lemma_registry_extension(reg, more, r.0 as nat, (len - mid) as nat, start + mid, dflt);
                },
                None => {},
            }
        },
    }
}

// ---------------------------------------------------------------------------------------------
// Unpacking
// ---------------------------------------------------------------------------------------------

/// Writes the ranks that node `id` stands for into `out[offset..offset + len]`, which holds the
/// default rank.
fn unpack_rec(id: OutputVectorNodeIdx, reg: &OvrReg, out: &mut Vec<CurRank>, offset: usize, len: usize, start: u32, dflt: CurRank)
    requires
        unpack_ok(reg.idx2node@, id.0 as nat, len as nat, start as nat, dflt.0),
        offset + len <= old(out).len(),
        forall|i: int| offset <= i < offset + len ==> #[trigger] old(out)@[i] == CurRank(dflt.0),
    ensures
        final(out).len() == old(out).len(),
        final(out)@.subrange(offset as int, offset + len) == unpack_seq(reg.idx2node@, id.0 as nat, len as nat, start as nat, dflt.0),
        forall|i: int| 0 <= i < old(out).len() && !(offset <= i < offset + len) ==> #[trigger] final(out)@[i] == old(out)@[i],
    decreases len,
{
    assert(id.0 < reg.idx2node.len());
    let node = reg.idx2node[id.0 as usize];
    assert(reg.idx2node@[id.0 as int] == node);
    match node {
        OutputVectorNode::Leaf(c) => {
            let ghost target = Seq::new(
                32,
                |q: int|
                    if c.rel_ranks@[q] == dflt.0 as i32 {
                        CurRank(dflt.0)
                    } else {
                        CurRank((c.rel_ranks@[q] + start) as u32)
                    },
            );
            assert(len == 32);
            assert(unpack_seq(reg.idx2node@, id.0 as nat, len as nat, start as nat, dflt.0) == target);
            let mut i: usize = 0;
            while i < 32
                invariant
                    i <= 32,
                    len == 32,
                    offset + len <= out.len(),
                    out.len() == old(out).len(),
                    reg.idx2node@[id.0 as int] == OutputVectorNode::Leaf(c),
                    unpack_ok(reg.idx2node@, id.0 as nat, len as nat, start as nat, dflt.0),
                    target == unpack_seq(reg.idx2node@, id.0 as nat, len as nat, start as nat, dflt.0),
                    target == Seq::new(
                        32,
                        |q: int|
                            if c.rel_ranks@[q] == dflt.0 as i32 {
                                CurRank(dflt.0)
                            } else {
                                CurRank((c.rel_ranks@[q] + start) as u32)
                            },
                    ),
                    forall|q: int| 0 <= q < 32 ==> (#[trigger] c.rel_ranks@[q] == dflt.0 as i32 || i32::MIN <= c.rel_ranks@[q] + start <= i32::MAX),
                    start + len <= 0x8000_0000,
                    forall|q: int| 0 <= q < i ==> #[trigger] out@[offset + q] == target[q],
                    forall|q: int| i <= q < 32 ==> #[trigger] old(out)@[offset + q] == CurRank(dflt.0),
                    forall|q: int| i <= q < 32 ==> #[trigger] out@[offset + q] == old(out)@[offset + q],
                    forall|q: int| 0 <= q < old(out).len() && !(offset <= q < offset + len) ==> #[trigger] out@[q] == old(out)@[q],
                decreases 32 - i,
            {
                let rank = c.rel_ranks[i];
                assert(rank == c.rel_ranks@[i as int]);
                if rank != dflt.0 as i32 {
                    assert(i32::MIN <= c.rel_ranks@[i as int] + start <= i32::MAX);
                    out.set(offset + i, CurRank((rank + start as i32) as u32));
                } else {
                    assert(out@[offset + i] == old(out)@[offset + i]);
                }
                i = i + 1;
            }
            assert forall|q: int| 0 <= q < 32 implies #[trigger] out@.subrange(offset as int, offset + len)[q] == target[q] by {
                assert(out@[offset + q] == target[q]);
            }
            assert(out@.subrange(offset as int, offset + len) =~= target);
        },
        OutputVectorNode::Node(p) => {
            proof {
                lemma_split(len as nat);
            }
            let mid = next_power_of_two(len) / 2;
            let ghost before = out@;
            unpack_rec(p.left, reg, out, offset, mid, start, dflt);
            let ghost middle = out@;
            match p.right {
                Some(r) => {
                    unpack_rec(r, reg, out, offset + mid, len - mid, start + mid as u32, dflt);
                },
                None => {},
            }
            proof {
                let whole = unpack_seq(reg.idx2node@, id.0 as nat, len as nat, start as nat, dflt.0);
                let left = unpack_seq(reg.idx2node@, p.left.0 as nat, mid as nat, start as nat, dflt.0);
                assert(middle.subrange(offset as int, offset + mid) == left);
                assert forall|q: int| 0 <= q < len implies #[trigger] out@.subrange(offset as int, offset + len)[q] == whole[q] by {
                    if q < mid {
                        assert(out@[offset + q] == middle[offset + q]);
                        assert(middle.subrange(offset as int, offset + mid)[q] == middle[offset + q]);
                    } else {
                        match p.right {
                            Some(r) => {
                                let right = unpack_seq(reg.idx2node@, r.0 as nat, (len - mid) as nat, (start + mid) as nat, dflt.0);
                                assert(out@.subrange(offset + mid, offset + len)[q - mid] == out@[offset + q]);
                            },
                            None => {
                                assert(out@[offset + q] == before[offset + q]);
                            },
                        }
                    }
                }
                assert(out@.subrange(offset as int, offset + len) =~= whole);
            }
        },
    }
}

impl OutputVector {
    /// The number of positions that unpacking gives: the length rounded up to whole chunks.
    pub open spec fn unpacked_len(&self) -> nat {
        rounded_up(self.len as nat)
    }

    /// Unpacking this order from the registry runs to its end.
    pub open spec fn unpacks(&self, reg: &OvrReg) -> bool {
        self.len >= 1 && unpack_ok(reg.idx2node@, self.data.0 as nat, self.unpacked_len(), 0, self.len as u32)
    }

    /// The observed position of each original position, rounded up to whole chunks, with the
    /// default rank (the length) where none was observed.
    pub fn unpack(&self, ovr: &OvrReg) -> (r: Vec<CurRank>)
        requires
            self.unpacks(ovr),
        ensures
            r@ == unpack_seq(ovr.idx2node@, self.data.0 as nat, self.unpacked_len(), 0, self.len as u32),
    {
        let rounded_up_len = (self.len - 1) / 32 * 32 + 32;
        let default = CurRank(self.len as u32);
        let mut ret: Vec<CurRank> = Vec::new();
        let mut i: usize = 0;
        while i < rounded_up_len
            invariant
                i <= rounded_up_len,
                ret.len() == i,
                forall|q: int| 0 <= q < i ==> #[trigger] ret@[q] == default,
            decreases rounded_up_len - i,
        {
            ret.push(default);
            i = i + 1;
        }
        unpack_rec(self.data, ovr, &mut ret, 0, rounded_up_len, 0, default);
        assert(ret@.subrange(0, rounded_up_len as int) =~= ret@);
        ret
    }
}

// ---------------------------------------------------------------------------------------------
// Packing
// ---------------------------------------------------------------------------------------------

/// What unpacking gives for the `n` positions of `ov` from `start` (a whole number of chunks
/// into `ov`), rounded up to whole chunks, where `d` is the default rank: the observed rank,
/// except where it is the default relative to its chunk, and the default past the end.
pub open spec fn packed_view(ov: Seq<CurRank>, start: nat, n: nat, d: nat) -> Seq<CurRank> {
    Seq::new(
        rounded_up(n),
        |i: int|
            if i < n && ov[start + i].0 - (start + i - i % 32) != d {
                ov[start + i]
            } else {
                CurRank(d as u32)
            },
    )
}

fn chunks_equal(a: &[i32; 32], b: &[i32; 32]) -> (r: bool)
    ensures
        r == (*a == *b),
{
    let mut i: usize = 0;
    while i < 32
        invariant
            i <= 32,
            forall|q: int| 0 <= q < i ==> a@[q] == b@[q],
        decreases 32 - i,
    {
        if a[i] != b[i] {
            return false;
        }
        i = i + 1;
    }
    assert(a@ =~= b@);
    proof {
        lemma_array_ext(*a, *b);
    }
    true
}

proof fn lemma_array_ext(a: [i32; 32], b: [i32; 32])
    requires
        a@ == b@,
    ensures
        a == b,
{
}

fn nodes_equal(a: &OutputVectorNode, b: &OutputVectorNode) -> (r: bool)
    ensures
        r == (*a == *b),
{
    match (a, b) {
        (OutputVectorNode::Leaf(x), OutputVectorNode::Leaf(y)) => chunks_equal(&x.rel_ranks, &y.rel_ranks),
        (OutputVectorNode::Node(x), OutputVectorNode::Node(y)) => {
            x.left.0 == y.left.0 && match (x.right, y.right) {
                (Some(p), Some(q)) => p.0 == q.0,
                (None, None) => true,
                _ => false,
            }
        },
        _ => false,
    }
}

/// The nodes registered from position `k` on are each equal to no node registered before them.
pub open spec fn fresh_from(reg: Seq<OutputVectorNode>, k: int) -> bool {
    forall|i: int, j: int| 0 <= j < i < reg.len() && k <= i ==> #[trigger] reg[j] != #[trigger] reg[i]
}

/// The index of a node equal to `node`, the last one registered if there are several.
fn lookup(reg: &OvrReg, node: &OutputVectorNode) -> (r: Option<usize>)
    ensures
        match r {
            Some(i) => i < reg.idx2node.len() && reg.idx2node@[i as int] == *node
                && forall|q: int| i < q < reg.idx2node.len() ==> reg.idx2node@[q] != *node,
            None => forall|i: int| 0 <= i < reg.idx2node.len() ==> reg.idx2node@[i] != *node,
        },
{
    let mut i: usize = reg.idx2node.len();
    while i > 0
        invariant
            i <= reg.idx2node.len(),
            forall|q: int| i <= q < reg.idx2node.len() ==> reg.idx2node@[q] != *node,
        decreases i,
    {
        if nodes_equal(&reg.idx2node[i - 1], node) {
            return Some(i - 1);
        }
        i = i - 1;
    }
    None
}

/// Registers `node` unless an equal node is registered, and gives its index.
fn intern(reg: &mut OvrReg, node: OutputVectorNode) -> (r: OutputVectorNodeIdx)
    requires
        old(reg).wf(),
        match node {
            OutputVectorNode::Leaf(_) => true,
            OutputVectorNode::Node(p) => p.left.0 < old(reg).idx2node.len() && match p.right {
                Some(q) => q.0 < old(reg).idx2node.len(),
                None => true,
            },
        },
    ensures
        final(reg).wf(),
        final(reg).idx2node@.take(old(reg).idx2node.len() as int) == old(reg).idx2node@,
        (exists|i: int| 0 <= i < old(reg).idx2node.len() && old(reg).idx2node@[i] == node)
            ==> final(reg).idx2node@ == old(reg).idx2node@,
        !(exists|i: int| 0 <= i < old(reg).idx2node.len() && old(reg).idx2node@[i] == node)
            ==> final(reg).idx2node@ == old(reg).idx2node@.push(node),
        final(reg).idx2node_saved_up_to == old(reg).idx2node_saved_up_to,
        r.0 < final(reg).idx2node.len(),
        final(reg).idx2node@[r.0 as int] == node,
        fresh_from(final(reg).idx2node@, old(reg).idx2node.len() as int),
{
    match lookup(reg, &node) {
        Some(i) => {
            assert(reg.idx2node@.take(reg.idx2node.len() as int) =~= reg.idx2node@);
            OutputVectorNodeIdx(i as u64)
        },
        None => {
            let id = OutputVectorNodeIdx(reg.idx2node.len() as u64);
            let ghost before = reg.idx2node@;
            reg.idx2node.push(node);
            assert(reg.idx2node@.take(before.len() as int) =~= before);
            assert forall|i: int, j: int|
                0 <= j < i < reg.idx2node@.len() && before.len() <= i implies #[trigger] reg.idx2node@[j]
                    != #[trigger] reg.idx2node@[i] by {
                assert(reg.idx2node@[j] == before[j]);
            }
            assert(reg_wf(reg.idx2node@)) by {
                assert forall|j: int| 0 <= j < reg.idx2node@.len() implies match #[trigger] reg.idx2node@[j] {
                    OutputVectorNode::Leaf(_) => true,
                    OutputVectorNode::Node(p) => p.left.0 < j && match p.right {
                        Some(r) => r.0 < j,
                        None => true,
                    },
                } by {
                    if j < before.len() {
                        assert(reg.idx2node@[j] == before[j]);
                    }
                }
            }
            id
        },
    }
}

/// Where a registry `b` extends `a`, the nodes of `a` from `k` on are fresh and so are those
/// that `b` adds, all the nodes of `b` from `k` on are fresh.
proof fn lemma_fresh_extend(a: Seq<OutputVectorNode>, b: Seq<OutputVectorNode>, k: int)
    requires
        k <= a.len() <= b.len(),
        b.take(a.len() as int) == a,
        fresh_from(a, k),
        fresh_from(b, a.len() as int),
    ensures
        fresh_from(b, k),
{
    assert forall|i: int, j: int| 0 <= j < i < b.len() && k <= i implies #[trigger] b[j] != #[trigger] b[i] by {
        if i < a.len() {
            assert(b[i] == b.take(a.len() as int)[i]);
            assert(b[j] == b.take(a.len() as int)[j]);
            assert(a[j] != a[i]);
        }
    }
}

/// Registers the nodes for the `n` positions of `ov` from `start` and gives the index of their
/// root.
fn new_rec(ov: &Vec<CurRank>, ovr: &mut OvrReg, start: usize, n: usize, dflt: i32) -> (r: OutputVectorNodeIdx)
    requires
        old(ovr).wf(),
        1 <= n,
        start + n <= ov.len(),
        start % 32 == 0,
        start + rounded_up(n as nat) <= 0x8000_0000,
        forall|i: int| 0 <= i < ov.len() ==> (#[trigger] ov@[i]).0 <= i32::MAX,
        0 <= dflt,
    ensures
        final(ovr).wf(),
        final(ovr).idx2node@.take(old(ovr).idx2node.len() as int) == old(ovr).idx2node@,
        final(ovr).idx2node.len() >= old(ovr).idx2node.len(),
        final(ovr).idx2node_saved_up_to == old(ovr).idx2node_saved_up_to,
        fresh_from(final(ovr).idx2node@, old(ovr).idx2node.len() as int),
        unpack_ok(final(ovr).idx2node@, r.0 as nat, rounded_up(n as nat), start as nat, dflt as u32),
        unpack_seq(final(ovr).idx2node@, r.0 as nat, rounded_up(n as nat), start as nat, dflt as u32) == packed_view(ov@, start as nat, n as nat, dflt as nat),
    decreases n,
{
    if n <= 32 {
        let mut ranks = [dflt; 32];
        let mut i: usize = 0;
        while i < n
            invariant
                i <= n <= 32,
                start + n <= ov.len(),
                start + 32 <= 0x8000_0000,
                forall|q: int| 0 <= q < ov.len() ==> (#[trigger] ov@[q]).0 <= i32::MAX,
                forall|q: int| 0 <= q < i ==> #[trigger] ranks@[q] == ov@[start + q].0 - start,
                forall|q: int| i <= q < 32 ==> #[trigger] ranks@[q] == dflt,
            decreases n - i,
        {
            assert(ov@[start + i as int].0 <= i32::MAX);
            ranks[i] = (ov[start + i].0 as i32) - (start as i32);
            i = i + 1;
        }
        let node = OutputVectorNode::Leaf(OutputVectorChunk { rel_ranks: ranks });
        let id = intern(ovr, node);
        proof {
            assert(rounded_up(n as nat) == 32) by (nonlinear_arith)
                requires
                    1 <= n <= 32,
            ;
            let reg = ovr.idx2node@;
            assert(reg[id.0 as int] == node);
            assert(unpack_ok(reg, id.0 as nat, 32, start as nat, dflt as u32)) by {
                assert forall|q: int| 0 <= q < 32 implies (#[trigger] ranks@[q] == (dflt as u32) as i32 || i32::MIN <= ranks@[q] + start <= i32::MAX) by {
                    if q < n {
                        assert(ov@[start + q].0 <= i32::MAX);
                    }
                }
            }
            let got = unpack_seq(reg, id.0 as nat, 32, start as nat, dflt as u32);
            let want = packed_view(ov@, start as nat, n as nat, dflt as nat);
            assert forall|q: int| 0 <= q < 32 implies got[q] == want[q] by {
                assert(q % 32 == q);
                if q < n {
                    assert(ranks@[q] == ov@[start + q].0 - start);
                }
            }
            assert(got =~= want);
        }
        id
    } else {
        proof {
            lemma_split(n as nat);
        }
        let mid = next_power_of_two(n) / 2;
        let ghost reg0 = ovr.idx2node@;
        let left = new_rec(ov, ovr, start, mid, dflt);
        let ghost reg1 = ovr.idx2node@;
        proof {
            assert(rounded_up(mid as nat) == mid as nat) by (nonlinear_arith)
                requires
                    mid % 32 == 0,
                    mid >= 32,
            ;
        }
        let right = new_rec(ov, ovr, start + mid, n - mid, dflt);
        let ghost reg2 = ovr.idx2node@;
        proof {
            assert(reg2 =~= reg1 + reg2.skip(reg1.len() as int));
            lemma_registry_extension(reg1, reg2.skip(reg1.len() as int), left.0 as nat, mid as nat, start as nat, dflt as u32);
        }
        let node = OutputVectorNode::Node(OutputVectorNodePair { left, right: Some(right) });
        let id = intern(ovr, node);
        proof {
            let reg3 = ovr.idx2node@;
            assert(reg3 =~= reg2 + reg3.skip(reg2.len() as int));
            lemma_registry_extension(reg2, reg3.skip(reg2.len() as int), left.0 as nat, mid as nat, start as nat, dflt as u32);
            lemma_registry_extension(reg2, reg3.skip(reg2.len() as int), right.0 as nat, rounded_up((n - mid) as nat), (start + mid) as nat, dflt as u32);
            assert(reg3[id.0 as int] == node);
            let whole = packed_view(ov@, start as nat, n as nat, dflt as nat);
            let lpart = packed_view(ov@, start as nat, mid as nat, dflt as nat);
            let rpart = packed_view(ov@, (start + mid) as nat, (n - mid) as nat, dflt as nat);
            assert forall|q: int| 0 <= q < whole.len() implies #[trigger] whole[q] == (lpart + rpart)[q] by {
                if q >= mid {
                    let q2 = q - mid;
                    assert(q % 32 == q2 % 32) by (nonlinear_arith)
                        requires
                            q2 == q - mid,
                            mid % 32 == 0,
                            q >= mid,
                    ;
                }
            }
            assert(whole =~= lpart + rpart);
            assert(reg3.take(reg0.len() as int) =~= reg0) by {
                assert(reg2.take(reg0.len() as int) =~= reg0);
            }
            assert(reg3.take(reg1.len() as int) =~= reg1) by {
                assert(reg3.take(reg2.len() as int) =~= reg2);
            }
            lemma_fresh_extend(reg2, reg3, reg2.len() as int);
            lemma_fresh_extend(reg1, reg3, reg1.len() as int);
            lemma_fresh_extend(reg0, reg1, reg0.len() as int);
            lemma_fresh_extend(reg1, reg3, reg0.len() as int);
        }
        id
    }
}

impl OutputVector {
    /// Stores an observed order in the registry, sharing the chunks and parts that are already
    /// there: every node that it adds is equal to no node registered before it.
    pub fn new(ov: OgRank2CurRank, ovr: &mut OvrReg) -> (r: OutputVector)
        requires
            old(ovr).wf(),
            ov.0.len() <= 0x7fff_0000,
            forall|i: int| 0 <= i < ov.0.len() ==> (#[trigger] ov.0@[i]).0 <= i32::MAX,
        ensures
            final(ovr).wf(),
            final(ovr).idx2node@.take(old(ovr).idx2node.len() as int) == old(ovr).idx2node@,
            final(ovr).idx2node_saved_up_to == old(ovr).idx2node_saved_up_to,
            fresh_from(final(ovr).idx2node@, old(ovr).idx2node.len() as int),
            r.len == ov.0.len(),
            r.len >= 1 ==> r.unpacks(&*final(ovr)),
            r.len >= 1 ==> unpack_seq(final(ovr).idx2node@, r.data.0 as nat, r.unpacked_len(), 0, r.len as u32)
                == packed_view(ov.0@, 0, r.len as nat, r.len as nat),
    {
        let len = ov.0.len();
        if len == 0 {
            let ranks = [0i32; 32];
            let id = intern(ovr, OutputVectorNode::Leaf(OutputVectorChunk { rel_ranks: ranks }));
            return OutputVector { data: id, len: 0 };
        }
        proof {
            assert(rounded_up(len as nat) <= 0x8000_0000) by (nonlinear_arith)
                requires
                    1 <= len <= 0x7fff_0000,
            ;
        }
        let data = new_rec(&ov.0, ovr, 0, len, len as i32);
        OutputVector { data, len }
    }
}

/// An order whose observed ranks are all below the default rank (its length) unpacks to itself,
/// padded with the default rank up to whole chunks.
pub proof fn lemma_packed_view_exact(ov: Seq<CurRank>)
    requires
        ov.len() >= 1,
        forall|i: int| 0 <= i < ov.len() ==> (#[trigger] ov[i]).0 <= ov.len(),
        ov.len() <= u32::MAX,
    ensures
        packed_view(ov, 0, ov.len(), ov.len()) == Seq::new(rounded_up(ov.len()), |i: int| if i < ov.len() { ov[i] } else { CurRank(ov.len() as u32) }),
{
    let n = ov.len();
    assert forall|i: int| 0 <= i < rounded_up(n) implies #[trigger] packed_view(ov, 0, n, n)[i] == (if i < n { ov[i] } else { CurRank(n as u32) }) by {
        if i < n {
            if ov[i].0 - (i - i % 32) == n {
                assert(i - i % 32 >= 0) by (nonlinear_arith)
                    requires
                        i >= 0,
                ;
                assert(ov[i].0 == n);
            }
        }
    }
    assert(packed_view(ov, 0, n, n) =~= Seq::new(rounded_up(n), |i: int| if i < n { ov[i] } else { CurRank(n as u32) }));
}

// ---------------------------------------------------------------------------------------------
// Saving and loading the registry
// ---------------------------------------------------------------------------------------------

impl Default for OvrReg {
    fn default() -> (r: Self)
        ensures
            r.idx2node@.len() == 0,
            r.idx2node_saved_up_to == OutputVectorNodeIdx(0),
            r.wf(),
    {
        OvrReg { idx2node: Vec::new(), idx2node_saved_up_to: OutputVectorNodeIdx(0) }
    }
}

/// The indices of the nodes of the deltas, one after the other.
pub open spec fn delta_indices(deltas: Seq<OvrDelta>) -> Seq<usize> {
    deltas.map_values(|d: OvrDelta| d.idx2node@.map_values(|p: (usize, OutputVectorNode)| p.0)).flatten()
}

/// The nodes of the deltas, one after the other.
pub open spec fn delta_nodes(deltas: Seq<OvrDelta>) -> Seq<OutputVectorNode> {
    deltas.map_values(|d: OvrDelta| d.idx2node@.map_values(|p: (usize, OutputVectorNode)| p.1)).flatten()
}

impl OvrReg {
    /// Marks every node registered so far as saved.
    pub fn update_saved_up_to_for_saving_deltas(&mut self)
        ensures
            final(self).idx2node@ == old(self).idx2node@,
            final(self).idx2node_saved_up_to == OutputVectorNodeIdx(old(self).idx2node.len() as u64),
    {
        self.idx2node_saved_up_to = OutputVectorNodeIdx(self.idx2node.len() as u64);
    }

    /// The nodes registered since the registry was last saved, with their indices.
    pub fn delta(&self) -> (r: OvrDelta)
        requires
            self.idx2node_saved_up_to.0 <= self.idx2node.len(),
        ensures
            r.idx2node@.len() == self.idx2node.len() - self.idx2node_saved_up_to.0,
            forall|i: int| 0 <= i < r.idx2node@.len() ==> #[trigger] r.idx2node@[i] == (
                (self.idx2node_saved_up_to.0 + i) as usize,
                self.idx2node@[self.idx2node_saved_up_to.0 + i],
            ),
    {
        let from = self.idx2node_saved_up_to.0 as usize;
        let mut out: Vec<(usize, OutputVectorNode)> = Vec::new();
        let mut i: usize = from;
        while i < self.idx2node.len()
            invariant
                from <= i <= self.idx2node.len(),
                from == self.idx2node_saved_up_to.0,
                out.len() == i - from,
                forall|q: int| 0 <= q < out@.len() ==> #[trigger] out@[q] == ((from + q) as usize, self.idx2node@[from + q]),
            decreases self.idx2node.len() - i,
        {
            out.push((i, self.idx2node[i]));
            i = i + 1;
        }
        OvrDelta { idx2node: out }
    }

    /// The index of the node equal to `node`, the last one registered if there are several.
    pub fn index_of(&self, node: &OutputVectorNode) -> (r: Option<OutputVectorNodeIdx>)
        ensures
            match r {
                Some(i) => i.0 < self.idx2node.len() && self.idx2node@[i.0 as int] == *node
                    && forall|q: int| i.0 < q < self.idx2node.len() ==> self.idx2node@[q] != *node,
                None => forall|i: int| 0 <= i < self.idx2node.len() ==> self.idx2node@[i] != *node,
            },
    {
        match lookup(self, node) {
            Some(i) => Some(OutputVectorNodeIdx(i as u64)),
            None => None,
        }
    }

    /// Rebuilds a registry from its deltas, given in the order in which they were saved; every
    /// node is then saved.
    pub fn rebuild(deltas: Vec<OvrDelta>) -> (r: Self)
        requires
            forall|i: int| 0 <= i < delta_indices(deltas@).len() ==> #[trigger] delta_indices(deltas@)[i] == i,
        ensures
            r.idx2node@ == delta_nodes(deltas@),
            r.idx2node_saved_up_to == OutputVectorNodeIdx(r.idx2node.len() as u64),
    {
        let mut ret = OvrReg::default();
        let mut k: usize = 0;
        while k < deltas.len()
            invariant
                k <= deltas.len(),
                forall|i: int| 0 <= i < delta_indices(deltas@).len() ==> #[trigger] delta_indices(deltas@)[i] == i,
                ret.idx2node@ == deltas@.take(k as int).map_values(|d: OvrDelta| d.idx2node@.map_values(|p: (usize, OutputVectorNode)| p.1)).flatten(),
                ret.idx2node@.len() == deltas@.take(k as int).map_values(|d: OvrDelta| d.idx2node@.map_values(|p: (usize, OutputVectorNode)| p.0)).flatten().len(),
            decreases deltas.len() - k,
        {
            let delta = &deltas[k];
            let ghost base = ret.idx2node@;
            let mut j: usize = 0;
            while j < delta.idx2node.len()
                invariant
                    j <= delta.idx2node.len(),
                    ret.idx2node@ == base + delta.idx2node@.take(j as int).map_values(|p: (usize, OutputVectorNode)| p.1),
                decreases delta.idx2node.len() - j,
            {
                let node = delta.idx2node[j].1;
                ret.idx2node.push(node);
                assert(delta.idx2node@.take(j + 1).map_values(|p: (usize, OutputVectorNode)| p.1)
                    =~= delta.idx2node@.take(j as int).map_values(|p: (usize, OutputVectorNode)| p.1).push(node));
                j = j + 1;
            }
            proof {
                let f1 = |d: OvrDelta| d.idx2node@.map_values(|p: (usize, OutputVectorNode)| p.1);
                let f0 = |d: OvrDelta| d.idx2node@.map_values(|p: (usize, OutputVectorNode)| p.0);
                assert(delta.idx2node@.take(delta.idx2node.len() as int) =~= delta.idx2node@);
                assert(deltas@.take(k + 1) =~= deltas@.take(k as int).push(deltas@[k as int]));
                assert(deltas@.take(k + 1).map_values(f1) =~= deltas@.take(k as int).map_values(f1).push(f1(deltas@[k as int])));
                assert(deltas@.take(k + 1).map_values(f0) =~= deltas@.take(k as int).map_values(f0).push(f0(deltas@[k as int])));
                deltas@.take(k as int).map_values(f1).lemma_flatten_push(f1(deltas@[k as int]));
                deltas@.take(k as int).map_values(f0).lemma_flatten_push(f0(deltas@[k as int]));
            }
            k = k + 1;
        }
        assert(deltas@.take(deltas.len() as int) =~= deltas@);
        ret.update_saved_up_to_for_saving_deltas();
        ret
    }
}

/// Whether the trace points of a run matched those of the original trace: every trace point of the
/// run is one of the original trace (else `MissingTracePointId`) and none occurs more often than
/// there (else `ExtraTracePointId`); the last mismatch decides. `Matched` where all match.
#[derive(Debug, PartialEq, Eq, Structural, Clone, Copy)]
pub enum VectorfyStatus {
    Matched,
    MissingTracePointId,
    ExtraTracePointId,
}

// ---------------------------------------------------------------------------------------------
// From traces to orders
// ---------------------------------------------------------------------------------------------

/// The identity of a trace point: a hash of the parts of a trace record that tell trace points
/// apart.
#[derive(Debug, Clone, Copy, PartialEq, Eq, Structural, Hash)]
pub struct TracePointId(pub u64);

impl TracePointId {
    /// The identity of a record's trace point: the hash of its identifying fields.
    pub fn new(tr: &TraceRecord) -> (r: TracePointId)
        ensures
            r == TracePointId(DefaultHasher::spec_finish(point_fed(*tr))),
    {
        TracePointId(point_hash(tr))
    }
}

/// The identities of the records' trace points.
pub open spec fn point_ids(records: Seq<TraceRecord>) -> Seq<TracePointId> {
    records.map_values(|tr: TraceRecord| TracePointId(DefaultHasher::spec_finish(point_fed(tr))))
}

fn point_ids_of(records: &Vec<TraceRecord>) -> (r: Vec<TracePointId>)
    ensures
        r@ == point_ids(records@),
{
    let mut r: Vec<TracePointId> = Vec::new();
    let mut i: usize = 0;
    while i < records.len()
        invariant
            i <= records@.len(),
            r@ == point_ids(records@.take(i as int)),
        decreases records@.len() - i,
    {
        r.push(TracePointId::new(&records[i]));
        proof {
            assert(r@ =~= point_ids(records@.take(i + 1)));
        }
        i += 1;
    }
    assert(records@.take(records@.len() as int) =~= records@);
    r
}

/// The positions at which `id` occurs in `ids`, in order.
pub open spec fn occurrences(ids: Seq<TracePointId>, id: TracePointId) -> Seq<OgRank>
    decreases ids.len(),
{
    if ids.len() == 0 {
        seq![]
    } else {
        occurrences(ids.drop_last(), id) + (if ids.last() == id {
            seq![OgRank((ids.len() - 1) as u32)]
        } else {
            seq![]
        })
    }
}

/// The trace points of the original trace, each with the positions at which it occurs.
pub struct OutputVectorKey {
    pub records: Vec<TraceRecord>,
    pub map: Vec<(TracePointId, Vec<OgRank>)>,
    pub n_tracepoints: usize,
}

/// `map` lists each trace point of `ids` once, with the positions at which it occurs.
pub open spec fn indexes(map: Seq<(TracePointId, Vec<OgRank>)>, ids: Seq<TracePointId>) -> bool {
    &&& forall|j: int, q: int| 0 <= j < q < map.len() ==> #[trigger] map[j].0 != #[trigger] map[q].0
    &&& forall|j: int| 0 <= j < map.len() ==> (#[trigger] map[j]).1@ == occurrences(ids, map[j].0) && map[j].1@.len() > 0
    &&& forall|id: TracePointId| #[trigger] occurrences(ids, id).len() > 0 ==> exists|j: int| 0 <= j < map.len() && map[j].0 == id
}

proof fn lemma_occurrences_step(ids: Seq<TracePointId>, i: int, id: TracePointId)
    requires
        0 <= i < ids.len(),
    ensures
        occurrences(ids.take(i + 1), id) == occurrences(ids.take(i), id) + (if ids[i] == id {
            seq![OgRank(i as u32)]
        } else {
            seq![]
        }),
{
    assert(ids.take(i + 1).drop_last() =~= ids.take(i));
}

/// The entry for `id`, if there is one.
fn find_key(map: &Vec<(TracePointId, Vec<OgRank>)>, id: TracePointId) -> (r: Option<usize>)
    ensures
        match r {
            Some(j) => j < map.len() && map@[j as int].0 == id,
            None => forall|j: int| 0 <= j < map.len() ==> map@[j].0 != id,
        },
{
    let mut j: usize = 0;
    while j < map.len()
        invariant
            j <= map.len(),
            forall|q: int| 0 <= q < j ==> map@[q].0 != id,
        decreases map.len() - j,
    {
        if map[j].0 == id {
            return Some(j);
        }
        j = j + 1;
    }
    None
}

/// How many positions a key of `len` trace points covers: `len` rounded up to a multiple of `m`.
pub open spec fn tracepoints_rounded(len: nat, m: nat) -> int {
    (len - 1) / (m as int) * m + m
}

/// The positions at which a trace point occurs are positions of that trace point, in increasing
/// order.
proof fn lemma_occurrences_positions(ids: Seq<TracePointId>, id: TracePointId)
    requires
        ids.len() <= u32::MAX + 1,
    ensures
        forall|k: int| 0 <= k < occurrences(ids, id).len() ==> {
            &&& (#[trigger] occurrences(ids, id)[k]).0 < ids.len()
            &&& ids[occurrences(ids, id)[k].0 as int] == id
        },
        forall|a: int, b: int| 0 <= a < b < occurrences(ids, id).len() ==> (#[trigger] occurrences(ids, id)[a]).0 < (#[trigger] occurrences(ids, id)[b]).0,
    decreases ids.len(),
{
    if ids.len() > 0 {
        let d = ids.drop_last();
        lemma_occurrences_positions(d, id);
        let o = occurrences(ids, id);
        let od = occurrences(d, id);
        assert forall|k: int| 0 <= k < o.len() implies (#[trigger] o[k]).0 < ids.len() && ids[o[k].0 as int] == id by {
            if k < od.len() {
                assert(o[k] == od[k]);
                assert(ids[od[k].0 as int] == d[od[k].0 as int]);
            }
        }
        assert forall|a: int, b: int| 0 <= a < b < o.len() implies (#[trigger] o[a]).0 < (#[trigger] o[b]).0 by {
            if b < od.len() {
                assert(o[a] == od[a] && o[b] == od[b]);
            } else {
                assert(o[a] == od[a]);
            }
        }
    }
}

/// Original position `x` is reached by an occurrence in the run: it is the `k`-th position of a
/// trace point that occurs at least `k + 1` times in the run.
pub open spec fn covered(map: Seq<(TracePointId, Vec<OgRank>)>, ids2: Seq<TracePointId>, x: int) -> bool {
    exists|q: int, k: int| 0 <= q < map.len() && 0 <= k < map[q].1@.len() && #[trigger] map[q].1@[k].0 == x && k < occurrences(ids2, map[q].0).len()
}

pub open spec fn min_len(a: nat, b: nat) -> nat {
    if a <= b {
        a
    } else {
        b
    }
}

/// The status after the first `p` trace points of a run: a trace point that is not in the key is
/// missing; one that occurs more often than in the original trace is extra; the last of these
/// decides.
pub open spec fn status_upto(map: Seq<(TracePointId, Vec<OgRank>)>, ids2: Seq<TracePointId>, p: nat) -> VectorfyStatus
    decreases p,
{
    if p == 0 || p > ids2.len() {
        VectorfyStatus::Matched
    } else {
        let prev = status_upto(map, ids2, (p - 1) as nat);
        let id = ids2[p - 1];
        let c = occurrences(ids2.take(p - 1), id).len();
        if !exists|q: int| 0 <= q < map.len() && #[trigger] map[q].0 == id {
            VectorfyStatus::MissingTracePointId
        } else if exists|q: int| 0 <= q < map.len() && #[trigger] map[q].0 == id && c < map[q].1@.len() {
            prev
        } else {
            VectorfyStatus::ExtraTracePointId
        }
    }
}

impl OutputVectorKey {
    /// Each trace point is listed once, with the positions at which it occurs: increasing
    /// positions below the number of positions, no position listed twice.
    pub open spec fn wf(&self) -> bool {
        let m = self.map@;
        &&& forall|j: int, q: int| 0 <= j < q < m.len() ==> #[trigger] m[j].0 != #[trigger] m[q].0
        &&& forall|j: int, k: int| 0 <= j < m.len() && 0 <= k < m[j].1@.len() ==> (#[trigger] m[j].1@[k]).0 < self.n_tracepoints
        &&& forall|j: int, a: int, b: int| 0 <= j < m.len() && 0 <= a < b < m[j].1@.len() ==> (#[trigger] m[j].1@[a]).0 < (#[trigger] m[j].1@[b]).0
        &&& forall|j: int, q: int, a: int, b: int| 0 <= j < m.len() && 0 <= q < m.len() && j != q && 0 <= a < m[j].1@.len() && 0 <= b < m[q].1@.len() ==> #[trigger] m[j].1@[a] != #[trigger] m[q].1@[b]
    }

    /// Indexes the trace points of an original trace, whose records have the identities `ids`; the
    /// number of positions is rounded up to a multiple of `round_up_to_zero_mod`.
    pub fn from_ids(tpis: Vec<TraceRecord>, ids: Vec<TracePointId>, round_up_to_zero_mod: usize) -> (r: Self)
        requires
            ids.len() == tpis.len(),
            1 <= tpis.len() <= u32::MAX + 1,
            round_up_to_zero_mod >= 1,
            tracepoints_rounded(tpis.len() as nat, round_up_to_zero_mod as nat) <= usize::MAX,
        ensures
            r.records == tpis,
            indexes(r.map@, ids@),
            r.n_tracepoints == tracepoints_rounded(tpis.len() as nat, round_up_to_zero_mod as nat),
            r.wf(),
    {
        let mut map: Vec<(TracePointId, Vec<OgRank>)> = Vec::new();
        let mut i: usize = 0;
        while i < ids.len()
            invariant
                i <= ids.len(),
                ids.len() <= u32::MAX + 1,
                indexes(map@, ids@.take(i as int)),
            decreases ids.len() - i,
        {
            let id = ids[i];
            let ghost pre = map@;
            proof {
                assert forall|x: TracePointId| #[trigger] occurrences(ids@.take(i + 1), x) == occurrences(ids@.take(i as int), x) + (if ids@[i as int] == x {
                    seq![OgRank(i as u32)]
                } else {
                    seq![]
                }) by {
                    lemma_occurrences_step(ids@, i as int, x);
                }
            }
            match find_key(&map, id) {
                Some(j) => {
                    map[j].1.push(OgRank(i as u32));
                    proof {
                        assert forall|q: int| 0 <= q < map@.len() implies (#[trigger] map@[q]).1@ == occurrences(ids@.take(i + 1), map@[q].0) && map@[q].1@.len() > 0 by {
                            if q != j {
                                assert(map@[q] == pre[q]);
                                assert(pre[q].0 != id);
                            }
                        }
                        assert forall|x: TracePointId| #[trigger] occurrences(ids@.take(i + 1), x).len() > 0 implies exists|q: int| 0 <= q < map@.len() && map@[q].0 == x by {
                            if x != id {
                                assert(occurrences(ids@.take(i as int), x).len() > 0);
                                let q = choose|q: int| 0 <= q < pre.len() && pre[q].0 == x;
                                assert(map@[q].0 == x);
                            } else {
                                assert(map@[j as int].0 == x);
                            }
                        }
                        assert forall|a: int, b: int| 0 <= a < b < map@.len() implies #[trigger] map@[a].0 != #[trigger] map@[b].0 by {
                            assert(map@[a].0 == pre[a].0 && map@[b].0 == pre[b].0);
                        }
                    }
                },
                None => {
                    let mut v: Vec<OgRank> = Vec::new();
                    v.push(OgRank(i as u32));
                    map.push((id, v));
                    proof {
                        assert(occurrences(ids@.take(i as int), id).len() == 0) by {
                            if occurrences(ids@.take(i as int), id).len() > 0 {
                                let q = choose|q: int| 0 <= q < pre.len() && pre[q].0 == id;
                            }
                        }
                        assert(occurrences(ids@.take(i + 1), id) =~= seq![OgRank(i as u32)]);
                        assert forall|q: int| 0 <= q < map@.len() implies (#[trigger] map@[q]).1@ == occurrences(ids@.take(i + 1), map@[q].0) && map@[q].1@.len() > 0 by {
                            if q < pre.len() {
                                assert(map@[q] == pre[q]);
                                assert(pre[q].0 != id);
                            }
                        }
                        assert forall|x: TracePointId| #[trigger] occurrences(ids@.take(i + 1), x).len() > 0 implies exists|q: int| 0 <= q < map@.len() && map@[q].0 == x by {
                            if x != id {
                                assert(occurrences(ids@.take(i as int), x).len() > 0);
                                let q = choose|q: int| 0 <= q < pre.len() && pre[q].0 == x;
                                assert(map@[q].0 == x);
                            } else {
                                assert(map@[pre.len() as int].0 == x);
                            }
                        }
                        assert forall|a: int, b: int| 0 <= a < b < map@.len() implies #[trigger] map@[a].0 != #[trigger] map@[b].0 by {
                            if b == pre.len() {
                                assert(map@[a] == pre[a]);
                            } else {
                                assert(map@[a] == pre[a] && map@[b] == pre[b]);
                            }
                        }
                    }
                },
            }
            i = i + 1;
        }
        assert(ids@.take(ids.len() as int) =~= ids@);
        let len = tpis.len();
        let n_tracepoints = (len - 1) / round_up_to_zero_mod * round_up_to_zero_mod + round_up_to_zero_mod;
        let r = OutputVectorKey { records: tpis, map, n_tracepoints };
        proof {
            let l = len as int;
            let mm = round_up_to_zero_mod as int;
            let q = (l - 1) / mm;
            assert(q * mm + mm >= l) by (nonlinear_arith)
                requires
                    q == (l - 1) / mm,
                    l >= 1,
                    mm >= 1,
            ;
            assert(n_tracepoints == q * mm + mm);
            let m = r.map@;
            assert forall|j: int, k: int| 0 <= j < m.len() && 0 <= k < m[j].1@.len() implies (#[trigger] m[j].1@[k]).0 < r.n_tracepoints by {
                lemma_occurrences_positions(ids@, m[j].0);
            }
            assert forall|j: int, a: int, b: int| 0 <= j < m.len() && 0 <= a < b < m[j].1@.len() implies (#[trigger] m[j].1@[a]).0 < (#[trigger] m[j].1@[b]).0 by {
                lemma_occurrences_positions(ids@, m[j].0);
            }
            assert forall|j: int, q: int, a: int, b: int| 0 <= j < m.len() && 0 <= q < m.len() && j != q && 0 <= a < m[j].1@.len() && 0 <= b < m[q].1@.len() implies #[trigger] m[j].1@[a] != #[trigger] m[q].1@[b] by {
                lemma_occurrences_positions(ids@, m[j].0);
                lemma_occurrences_positions(ids@, m[q].0);
                if m[j].1@[a] == m[q].1@[b] {
                    assert(ids@[m[j].1@[a].0 as int] == m[j].0);
                    assert(ids@[m[q].1@[b].0 as int] == m[q].0);
                }
            }
        }
        r
    }

    /// Places the trace points of a run, whose records have the identities `ids2`, at the original
    /// positions: the `k`-th occurrence of a trace point in the run goes to the `k`-th position at
    /// which it occurs in the original trace; the positions that no occurrence reaches keep the
    /// number of positions. The status says whether the run matched.
    pub fn vectorfy_ids(&self, ids2: &Vec<TracePointId>) -> (r: (OgRank2CurRank, VectorfyStatus))
        requires
            self.wf(),
            ids2.len() <= u32::MAX + 1,
        ensures
            r.0.0@.len() == self.n_tracepoints,
            forall|j: int, k: int| 0 <= j < self.map@.len() && 0 <= k < self.map@[j].1@.len() && k < occurrences(ids2@, self.map@[j].0).len()
                ==> r.0.0@[(#[trigger] self.map@[j].1@[k]).0 as int] == CurRank(occurrences(ids2@, self.map@[j].0)[k].0),
            forall|x: int| 0 <= x < self.n_tracepoints && !covered(self.map@, ids2@, x) ==> #[trigger] r.0.0@[x] == CurRank(self.n_tracepoints as u32),
            r.1 == status_upto(self.map@, ids2@, ids2.len() as nat),
    {
        let n = self.n_tracepoints;
        let default = CurRank(n as u32);
        let ghost m = self.map@;
        let mut ov: Vec<CurRank> = Vec::new();
        let mut i: usize = 0;
        while i < n
            invariant
                i <= n,
                ov.len() == i,
                forall|q: int| 0 <= q < i ==> #[trigger] ov@[q] == default,
            decreases n - i,
        {
            ov.push(default);
            i = i + 1;
        }
        let mut used: Vec<usize> = Vec::new();
        let mut j: usize = 0;
        while j < self.map.len()
            invariant
                j <= self.map.len(),
                used.len() == j,
                forall|q: int| 0 <= q < j ==> #[trigger] used@[q] == 0,
            decreases self.map.len() - j,
        {
            used.push(0);
            j = j + 1;
        }
        let mut status = VectorfyStatus::Matched;
        let mut p: usize = 0;
        while p < ids2.len()
            invariant
                p <= ids2.len(),
                ids2.len() <= u32::MAX + 1,
                self.wf(),
                m == self.map@,
                n == self.n_tracepoints,
                default == CurRank(n as u32),
                ov.len() == n,
                used.len() == m.len(),
                forall|q: int| 0 <= q < m.len() ==> #[trigger] used@[q] == min_len(occurrences(ids2@.take(p as int), m[q].0).len(), m[q].1@.len()),
                forall|q: int, k: int| 0 <= q < m.len() && 0 <= k < m[q].1@.len() && k < occurrences(ids2@.take(p as int), m[q].0).len()
                    ==> ov@[(#[trigger] m[q].1@[k]).0 as int] == CurRank(occurrences(ids2@.take(p as int), m[q].0)[k].0),
                forall|x: int| 0 <= x < n && !covered(m, ids2@.take(p as int), x) ==> #[trigger] ov@[x] == default,
                status == status_upto(m, ids2@, p as nat),
            decreases ids2.len() - p,
        {
            let id = ids2[p];
            let ghost pre_ov = ov@;
            proof {
                assert forall|x: TracePointId| #[trigger] occurrences(ids2@.take(p + 1), x) == occurrences(ids2@.take(p as int), x) + (if ids2@[p as int] == x {
                    seq![OgRank(p as u32)]
                } else {
                    seq![]
                }) by {
                    lemma_occurrences_step(ids2@, p as int, x);
                }
                assert(ids2@.take(p + 1).take(p as int) =~= ids2@.take(p as int));
            }
            match find_key(&self.map, id) {
                Some(jj) => {
                    let k = used[jj];
                    let list = &self.map[jj].1;
                    if k < list.len() {
                        let r = list[k].0 as usize;
                        ov.set(r, CurRank(p as u32));
                        used.set(jj, k + 1);
                        proof {
                            let c = occurrences(ids2@.take(p as int), id).len();
                            assert(k == c);
                            assert forall|q: int, kk: int| 0 <= q < m.len() && 0 <= kk < m[q].1@.len() && kk < occurrences(ids2@.take(p + 1), m[q].0).len()
                                implies ov@[(#[trigger] m[q].1@[kk]).0 as int] == CurRank(occurrences(ids2@.take(p + 1), m[q].0)[kk].0) by {
                                if q == jj {
                                    if kk < k {
                                        assert(m[q].1@[kk].0 < m[q].1@[k as int].0);
                                    }
                                } else {
                                    assert(m[q].1@[kk] != m[jj as int].1@[k as int]);
                                    assert(m[q].0 != id);
                                }
                            }
                            assert forall|x: int| 0 <= x < n && !covered(m, ids2@.take(p + 1), x) implies #[trigger] ov@[x] == default by {
                                if x == r {
                                    assert(m[jj as int].1@[k as int].0 == x);
                                    assert(covered(m, ids2@.take(p + 1), x));
                                } else {
                                    if covered(m, ids2@.take(p as int), x) {
                                        let (q, kk) = choose|q: int, kk: int| 0 <= q < m.len() && 0 <= kk < m[q].1@.len() && #[trigger] m[q].1@[kk].0 == x && kk < occurrences(ids2@.take(p as int), m[q].0).len();
                                        assert(covered(m, ids2@.take(p + 1), x));
                                    }
                                }
                            }
                            assert forall|q: int| 0 <= q < m.len() implies #[trigger] used@[q] == min_len(occurrences(ids2@.take(p + 1), m[q].0).len(), m[q].1@.len()) by {
                                if q != jj {
                                    assert(m[q].0 != id);
                                }
                            }
                            assert(exists|q: int| 0 <= q < m.len() && #[trigger] m[q].0 == id && c < m[q].1@.len());
                        }
                    } else {
                        status = VectorfyStatus::ExtraTracePointId;
                        proof {
                            let c = occurrences(ids2@.take(p as int), id).len();
                            assert(c >= m[jj as int].1@.len());
                            assert forall|q: int, kk: int| 0 <= q < m.len() && 0 <= kk < m[q].1@.len() && kk < occurrences(ids2@.take(p + 1), m[q].0).len()
                                implies ov@[(#[trigger] m[q].1@[kk]).0 as int] == CurRank(occurrences(ids2@.take(p + 1), m[q].0)[kk].0) by {
                                if q != jj {
                                    assert(m[q].0 != id);
                                }
                            }
                            assert forall|x: int| 0 <= x < n && !covered(m, ids2@.take(p + 1), x) implies #[trigger] ov@[x] == default by {
                                if covered(m, ids2@.take(p as int), x) {
                                    let (q, kk) = choose|q: int, kk: int| 0 <= q < m.len() && 0 <= kk < m[q].1@.len() && #[trigger] m[q].1@[kk].0 == x && kk < occurrences(ids2@.take(p as int), m[q].0).len();
                                    assert(covered(m, ids2@.take(p + 1), x));
                                }
                            }
                            assert forall|q: int| 0 <= q < m.len() implies #[trigger] used@[q] == min_len(occurrences(ids2@.take(p + 1), m[q].0).len(), m[q].1@.len()) by {
                                if q != jj {
                                    assert(m[q].0 != id);
                                }
                            }
                            assert(!exists|q: int| 0 <= q < m.len() && #[trigger] m[q].0 == id && c < m[q].1@.len()) by {
                                if exists|q: int| 0 <= q < m.len() && #[trigger] m[q].0 == id && c < m[q].1@.len() {
                                    let q = choose|q: int| 0 <= q < m.len() && #[trigger] m[q].0 == id && c < m[q].1@.len();
                                    if q != jj {
                                        assert(m[q].0 != m[jj as int].0);
                                    }
                                }
                            }
                            assert(exists|q: int| 0 <= q < m.len() && #[trigger] m[q].0 == id);
                        }
                    }
                },
                None => {
                    status = VectorfyStatus::MissingTracePointId;
                    proof {
                        assert forall|q: int, kk: int| 0 <= q < m.len() && 0 <= kk < m[q].1@.len() && kk < occurrences(ids2@.take(p + 1), m[q].0).len()
                            implies ov@[(#[trigger] m[q].1@[kk]).0 as int] == CurRank(occurrences(ids2@.take(p + 1), m[q].0)[kk].0) by {
                            assert(m[q].0 != id);
                        }
                        assert forall|x: int| 0 <= x < n && !covered(m, ids2@.take(p + 1), x) implies #[trigger] ov@[x] == default by {
                            if covered(m, ids2@.take(p as int), x) {
                                let (q, kk) = choose|q: int, kk: int| 0 <= q < m.len() && 0 <= kk < m[q].1@.len() && #[trigger] m[q].1@[kk].0 == x && kk < occurrences(ids2@.take(p as int), m[q].0).len();
                                assert(m[q].0 != id);
                                assert(covered(m, ids2@.take(p + 1), x));
                            }
                        }
                        assert forall|q: int| 0 <= q < m.len() implies #[trigger] used@[q] == min_len(occurrences(ids2@.take(p + 1), m[q].0).len(), m[q].1@.len()) by {
                            assert(m[q].0 != id);
                        }
                    }
                },
            }
            p = p + 1;
        }
        assert(ids2@.take(ids2.len() as int) =~= ids2@);
        (OgRank2CurRank(ov), status)
    }

    /// Indexes the trace points of an original trace, each identified by the hash of its
    /// identifying fields; the number of positions is rounded up to a multiple of
    /// `round_up_to_zero_mod`.
    pub fn new(tpis: Vec<TraceRecord>, round_up_to_zero_mod: usize) -> (r: Self)
        requires
            1 <= tpis.len() <= u32::MAX + 1,
            round_up_to_zero_mod >= 1,
            tracepoints_rounded(tpis.len() as nat, round_up_to_zero_mod as nat) <= usize::MAX,
        ensures
            r.records == tpis,
            indexes(r.map@, point_ids(tpis@)),
            r.n_tracepoints == tracepoints_rounded(tpis.len() as nat, round_up_to_zero_mod as nat),
            r.wf(),
    {
        let ids = point_ids_of(&tpis);
        Self::from_ids(tpis, ids, round_up_to_zero_mod)
    }

    /// The order of a run, as `vectorfy_ids` gives it for the identities of its records, with the
    /// coarse and fine hash of the run.
    pub fn vectorfy(&self, records: &Vec<TraceRecord>) -> (r: (OgRank2CurRank, TraceHash, VectorfyStatus))
        requires
            self.wf(),
            records.len() <= u32::MAX + 1,
        ensures
            r.0.0@.len() == self.n_tracepoints,
            forall|j: int, k: int| 0 <= j < self.map@.len() && 0 <= k < self.map@[j].1@.len() && k < occurrences(point_ids(records@), self.map@[j].0).len()
                ==> r.0.0@[(#[trigger] self.map@[j].1@[k]).0 as int] == CurRank(occurrences(point_ids(records@), self.map@[j].0)[k].0),
            forall|x: int| 0 <= x < self.n_tracepoints && !covered(self.map@, point_ids(records@), x) ==> #[trigger] r.0.0@[x] == CurRank(self.n_tracepoints as u32),
            r.2 == status_upto(self.map@, point_ids(records@), records.len() as nat),
            r.1 == TraceHash(
                CoarseTraceHash(DefaultHasher::spec_finish(coarse_fed_all(seq![], records@))),
                FineTraceHash(DefaultHasher::spec_finish(fine_fed_all(seq![], records@))),
            ),
    {
        let ids = point_ids_of(records);
        let (ov, status) = self.vectorfy_ids(&ids);
        let hash = trace_hash(records);
        (ov, hash, status)
    }

    /// The number of positions of the orders of this key.
    #[allow(clippy::len_without_is_empty)]
    pub fn len(&self) -> (r: usize)
        ensures
            r == self.n_tracepoints,
    {
        self.n_tracepoints
    }
}

} // verus!
