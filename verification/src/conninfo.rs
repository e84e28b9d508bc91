//! Tags, connection delays and the connection information of a federated program.
use vstd::prelude::*;
use crate::text::{
    chars_of, extend_chars, spec_trim, string_from_chars, trim, decimal_value, is_decimal, lemma_unsigned_decimal_nonneg, lines, parse_decimal, rows_view, spec_lines, spec_words,
    words,
};

verus! {

/// A connection delay: an interval together with a microstep offset.
#[derive(Debug, Clone, Copy, PartialEq, Eq, Structural, Hash, PartialOrd, Ord)]
pub struct Delay(pub u64, pub u64);

/// The delay of a connection that has no `after` clause.
pub fn no_delay() -> (r: Delay)
    ensures
        r == Delay(0, 0),
{
    Delay(0, 0)
}

/// A logical tag: a time and a microstep.
#[derive(Debug, Clone, Copy, PartialEq, Eq, Structural, Hash, PartialOrd, Ord)]
pub struct Tag(pub i64, pub u64);

/// The tag at which every execution starts.
pub fn startup() -> (r: Tag)
    ensures
        r == Tag(0, 0),
{
    Tag(0, 0)
}

/// The identifier of a federate.
#[derive(Debug, Clone, Copy, PartialEq, Eq, Structural, Hash, PartialOrd, Ord)]
pub struct FedId(pub i32);

/// The trimmed text can be cut as reading a federate's identifier cuts it: it has at least seven
/// characters, and the first six and the last one are ASCII (so that byte positions and character
/// positions agree where it is cut).
pub open spec fn fedid_text_cuttable(t: Seq<char>) -> bool {
    &&& t.len() >= 7
    &&& forall|j: int| 0 <= j < 6 ==> (#[trigger] t[j] as u32) < 128
    &&& (t.last() as u32) < 128
}

/// The number in a federate's identifier `FedId(n)`: the trimmed text without its first six
/// characters and its last one.
pub open spec fn fedid_digits(s: Seq<char>) -> Seq<char> {
    let t = spec_trim(s);
    t.subrange(6, t.len() - 1)
}

impl FedId {
    /// Reads a federate's identifier written as `FedId(n)`. The six characters before the
    /// number and the one after it are skipped, whatever they are.
    pub fn from_str(s: &str) -> (r: Result<FedId, String>)
        requires
            fedid_text_cuttable(spec_trim(s@)),
        ensures
            r is Ok <==> parse_i32_tok(fedid_digits(s@)) is Some,
            r matches Ok(f) ==> parse_i32_tok(fedid_digits(s@)) == Some(f.0),
            r matches Err(e) ==> e@ == "Invalid FED_ID: "@ + s@,
    {
        let t = trim(chars_of(s).as_slice());
        let mut digits: Vec<char> = Vec::new();
        let mut k: usize = 6;
        while k < t.len() - 1
            invariant
                t@ == spec_trim(s@),
                t@.len() >= 7,
                6 <= k <= t@.len() - 1,
                digits@ == t@.subrange(6, k as int),
            decreases t@.len() - 1 - k,
        {
            digits.push(t[k]);
            assert(digits@ =~= t@.subrange(6, k + 1));
            k += 1;
        }
        match parse_decimal(digits.as_slice(), -0x8000_0000, 0x7fff_ffff) {
            Some(v) => Ok(FedId(v as i32)),
            None => {
                let mut e = chars_of("Invalid FED_ID: ");
                extend_chars(&mut e, &chars_of(s));
                Err(string_from_chars(&e))
            },
        }
    }
}

/// Lexicographic order on delays (the order that `Ord` gives them).
pub open spec fn delay_le(a: Delay, b: Delay) -> bool {
    a.0 < b.0 || (a.0 == b.0 && a.1 <= b.1)
}

/// Lexicographic strict order on tags (the order that `Ord` gives them).
pub open spec fn tag_lt(a: Tag, b: Tag) -> bool {
    a.0 < b.0 || (a.0 == b.0 && a.1 < b.1)
}

/// Lexicographic order on tags.
pub open spec fn tag_le(a: Tag, b: Tag) -> bool {
    a.0 < b.0 || (a.0 == b.0 && a.1 <= b.1)
}

/// The value of `x as i64` for a `u64` `x` (two's complement reinterpretation).
pub open spec fn wrap_i64(x: u64) -> int {
    if x <= i64::MAX { x as int } else { x - 0x1_0000_0000_0000_0000int }
}

pub open spec fn in_i64(x: int) -> bool {
    i64::MIN <= x <= i64::MAX
}

/// `x as i64` reinterprets the bits of `x`.
pub proof fn lemma_wrap_i64(x: u64)
    ensures
        (x as i64) as int == wrap_i64(x),
{
    if x <= 0x7fff_ffff_ffff_ffffu64 {
        assert(x <= 0x7fff_ffff_ffff_ffffu64 ==> (x as i64) as i128 == x as i128) by (bit_vector);
    } else {
        assert(x > 0x7fff_ffff_ffff_ffffu64 ==> (x as i64) as i128 == (x as i128)
            - 0x1_0000_0000_0000_0000i128) by (bit_vector);
    }
}

/// `tag + delay` does not overflow.
pub open spec fn add_ok(t: Tag, d: Delay) -> bool {
    &&& (t.0 == i64::MAX || d.0 == u64::MAX || in_i64(t.0 + wrap_i64(d.0)))
    &&& (t.1 == u64::MAX || d.1 == u64::MAX || t.1 + d.1 <= u64::MAX)
}

/// The value of `tag + delay`, where an infinite component stays infinite.
pub open spec fn spec_add(t: Tag, d: Delay) -> Tag {
    Tag(
        if t.0 == i64::MAX || d.0 == u64::MAX { i64::MAX } else { (t.0 + wrap_i64(d.0)) as i64 },
        if t.1 == u64::MAX || d.1 == u64::MAX { u64::MAX } else { (t.1 + d.1) as u64 },
    )
}

/// `tag.strict_plus(delay)` does not overflow.
pub open spec fn strict_plus_ok(t: Tag, d: Delay) -> bool {
    &&& in_i64(t.0 + wrap_i64(d.0))
    &&& t.1 + d.1 <= u64::MAX
    &&& (d.0 != 0 ==> in_i64(t.0 + wrap_i64(d.0) - 1))
}

/// The value of `tag.strict_plus(delay)`: the latest tag strictly before `tag + delay` when the
/// interval is nonzero.
pub open spec fn spec_strict_plus(t: Tag, d: Delay) -> Tag {
    if d.0 != 0 {
        Tag(
            (t.0 + wrap_i64(d.0) - 1) as i64,
            if t.1 + d.1 == 0 { u64::MAX } else { (t.1 + d.1 - 1) as u64 },
        )
    } else {
        Tag((t.0 + wrap_i64(d.0)) as i64, (t.1 + d.1) as u64)
    }
}

/// Whether `tag + delay` can be computed without overflow.
pub fn add_ok_exec(t: Tag, d: Delay) -> (b: bool)
    ensures
        b == add_ok(t, d),
{
    proof {
        lemma_wrap_i64(d.0);
    }
    let sum: i128 = t.0 as i128 + (d.0 as i64) as i128;
    let first = t.0 == i64::MAX || d.0 == u64::MAX || (-0x8000_0000_0000_0000i128 <= sum && sum <= 0x7fff_ffff_ffff_ffffi128);
    let second = t.1 == u64::MAX || d.1 == u64::MAX || (t.1 as u128 + d.1 as u128 <= 0xffff_ffff_ffff_ffffu128);
    first && second
}

/// Whether `tag.strict_plus(delay)` can be computed without overflow.
pub fn strict_plus_ok_exec(t: Tag, d: Delay) -> (b: bool)
    ensures
        b == strict_plus_ok(t, d),
{
    proof {
        lemma_wrap_i64(d.0);
    }
    let sum: i128 = t.0 as i128 + (d.0 as i64) as i128;
    let first = -0x8000_0000_0000_0000i128 <= sum && sum <= 0x7fff_ffff_ffff_ffffi128;
    let second = t.1 as u128 + d.1 as u128 <= 0xffff_ffff_ffff_ffffu128;
    let third = d.0 == 0 || (-0x8000_0000_0000_0000i128 <= sum - 1 && sum - 1 <= 0x7fff_ffff_ffff_ffffi128);
    first && second && third
}

impl Tag {
    /// `self + rhs`, saturating each component that is already infinite.
    pub fn add(self, rhs: Delay) -> (r: Tag)
        requires
            add_ok(self, rhs),
        ensures
            r == spec_add(self, rhs),
    {
        proof {
            lemma_wrap_i64(rhs.0);
        }
        let mut tag = self;
        if tag.0 == i64::MAX || rhs.0 == u64::MAX {
            tag.0 = i64::MAX;
        } else {
            tag.0 = tag.0 + (rhs.0 as i64);
        }
        if tag.1 == u64::MAX || rhs.1 == u64::MAX {
            tag.1 = u64::MAX;
        } else {
            tag.1 = tag.1 + rhs.1;
        }
        tag
    }

    pub fn strict_plus(self, rhs: Delay) -> (r: Tag)
        requires
            strict_plus_ok(self, rhs),
        ensures
            r == spec_strict_plus(self, rhs),
    {
        proof {
            lemma_wrap_i64(rhs.0);
        }
        let mut tag = self;
        tag.0 = tag.0 + (rhs.0 as i64);
        tag.1 = tag.1 + rhs.1;
        if rhs.0 != 0 {
            tag.0 = tag.0 - 1;
            tag.1 = if tag.1 == 0 { u64::MAX } else { tag.1 - 1 };
        }
        tag
    }

    /// `self < other` in the order of `Ord`.
    pub fn lt(&self, other: &Tag) -> (r: bool)
        ensures
            r == tag_lt(*self, *other),
    {
        self.0 < other.0 || (self.0 == other.0 && self.1 < other.1)
    }

    /// `self <= other` in the order of `Ord`.
    pub fn le(&self, other: &Tag) -> (r: bool)
        ensures
            r == tag_le(*self, *other),
    {
        self.0 < other.0 || (self.0 == other.0 && self.1 <= other.1)
    }
}

impl Delay {
    /// `self <= other` in the order of `Ord`.
    pub fn le(&self, other: &Delay) -> (r: bool)
        ensures
            r == delay_le(*self, *other),
    {
        self.0 < other.0 || (self.0 == other.0 && self.1 <= other.1)
    }
}

/// The microstep of a trace record: `-1` stands for the infinite microstep.
pub fn get_nonnegative_microstep(microstep: i64) -> (r: u64)
    requires
        microstep >= -1,
    ensures
        microstep == -1 ==> r == u64::MAX,
        microstep >= 0 ==> r == microstep,
{
    if microstep == -1 {
        u64::MAX
    } else {
        microstep as u64
    }
}

/// The delay that an interval read from a connection-information file denotes: `i64::MIN` is no
/// delay at all, `0` is a microstep delay, and a positive interval is that interval.
pub open spec fn spec_delay_from_interval(interval: i64) -> Delay {
    if interval == i64::MIN {
        Delay(0, 0)
    } else if interval == 0 {
        Delay(0, 1)
    } else {
        Delay(interval as u64, 0)
    }
}

/// A delay that an interval can denote.
pub open spec fn delay_wf(d: Delay) -> bool {
    (d.0 == 0 && d.1 == 0) || (d.0 == 0 && d.1 == 1) || (0 < d.0 <= i64::MAX && d.1 == 0)
}

impl Delay {
    /// The delay that an interval denotes.
    pub fn from_interval(interval: i64) -> (r: Delay)
        requires
            interval == i64::MIN || interval >= 0,
        ensures
            r == spec_delay_from_interval(interval),
            delay_wf(r),
    {
        if interval == i64::MIN {
            Delay(0, 0)
        } else if interval == 0 {
            Delay(0, 1)
        } else {
            Delay(interval as u64, 0)
        }
    }

    /// The interval that a delay stands for; inverse of `from_interval`.
    pub fn to_interval(self) -> (r: i64)
        requires
            delay_wf(self),
        ensures
            spec_delay_from_interval(r) == self,
    {
        if self.0 == 0 && self.1 == 0 {
            i64::MIN
        } else if self.0 == 0 && self.1 == 1 {
            0
        } else {
            self.0 as i64
        }
    }
}

/// What the RTI knows of the connections: for each pair (upstream, downstream) of federates that
/// are connected, the smallest delay of a connection between them.
pub struct SrcDestPair2Delay {
    pub entries: Vec<(FedId, FedId, Delay)>,
    pub n_nodes: usize,
}

/// What a federate knows of its incoming connections: the delay of each of them.
pub struct Fed2UpstreamDelays {
    pub fed: FedId,
    pub delays: Vec<Delay>,
}

pub struct ConnInfo {
    pub stdp2d: SrcDestPair2Delay,
    pub fed2uds: Vec<Fed2UpstreamDelays>,
}

/// At most one entry per pair of federates.
pub open spec fn keys_unique(entries: Seq<(FedId, FedId, Delay)>) -> bool {
    forall|i: int, j: int|
        0 <= i < entries.len() && 0 <= j < entries.len() && i != j ==> !(
        #[trigger] entries[i].0 == #[trigger] entries[j].0 && entries[i].1 == entries[j].1)
}

/// The set of delays in `s`.
pub open spec fn delays_of(s: Seq<Delay>) -> Set<Delay> {
    Set::new(|d: Delay| s.contains(d))
}

/// `m` is the least element of `s`.
pub open spec fn is_least(m: Delay, s: Set<Delay>) -> bool {
    s.contains(m) && forall|d: Delay| s.contains(d) ==> delay_le(m, d)
}

/// `m` is the greatest element of `s`.
pub open spec fn is_greatest(m: Delay, s: Set<Delay>) -> bool {
    s.contains(m) && forall|d: Delay| s.contains(d) ==> delay_le(d, m)
}

/// The minimum of `s` as `Iterator::min` gives it.
pub open spec fn min_of(r: Option<Delay>, s: Set<Delay>) -> bool {
    match r {
        None => s.is_empty(),
        Some(m) => is_least(m, s),
    }
}

/// The maximum of `s` as `Iterator::max` gives it.
pub open spec fn max_of(r: Option<Delay>, s: Set<Delay>) -> bool {
    match r {
        None => s.is_empty(),
        Some(m) => is_greatest(m, s),
    }
}

/// Whether an entry of the RTI's table is a connection into `dest`.
pub open spec fn to_dest(dest: FedId) -> spec_fn((FedId, FedId, Delay)) -> bool {
    |e: (FedId, FedId, Delay)| e.1 == dest
}

/// The upstream federate and the delay of an entry of the RTI's table.
pub open spec fn src_and_delay() -> spec_fn((FedId, FedId, Delay)) -> (FedId, Delay) {
    |e: (FedId, FedId, Delay)| (e.0, e.2)
}

/// Whether an entry of the RTI's table is a connection out of `src`.
pub open spec fn from_src(src: FedId) -> spec_fn((FedId, FedId, Delay)) -> bool {
    |e: (FedId, FedId, Delay)| e.0 == src
}

/// The downstream federate and the delay of an entry of the RTI's table.
pub open spec fn dest_and_delay() -> spec_fn((FedId, FedId, Delay)) -> (FedId, Delay) {
    |e: (FedId, FedId, Delay)| (e.1, e.2)
}

impl ConnInfo {
    pub open spec fn wf(&self) -> bool {
        keys_unique(self.stdp2d.entries@) && keys_sorted(self.stdp2d.entries@)
    }

    /// The smallest delay of a connection from `src` to `dest`, if they are connected.
    pub open spec fn spec_get(&self, src: FedId, dest: FedId) -> Option<Delay> {
        let es = self.stdp2d.entries@;
        if exists|k: int| 0 <= k < es.len() && es[k].0 == src && es[k].1 == dest {
            let k = choose|k: int| 0 <= k < es.len() && es[k].0 == src && es[k].1 == dest;
            Some(es[k].2)
        } else {
            None
        }
    }

    /// The delays of the connections into the federate at position `dest`.
    pub open spec fn delays_into(&self, dest: FedId) -> Seq<Delay> {
        self.fed2uds@[dest.0 as int].delays@
    }

    pub fn n_federates(&self) -> (r: usize)
        ensures
            r == self.stdp2d.n_nodes,
    {
        self.stdp2d.n_nodes
    }

    pub fn get(&self, src: FedId, dest: FedId) -> (r: Option<Delay>)
        requires
            self.wf(),
        ensures
            r == self.spec_get(src, dest),
    {
        let es = &self.stdp2d.entries;
        let mut k: usize = 0;
        while k < es.len()
            invariant
                k <= es@.len(),
                self.wf(),
                es@ == self.stdp2d.entries@,
                forall|j: int| 0 <= j < k ==> !(es@[j].0 == src && es@[j].1 == dest),
            decreases es@.len() - k,
        {
            if es[k].0 == src && es[k].1 == dest {
                proof {
                    let kk = choose|kk: int|
                        0 <= kk < es@.len() && es@[kk].0 == src && es@[kk].1 == dest;
                    assert(kk == k as int);
                }
                return Some(es[k].2);
            }
            k += 1;
        }
        None
    }

    /// The pairs (upstream federate, delay) of the connections into `dest`, in the order in which
    /// the RTI lists them.
    pub fn min_delays2dest(&self, dest: FedId) -> (r: Vec<(FedId, Delay)>)
        ensures
            r@ == self.stdp2d.entries@.filter(to_dest(dest)).map_values(src_and_delay()),
    {
        let es = &self.stdp2d.entries;
        let ghost pred = to_dest(dest);
        let ghost f = src_and_delay();
        let mut r: Vec<(FedId, Delay)> = Vec::new();
        let mut k: usize = 0;
        while k < es.len()
            invariant
                k <= es@.len(),
                pred == to_dest(dest),
                f == src_and_delay(),
                r@ == es@.take(k as int).filter(pred).map_values(f),
            decreases es@.len() - k,
        {
            let ghost prev = es@.take(k as int).filter(pred);
            proof {
                crate::seqs::lemma_filter_take_step(es@, pred, k as int);
            }
            let ghost old_r = r@;
            if es[k].1 == dest {
                r.push((es[k].0, es[k].2));
                proof {
                    assert(prev.push(es@[k as int]).map_values(f) =~= prev.map_values(f).push(
                        f(es@[k as int]),
                    ));
                    assert(r@ =~= old_r.push(f(es@[k as int])));
                }
            }
            k += 1;
        }
        proof {
            assert(es@.take(es@.len() as int) =~= es@);
        }
        r
    }

    /// The pairs (downstream federate, delay) of the connections out of `src`, in the order in
    /// which the RTI lists them.
    pub fn delays_out(&self, src: FedId) -> (r: Vec<(FedId, Delay)>)
        ensures
            r@ == out_seq(*self, src),
    {
        let es = &self.stdp2d.entries;
        let ghost pred = from_src(src);
        let ghost f = dest_and_delay();
        let mut r: Vec<(FedId, Delay)> = Vec::new();
        let mut k: usize = 0;
        while k < es.len()
            invariant
                k <= es@.len(),
                pred == from_src(src),
                f == dest_and_delay(),
                es@ == self.stdp2d.entries@,
                r@ == es@.take(k as int).filter(pred).map_values(f),
            decreases es@.len() - k,
        {
            let ghost prev = es@.take(k as int).filter(pred);
            proof {
                crate::seqs::lemma_filter_take_step(es@, pred, k as int);
            }
            let ghost old_r = r@;
            if es[k].0 == src {
                r.push((es[k].1, es[k].2));
                proof {
                    assert(prev.push(es@[k as int]).map_values(f) =~= prev.map_values(f).push(
                        f(es@[k as int]),
                    ));
                    assert(r@ =~= old_r.push(f(es@[k as int])));
                }
            }
            k += 1;
        }
        proof {
            assert(es@.take(es@.len() as int) =~= es@);
        }
        r
    }

    /// The delays of the connections into the federate at position `dest` of the federates'
    /// tables.
    pub fn delays_in(&self, dest: FedId) -> (r: Vec<Delay>)
        requires
            0 <= dest.0 < self.fed2uds@.len(),
        ensures
            r@ == self.delays_into(dest),
    {
        let src = &self.fed2uds[dest.0 as usize].delays;
        let mut r: Vec<Delay> = Vec::new();
        let mut j: usize = 0;
        while j < src.len()
            invariant
                j <= src@.len(),
                r@ == src@.take(j as int),
            decreases src@.len() - j,
        {
            r.push(src[j]);
            proof {
                assert(src@.take(j + 1) =~= src@.take(j as int).push(src@[j as int]));
            }
            j += 1;
        }
        proof {
            assert(src@.take(src@.len() as int) =~= src@);
        }
        r
    }
}

/// The pairs (downstream federate, delay) of the connections out of `src`: the entries of the
/// RTI's table whose upstream federate is `src`, in its order.
pub open spec fn out_seq(ci: ConnInfo, src: FedId) -> Seq<(FedId, Delay)> {
    ci.stdp2d.entries@.filter(from_src(src)).map_values(dest_and_delay())
}

/// The second components of a sequence of pairs.
pub open spec fn seconds(s: Seq<(FedId, Delay)>) -> Seq<Delay> {
    s.map_values(|p: (FedId, Delay)| p.1)
}

proof fn lemma_delays_of_push(s: Seq<Delay>, d: Delay)
    ensures
        delays_of(s.push(d)) == delays_of(s).insert(d),
{
    assert forall|x: Delay| delays_of(s.push(d)).contains(x) == delays_of(s).insert(d).contains(x) by {
        if s.push(d).contains(x) && x != d {
            let i = choose|i: int| 0 <= i < s.push(d).len() && s.push(d)[i] == x;
            assert(s[i] == x);
        }
        if s.contains(x) {
            let i = choose|i: int| 0 <= i < s.len() && s[i] == x;
            assert(s.push(d)[i] == x);
        }
        if x == d {
            assert(s.push(d)[s.len() as int] == x);
        }
    }
    assert(delays_of(s.push(d)) =~= delays_of(s).insert(d));
}

/// The least delay in `v`, as `Iterator::min` gives it.
pub fn least(v: &Vec<Delay>) -> (r: Option<Delay>)
    ensures
        min_of(r, delays_of(v@)),
{
    let mut best: Option<Delay> = None;
    let mut k: usize = 0;
    proof {
        assert(delays_of(v@.take(0)) =~= Set::<Delay>::empty());
    }
    while k < v.len()
        invariant
            k <= v@.len(),
            min_of(best, delays_of(v@.take(k as int))),
        decreases v@.len() - k,
    {
        let d = v[k];
        proof {
            assert(v@.take(k + 1) =~= v@.take(k as int).push(d));
            lemma_delays_of_push(v@.take(k as int), d);
        }
        match best {
            None => {
                best = Some(d);
                proof {
                    assert(delays_of(v@.take(k + 1)) =~= Set::<Delay>::empty().insert(d));
                }
            },
            Some(b) => {
                if !b.le(&d) {
                    best = Some(d);
                }
            },
        }
        k += 1;
    }
    proof {
        assert(v@.take(v@.len() as int) =~= v@);
    }
    best
}

/// The greatest delay in `v`, as `Iterator::max` gives it.
pub fn greatest(v: &Vec<Delay>) -> (r: Option<Delay>)
    ensures
        max_of(r, delays_of(v@)),
{
    let mut best: Option<Delay> = None;
    let mut k: usize = 0;
    proof {
        assert(delays_of(v@.take(0)) =~= Set::<Delay>::empty());
    }
    while k < v.len()
        invariant
            k <= v@.len(),
            max_of(best, delays_of(v@.take(k as int))),
        decreases v@.len() - k,
    {
        let d = v[k];
        proof {
            assert(v@.take(k + 1) =~= v@.take(k as int).push(d));
            lemma_delays_of_push(v@.take(k as int), d);
        }
        match best {
            None => {
                best = Some(d);
                proof {
                    assert(delays_of(v@.take(k + 1)) =~= Set::<Delay>::empty().insert(d));
                }
            },
            Some(b) => {
                if b.le(&d) {
                    best = Some(d);
                }
            },
        }
        k += 1;
    }
    proof {
        assert(v@.take(v@.len() as int) =~= v@);
    }
    best
}

/// The second components of `v`.
pub fn second_components(v: &Vec<(FedId, Delay)>) -> (r: Vec<Delay>)
    ensures
        r@ == seconds(v@),
{
    let mut r: Vec<Delay> = Vec::new();
    let mut k: usize = 0;
    while k < v.len()
        invariant
            k <= v@.len(),
            r@ == seconds(v@.take(k as int)),
        decreases v@.len() - k,
    {
        r.push(v[k].1);
        proof {
            assert(seconds(v@.take(k + 1)) =~= seconds(v@.take(k as int)).push(v@[k as int].1));
        }
        k += 1;
    }
    proof {
        assert(v@.take(v@.len() as int) =~= v@);
    }
    r
}

// ---------------------------------------------------------------------------------------------
// Reading the connection information
// ---------------------------------------------------------------------------------------------

/// `(src, dest)` comes before `(src2, dest2)` in the order of the RTI's table.
pub open spec fn key_lt(a: (FedId, FedId, Delay), b: (FedId, FedId, Delay)) -> bool {
    a.0.0 < b.0.0 || (a.0.0 == b.0.0 && a.1.0 < b.1.0)
}

/// The entries are in increasing order of their pairs of federates, as a `BTreeMap` keeps them.
pub open spec fn keys_sorted(entries: Seq<(FedId, FedId, Delay)>) -> bool {
    forall|i: int, j: int| 0 <= i < j < entries.len() ==> key_lt(#[trigger] entries[i], #[trigger] entries[j])
}

/// The table that a sequence of insertions leaves, the last insertion for a pair winning.
pub open spec fn table_of(ins: Seq<(FedId, FedId, Delay)>) -> Map<(FedId, FedId), Delay>
    decreases ins.len(),
{
    if ins.len() == 0 {
        Map::empty()
    } else {
        table_of(ins.drop_last()).insert((ins.last().0, ins.last().1), ins.last().2)
    }
}

proof fn lemma_table_of_index(es: Seq<(FedId, FedId, Delay)>)
    requires
        keys_unique(es),
    ensures
        forall|k: (FedId, FedId)| #[trigger] table_of(es).contains_key(k) <==> exists|i: int| 0 <= i < es.len() && es[i].0 == k.0 && es[i].1 == k.1,
        forall|i: int| 0 <= i < es.len() ==> #[trigger] table_of(es)[(es[i].0, es[i].1)] == es[i].2,
    decreases es.len(),
{
    if es.len() > 0 {
        let d = es.drop_last();
        assert(keys_unique(d)) by {
            assert forall|i: int, j: int| 0 <= i < d.len() && 0 <= j < d.len() && i != j implies !(#[trigger] d[i].0 == #[trigger] d[j].0 && d[i].1 == d[j].1) by {
                assert(d[i] == es[i] && d[j] == es[j]);
            }
        }
        lemma_table_of_index(d);
        let l = es.last();
        assert forall|k: (FedId, FedId)| #[trigger] table_of(es).contains_key(k) <==> exists|i: int| 0 <= i < es.len() && es[i].0 == k.0 && es[i].1 == k.1 by {
            if table_of(es).contains_key(k) && k != (l.0, l.1) {
                assert(table_of(d).contains_key(k));
                let i = choose|i: int| 0 <= i < d.len() && d[i].0 == k.0 && d[i].1 == k.1;
                assert(es[i] == d[i]);
            }
            if exists|i: int| 0 <= i < es.len() && es[i].0 == k.0 && es[i].1 == k.1 {
                let i = choose|i: int| 0 <= i < es.len() && es[i].0 == k.0 && es[i].1 == k.1;
                if i < es.len() - 1 {
                    assert(d[i] == es[i]);
                    assert(table_of(d).contains_key(k));
                }
            }
        }
        assert forall|i: int| 0 <= i < es.len() implies #[trigger] table_of(es)[(es[i].0, es[i].1)] == es[i].2 by {
            if i < es.len() - 1 {
                assert(d[i] == es[i]);
                assert(!(es[i].0 == es[es.len() - 1].0 && es[i].1 == es[es.len() - 1].1));
                assert(table_of(d)[(d[i].0, d[i].1)] == d[i].2);
                assert((es[i].0, es[i].1) != (l.0, l.1));
            } else {
                assert(es[i] == l);
            }
        }
    }
}

/// Records a connection delay in a table kept in order, replacing the entry for the same pair.
fn insert_sorted(entries: &mut Vec<(FedId, FedId, Delay)>, e: (FedId, FedId, Delay))
    requires
        keys_unique(old(entries)@),
        keys_sorted(old(entries)@),
    ensures
        keys_unique(final(entries)@),
        keys_sorted(final(entries)@),
        table_of(final(entries)@) == table_of(old(entries)@).insert((e.0, e.1), e.2),
{
    let ghost before = entries@;
    let mut p: usize = 0;
    while p < entries.len() && (entries[p].0.0 < e.0.0 || (entries[p].0.0 == e.0.0 && entries[p].1.0 < e.1.0))
        invariant
            p <= entries.len(),
            entries@ == before,
            forall|q: int| 0 <= q < p ==> key_lt(#[trigger] entries@[q], e),
        decreases entries.len() - p,
    {
        p = p + 1;
    }
    let ghost target = before.push(e);
    proof {
        lemma_table_of_index(before);
    }
    if p < entries.len() && entries[p].0.0 == e.0.0 && entries[p].1.0 == e.1.0 {
        entries.set(p, e);
        proof {
            let after = entries@;
            assert(keys_unique(after)) by {
                assert forall|i: int, j: int| 0 <= i < after.len() && 0 <= j < after.len() && i != j implies !(#[trigger] after[i].0 == #[trigger] after[j].0 && after[i].1 == after[j].1) by {
                    assert(before[i].0 == after[i].0 && before[i].1 == after[i].1);
                    assert(before[j].0 == after[j].0 && before[j].1 == after[j].1);
                }
            }
            assert(keys_sorted(after)) by {
                assert forall|i: int, j: int| 0 <= i < j < after.len() implies key_lt(#[trigger] after[i], #[trigger] after[j]) by {
                    assert(key_lt(before[i], before[j]));
                }
            }
            lemma_table_of_index(after);
            assert(table_of(after) =~= table_of(before).insert((e.0, e.1), e.2)) by {
                assert forall|k: (FedId, FedId)| #[trigger] table_of(after).contains_key(k) <==> table_of(before).insert((e.0, e.1), e.2).contains_key(k) by {
                    if table_of(after).contains_key(k) {
                        let i = choose|i: int| 0 <= i < after.len() && after[i].0 == k.0 && after[i].1 == k.1;
                        assert(before[i].0 == k.0 && before[i].1 == k.1);
                    }
                    if table_of(before).contains_key(k) {
                        let i = choose|i: int| 0 <= i < before.len() && before[i].0 == k.0 && before[i].1 == k.1;
                        assert(after[i].0 == k.0 && after[i].1 == k.1);
                    }
                    if k == (e.0, e.1) {
                        assert(after[p as int].0 == k.0 && after[p as int].1 == k.1);
                    }
                }
                assert forall|k: (FedId, FedId)| table_of(after).contains_key(k) implies table_of(after)[k] == table_of(before).insert((e.0, e.1), e.2)[k] by {
                    let i = choose|i: int| 0 <= i < after.len() && after[i].0 == k.0 && after[i].1 == k.1;
                    assert(table_of(after)[(after[i].0, after[i].1)] == after[i].2);
                    if i != p {
                        assert(after[i] == before[i]);
                        assert(table_of(before)[(before[i].0, before[i].1)] == before[i].2);
                    }
                }
            }
        }
    } else {
        entries.insert(p, e);
        proof {
            let after = entries@;
            assert(after.len() == before.len() + 1);
            assert forall|i: int| 0 <= i < after.len() implies #[trigger] after[i] == (if i < p {
                before[i]
            } else if i == p {
                e
            } else {
                before[i - 1]
            }) by {}
            assert(keys_sorted(after)) by {
                assert forall|i: int, j: int| 0 <= i < j < after.len() implies key_lt(#[trigger] after[i], #[trigger] after[j]) by {
                    if j < p {
                        assert(key_lt(before[i], before[j]));
                    } else if j == p {
                        assert(key_lt(before[i], e));
                    } else if i < p {
                        assert(key_lt(before[i], e));
                        assert(!key_lt(before[p as int], e));
                        if j - 1 > p {
                            assert(key_lt(before[p as int], before[j - 1]));
                        }
                    } else if i == p {
                        assert(!key_lt(before[p as int], e));
                        if j - 1 > p {
                            assert(key_lt(before[p as int], before[j - 1]));
                        }
                    } else {
                        assert(key_lt(before[i - 1], before[j - 1]));
                    }
                }
            }
            assert(keys_unique(after)) by {
                assert forall|i: int, j: int| 0 <= i < after.len() && 0 <= j < after.len() && i != j implies !(#[trigger] after[i].0 == #[trigger] after[j].0 && after[i].1 == after[j].1) by {
                    if i < j {
                        assert(key_lt(after[i], after[j]));
                    } else {
                        assert(key_lt(after[j], after[i]));
                    }
                }
            }
            lemma_table_of_index(after);
            assert(table_of(after) =~= table_of(before).insert((e.0, e.1), e.2)) by {
                assert forall|k: (FedId, FedId)| #[trigger] table_of(after).contains_key(k) <==> table_of(before).insert((e.0, e.1), e.2).contains_key(k) by {
                    if table_of(after).contains_key(k) {
                        let i = choose|i: int| 0 <= i < after.len() && after[i].0 == k.0 && after[i].1 == k.1;
                        if i < p {
                            assert(before[i] == after[i]);
                        } else if i > p {
                            assert(before[i - 1] == after[i]);
                        }
                    }
                    if table_of(before).contains_key(k) {
                        let i = choose|i: int| 0 <= i < before.len() && before[i].0 == k.0 && before[i].1 == k.1;
                        if i < p {
                            assert(after[i] == before[i]);
                        } else {
                            assert(after[i + 1] == before[i]);
                        }
                    }
                    if k == (e.0, e.1) {
                        assert(after[p as int] == e);
                    }
                }
                assert forall|k: (FedId, FedId)| table_of(after).contains_key(k) implies table_of(after)[k] == table_of(before).insert((e.0, e.1), e.2)[k] by {
                    let i = choose|i: int| 0 <= i < after.len() && after[i].0 == k.0 && after[i].1 == k.1;
                    assert(table_of(after)[(after[i].0, after[i].1)] == after[i].2);
                    if i < p {
                        assert(after[i] == before[i]);
                        assert(table_of(before)[(before[i].0, before[i].1)] == before[i].2);
                        assert(key_lt(before[i], e));
                    } else if i > p {
                        assert(after[i] == before[i - 1]);
                        assert(table_of(before)[(before[i - 1].0, before[i - 1].1)] == before[i - 1].2);
                        assert(!key_lt(before[p as int], e));
                        if i - 1 > p {
                            assert(key_lt(before[p as int], before[i - 1]));
                        }
                        if i - 1 == p {
                            assert(!(before[p as int].0.0 == e.0.0 && before[p as int].1.0 == e.1.0));
                        }
                    }
                }
            }
        }
    }
}

/// A word read as `str::parse::<usize>` reads it.
pub open spec fn parse_count_tok(w: Seq<char>) -> Option<usize> {
    if is_decimal(w, false) && decimal_value(w) <= usize::MAX {
        Some(decimal_value(w) as usize)
    } else {
        None
    }
}

/// A word read as `str::parse::<i32>` reads it.
pub open spec fn parse_i32_tok(w: Seq<char>) -> Option<i32> {
    if is_decimal(w, true) && i32::MIN <= decimal_value(w) <= i32::MAX {
        Some(decimal_value(w) as i32)
    } else {
        None
    }
}

/// A word read as `str::parse::<i64>` reads it.
pub open spec fn parse_i64_tok(w: Seq<char>) -> Option<i64> {
    if is_decimal(w, true) && i64::MIN <= decimal_value(w) <= i64::MAX {
        Some(decimal_value(w) as i64)
    } else {
        None
    }
}

/// The delay that a text denotes: the interval that is its first word. A negative interval
/// other than the one that stands for no delay denotes none.
pub open spec fn parse_delay_text(t: Seq<char>) -> Option<Delay> {
    let ws = spec_words(t);
    if ws.len() == 0 {
        None
    } else {
        match parse_i64_tok(ws[0]) {
            Some(i) => if i == i64::MIN || i >= 0 {
                Some(spec_delay_from_interval(i))
            } else {
                None
            },
            None => None,
        }
    }
}

/// The first `n` connections of a line of the RTI's table, whose words are `ws`, into `enclave`:
/// pairs of an upstream federate and a delay, after the enclave and the count.
pub open spec fn node_entries(ws: Seq<Seq<char>>, enclave: i32, n: nat) -> Option<Seq<(FedId, FedId, Delay)>>
    decreases n,
{
    if n == 0 {
        Some(seq![])
    } else {
        match node_entries(ws, enclave, (n - 1) as nat) {
            None => None,
            Some(prev) => {
                let k = n - 1;
                if 3 + 2 * k < ws.len() {
                    match (parse_i32_tok(ws[2 + 2 * k]), parse_delay_text(ws[3 + 2 * k])) {
                        (Some(up), Some(d)) => Some(prev.push((FedId(up), FedId(enclave), d))),
                        _ => None,
                    }
                } else {
                    None
                }
            },
        }
    }
}

/// The connections that a line of the RTI's table lists, in order.
pub open spec fn parse_node(line: Seq<char>) -> Option<Seq<(FedId, FedId, Delay)>> {
    let ws = spec_words(line);
    if ws.len() < 2 {
        None
    } else {
        match (parse_i32_tok(ws[0]), parse_count_tok(ws[1])) {
            (Some(enclave), Some(n)) => node_entries(ws, enclave, n as nat),
            _ => None,
        }
    }
}

/// The connections of the first `n` scheduling nodes, whose lines follow the first line.
pub open spec fn parse_nodes(ls: Seq<Seq<char>>, n: nat) -> Option<Seq<(FedId, FedId, Delay)>>
    decreases n,
{
    if n == 0 {
        Some(seq![])
    } else {
        match parse_nodes(ls, (n - 1) as nat) {
            None => None,
            Some(prev) => if n < ls.len() {
                match parse_node(ls[n as int]) {
                    Some(p) => Some(prev + p),
                    None => None,
                }
            } else {
                None
            },
        }
    }
}

/// The RTI's connection table: the number of scheduling nodes on the first line, then a line per
/// node with its id, the number of its upstream federates, and a federate and a delay for each.
/// Gives the connections in the order listed, and the number of nodes.
pub open spec fn parse_rti(s: Seq<char>) -> Option<(Seq<(FedId, FedId, Delay)>, usize)> {
    let ls = spec_lines(s);
    if ls.len() == 0 {
        None
    } else {
        match parse_count_tok(ls[0]) {
            None => None,
            Some(n) => match parse_nodes(ls, n as nat) {
                None => None,
                Some(ins) => Some((ins, n)),
            },
        }
    }
}

/// The first `n` delays of a federate's line, after its id and the count.
pub open spec fn fed_delays(ws: Seq<Seq<char>>, n: nat) -> Option<Seq<Delay>>
    decreases n,
{
    if n == 0 {
        Some(seq![])
    } else {
        match fed_delays(ws, (n - 1) as nat) {
            None => None,
            Some(prev) => if 2 + (n - 1) < ws.len() {
                match parse_delay_text(ws[2 + (n - 1)]) {
                    Some(d) => Some(prev.push(d)),
                    None => None,
                }
            } else {
                None
            },
        }
    }
}

/// A federate's connection information: its id, the number of its incoming connections, and the
/// delay of each.
pub open spec fn parse_fed(s: Seq<char>) -> Option<(FedId, Seq<Delay>)> {
    let ws = spec_words(s);
    if ws.len() < 2 {
        None
    } else {
        match (parse_i32_tok(ws[0]), parse_count_tok(ws[1])) {
            (Some(f), Some(n)) => match fed_delays(ws, n as nat) {
                Some(ds) => Some((FedId(f), ds)),
                None => None,
            },
            _ => None,
        }
    }
}

/// The text that `str::parse::<i32>` gives for its error on a text it refuses: a function of the
/// text alone.
pub uninterp spec fn i32_parse_error_text(s: Seq<char>) -> Seq<char>;

/// The text that `str::parse::<usize>` gives for its error on a text it refuses: a function of
/// the text alone.
pub uninterp spec fn usize_parse_error_text(s: Seq<char>) -> Seq<char>;

/// The message of the error of `str::parse::<i32>` on a text that it refuses, by `to_string` on
/// the `ParseIntError`.
#[verifier::external_body]
fn i32_parse_error(s: &str) -> (r: String)
    requires
        parse_i32_tok(s@) is None,
    ensures
        r@ == i32_parse_error_text(s@),
{
    match s.parse::<i32>() {
        Err(e) => e.to_string(),
        Ok(_) => String::new(),
    }
}

/// The message of the error of `str::parse::<usize>` on a text that it refuses, by `to_string` on
/// the `ParseIntError`.
#[verifier::external_body]
fn usize_parse_error(s: &str) -> (r: String)
    requires
        parse_count_tok(s@) is None,
    ensures
        r@ == usize_parse_error_text(s@),
{
    match s.parse::<usize>() {
        Err(e) => e.to_string(),
        Ok(_) => String::new(),
    }
}

/// The message `prefix` followed by `e`.
fn prefixed(prefix: &str, e: String) -> (r: String)
    ensures
        r@ == prefix@ + e@,
{
    let mut v = chars_of(prefix);
    extend_chars(&mut v, &chars_of(e.as_str()));
    string_from_chars(&v)
}

fn error_text_i32(prefix: &str, bad: &Vec<char>) -> (r: String)
    requires
        parse_i32_tok(bad@) is None,
    ensures
        r@ == prefix@ + i32_parse_error_text(bad@),
{
    let text = string_from_chars(bad);
    prefixed(prefix, i32_parse_error(text.as_str()))
}

fn error_text_usize(prefix: &str, bad: &Vec<char>) -> (r: String)
    requires
        parse_count_tok(bad@) is None,
    ensures
        r@ == prefix@ + usize_parse_error_text(bad@),
{
    let text = string_from_chars(bad);
    prefixed(prefix, usize_parse_error(text.as_str()))
}

fn parse_count(w: &[char]) -> (r: Option<usize>)
    ensures
        r == parse_count_tok(w@),
{
    proof {
        if is_decimal(w@, false) {
            lemma_unsigned_decimal_nonneg(w@);
        }
    }
    match parse_decimal(w, 0, 0xffff_ffff_ffff_ffff) {
        Some(v) => if v <= usize::MAX as i128 {
            Some(v as usize)
        } else {
            None
        },
        None => None,
    }
}

fn parse_i32(w: &[char]) -> (r: Option<i32>)
    ensures
        r == parse_i32_tok(w@),
{
    match parse_decimal(w, i32::MIN as i128, i32::MAX as i128) {
        Some(v) => Some(v as i32),
        None => None,
    }
}

fn parse_i64(w: &[char]) -> (r: Option<i64>)
    ensures
        r == parse_i64_tok(w@),
{
    match parse_decimal(w, i64::MIN as i128, i64::MAX as i128) {
        Some(v) => Some(v as i64),
        None => None,
    }
}

/// Reads a delay: the interval that is the first word of the text. A negative interval other
/// than the one that stands for no delay, on which `Delay::from` gives up, is an error here.
pub fn parse_delay(s: &[char]) -> (r: Result<Delay, String>)
    ensures
        r is Ok <==> parse_delay_text(s@) is Some,
        r matches Ok(d) ==> parse_delay_text(s@) == Some(d) && delay_wf(d),
{
    let ws = words(s);
    if ws.len() == 0 {
        return Err("No interval".to_owned());
    }
    assert(ws@[0]@ == spec_words(s@)[0]);
    match parse_i64(ws[0].as_slice()) {
        Some(i) => if i == i64::MIN || i >= 0 {
            Ok(Delay::from_interval(i))
        } else {
            Err("Negative interval".to_owned())
        },
        None => Err(error_text("Invalid interval: ", &ws[0])),
    }
}

proof fn lemma_node_entries_none(ws: Seq<Seq<char>>, enclave: i32, m: nat, n: nat)
    requires
        m <= n,
        node_entries(ws, enclave, m) is None,
    ensures
        node_entries(ws, enclave, n) is None,
    decreases n - m,
{
    if m < n {
        lemma_node_entries_none(ws, enclave, m, (n - 1) as nat);
    }
}

proof fn lemma_parse_nodes_none(ls: Seq<Seq<char>>, m: nat, n: nat)
    requires
        m <= n,
        parse_nodes(ls, m) is None,
    ensures
        parse_nodes(ls, n) is None,
    decreases n - m,
{
    if m < n {
        lemma_parse_nodes_none(ls, m, (n - 1) as nat);
    }
}

proof fn lemma_fed_delays_none(ws: Seq<Seq<char>>, m: nat, n: nat)
    requires
        m <= n,
        fed_delays(ws, m) is None,
    ensures
        fed_delays(ws, n) is None,
    decreases n - m,
{
    if m < n {
        lemma_fed_delays_none(ws, m, (n - 1) as nat);
    }
}

/// Reads the connections that a line of the RTI's table lists.
fn parse_node_line(line: &[char]) -> (r: Result<Vec<(FedId, FedId, Delay)>, String>)
    ensures
        match r {
            Ok(v) => parse_node(line@) == Some(v@),
            Err(_) => parse_node(line@) is None,
        },
{
    let ws = words(line);
    let ghost wv = rows_view(ws@);
    if ws.len() < 1 {
        return Err("No enclave id".to_owned());
    }
    assert(wv[0] == ws@[0]@);
    let enclave = match parse_i32(ws[0].as_slice()) {
        Some(x) => x,
        None => {
            return Err(error_text_i32("Invalid enclave id: ", &ws[0]));
        },
    };
    if ws.len() < 2 {
        return Err("No number of upstream federates".to_owned());
    }
    assert(wv[1] == ws@[1]@);
    let num_upstream = match parse_count(ws[1].as_slice()) {
        Some(x) => x,
        None => {
            return Err(error_text_usize("Invalid number of upstream federates: ", &ws[1]));
        },
    };
    let mut out: Vec<(FedId, FedId, Delay)> = Vec::new();
    let mut u: usize = 0;
    let mut idx: usize = 2;
    while u < num_upstream
        invariant
            u <= num_upstream,
            idx == 2 + 2 * u,
            idx <= ws.len(),
            wv == rows_view(ws@),
            wv == spec_words(line@),
            wv.len() >= 2,
            parse_i32_tok(wv[0]) == Some(enclave),
            parse_count_tok(wv[1]) == Some(num_upstream),
            node_entries(wv, enclave, u as nat) == Some(out@),
        decreases num_upstream - u,
    {
        if idx >= ws.len() {
            proof {
                lemma_node_entries_none(wv, enclave, (u + 1) as nat, num_upstream as nat);
            }
            return Err("No upstream federate id".to_owned());
        }
        assert(wv[idx as int] == ws@[idx as int]@);
        let up = match parse_i32(ws[idx].as_slice()) {
            Some(x) => x,
            None => {
                proof {
                    if 3 + 2 * u < wv.len() {
                        assert(parse_i32_tok(wv[2 + 2 * u]) is None);
                    }
                    lemma_node_entries_none(wv, enclave, (u + 1) as nat, num_upstream as nat);
                }
                return Err(error_text_i32("Invalid upstream federate id: ", &ws[idx]));
            },
        };
        if idx + 1 >= ws.len() {
            proof {
                lemma_node_entries_none(wv, enclave, (u + 1) as nat, num_upstream as nat);
            }
            return Err("No upstream delay".to_owned());
        }
        assert(wv[idx + 1] == ws@[idx + 1]@);
        let d = match parse_delay(ws[idx + 1].as_slice()) {
            Ok(x) => x,
            Err(e) => {
                proof {
                    lemma_node_entries_none(wv, enclave, (u + 1) as nat, num_upstream as nat);
                }
                return Err(prefixed("Invalid upstream delay: ", e));
            },
        };
        out.push((FedId(up), FedId(enclave), d));
        u = u + 1;
        idx = idx + 2;
    }
    Ok(out)
}

impl SrcDestPair2Delay {
    /// Reads the RTI's connection table: the number of scheduling nodes on the first line, then a
    /// line per node with its id, the number of its upstream federates, and a federate and a
    /// delay for each. A later entry for the same pair of federates replaces an earlier one.
    pub fn from_str(s: &str) -> (r: Result<Self, String>)
        ensures
            match r {
                Ok(x) => parse_rti(s@) matches Some(p) && x.n_nodes == p.1 && keys_unique(x.entries@)
                    && keys_sorted(x.entries@) && table_of(x.entries@) == table_of(p.0),
                Err(_) => parse_rti(s@) is None,
            },
    {
        let chars = chars_of(s);
        let ls = lines(chars.as_slice());
        let ghost lv = rows_view(ls@);
        if ls.len() == 0 {
            return Err("No number of scheduling nodes".to_owned());
        }
        assert(lv[0] == ls@[0]@);
        let num_nodes = match parse_count(ls[0].as_slice()) {
            Some(x) => x,
            None => {
                return Err(error_text_usize("Invalid number of scheduling nodes: ", &ls[0]));
            },
        };
        let mut entries: Vec<(FedId, FedId, Delay)> = Vec::new();
        let ghost mut ins: Seq<(FedId, FedId, Delay)> = seq![];
        let mut k: usize = 0;
        while k < num_nodes
            invariant
                k <= num_nodes,
                lv == rows_view(ls@),
                lv == spec_lines(s@),
                lv.len() >= 1,
                parse_count_tok(lv[0]) == Some(num_nodes),
                parse_nodes(lv, k as nat) == Some(ins),
                keys_unique(entries@),
                keys_sorted(entries@),
                table_of(entries@) == table_of(ins),
            decreases num_nodes - k,
        {
            if k + 1 >= ls.len() {
                proof {
                    lemma_parse_nodes_none(lv, (k + 1) as nat, num_nodes as nat);
                }
                return Err("No scheduling node".to_owned());
            }
            assert(lv[k + 1] == ls@[k + 1]@);
            let node = match parse_node_line(ls[k + 1].as_slice()) {
                Ok(v) => v,
                Err(e) => {
                    proof {
                        lemma_parse_nodes_none(lv, (k + 1) as nat, num_nodes as nat);
                    }
                    return Err(e);
                },
            };
            let ghost base = ins;
            let mut j: usize = 0;
            while j < node.len()
                invariant
                    j <= node.len(),
                    ins == base + node@.take(j as int),
                    keys_unique(entries@),
                    keys_sorted(entries@),
                    table_of(entries@) == table_of(ins),
                decreases node.len() - j,
            {
                insert_sorted(&mut entries, node[j]);
                proof {
                    let next = base + node@.take(j + 1);
                    assert(next =~= ins.push(node@[j as int]));
                    assert(next.drop_last() =~= ins);
                    ins = next;
                }
                j = j + 1;
            }
            assert(node@.take(node.len() as int) =~= node@);
            k = k + 1;
        }
        Ok(SrcDestPair2Delay { entries, n_nodes: num_nodes })
    }
}

impl Fed2UpstreamDelays {
    /// Reads a federate's connection information: its id, the number of its incoming
    /// connections, and the delay of each.
    pub fn from_str(s: &str) -> (r: Result<Self, String>)
        ensures
            match r {
                Ok(x) => parse_fed(s@) == Some((x.fed, x.delays@)),
                Err(_) => parse_fed(s@) is None,
            },
    {
        let chars = chars_of(s);
        let ws = words(chars.as_slice());
        let ghost wv = rows_view(ws@);
        if ws.len() < 1 {
            return Err("No federate id".to_owned());
        }
        assert(wv[0] == ws@[0]@);
        let fed_id = match parse_i32(ws[0].as_slice()) {
            Some(x) => x,
            None => {
                return Err(error_text_i32("Invalid federate id: ", &ws[0]));
            },
        };
        if ws.len() < 2 {
            return Err("No number of delays".to_owned());
        }
        assert(wv[1] == ws@[1]@);
        let n_delays = match parse_count(ws[1].as_slice()) {
            Some(x) => x,
            None => {
                return Err(error_text_usize("Invalid number of delays: ", &ws[1]));
            },
        };
        let mut delays: Vec<Delay> = Vec::new();
        let mut k: usize = 0;
        while k < n_delays
            invariant
                k <= n_delays,
                wv == rows_view(ws@),
                wv == spec_words(s@),
                wv.len() >= 2,
                parse_i32_tok(wv[0]) == Some(fed_id),
                parse_count_tok(wv[1]) == Some(n_delays),
                fed_delays(wv, k as nat) == Some(delays@),
                k + 2 <= ws.len() || k == 0,
            decreases n_delays - k,
        {
            if k + 2 >= ws.len() {
                proof {
                    lemma_fed_delays_none(wv, (k + 1) as nat, n_delays as nat);
                }
                return Err("No delay".to_owned());
            }
            assert(wv[k + 2] == ws@[k + 2]@);
            let d = match parse_delay(ws[k + 2].as_slice()) {
                Ok(x) => x,
                Err(e) => {
                    proof {
                        lemma_fed_delays_none(wv, (k + 1) as nat, n_delays as nat);
                    }
                    return Err(prefixed("Invalid delay: ", e));
                },
            };
            delays.push(d);
            k = k + 1;
        }
        Ok(Fed2UpstreamDelays { fed: FedId(fed_id), delays })
    }
}

/// The connection information that the RTI's table and the federates' lines give, when each of
/// them reads.
pub open spec fn conninfo_of(r: ConnInfo, rti: Seq<char>, federates: Seq<String>) -> bool {
    &&& parse_rti(rti) matches Some(p) && r.stdp2d.n_nodes == p.1 && table_of(r.stdp2d.entries@) == table_of(p.0)
    &&& r.wf()
    &&& r.fed2uds.len() == federates.len()
    &&& forall|i: int| 0 <= i < federates.len() ==> parse_fed(federates[i]@) == Some((#[trigger] r.fed2uds[i].fed, r.fed2uds[i].delays@))
}

/// Every text reads.
pub open spec fn conninfo_reads(rti: Seq<char>, federates: Seq<String>) -> bool {
    &&& parse_rti(rti) is Some
    &&& forall|i: int| 0 <= i < federates.len() ==> (#[trigger] parse_fed(federates[i]@)) is Some
}

impl ConnInfo {
    /// Reads the connection information from the RTI's table and the federates' lines, or says
    /// which of them does not read.
    pub fn try_from_strs(rti: &str, federates: &[String]) -> (r: Result<ConnInfo, String>)
        ensures
            match r {
                Ok(c) => conninfo_of(c, rti@, federates@),
                Err(_) => !conninfo_reads(rti@, federates@),
            },
    {
        let stdp2d = match SrcDestPair2Delay::from_str(rti) {
            Ok(x) => x,
            Err(e) => {
                return Err(e);
            },
        };
        let mut fed2uds: Vec<Fed2UpstreamDelays> = Vec::new();
        let mut i: usize = 0;
        while i < federates.len()
            invariant
                i <= federates.len(),
                fed2uds.len() == i,
                forall|q: int| 0 <= q < i ==> parse_fed(federates@[q]@) == Some((#[trigger] fed2uds[q].fed, fed2uds[q].delays@)),
            decreases federates.len() - i,
        {
            let f = match Fed2UpstreamDelays::from_str(federates[i].as_str()) {
                Ok(x) => x,
                Err(e) => {
                    assert(parse_fed(federates@[i as int]@) is None);
                    return Err(e);
                },
            };
            fed2uds.push(f);
            i = i + 1;
        }
        Ok(ConnInfo { stdp2d, fed2uds })
    }

    /// Reads the connection information from the RTI's table and the federates' lines.
    pub fn from_strs(rti: &str, federates: &[String]) -> (r: ConnInfo)
        requires
            conninfo_reads(rti@, federates@),
        ensures
            conninfo_of(r, rti@, federates@),
    {
        match Self::try_from_strs(rti, federates) {
            Ok(c) => c,
            Err(_) => {
                assert(false);
                ConnInfo { stdp2d: SrcDestPair2Delay { entries: Vec::new(), n_nodes: 0 }, fed2uds: Vec::new() }
            },
        }
    }
}

/// The name is that of a federate's connection file: `conninfo_`, then a number as
/// `str::parse::<u32>` reads it, then the extension `.txt`.
pub open spec fn is_fed_conninfo_name(name: Seq<char>) -> bool {
    &&& name.len() >= 13
    &&& name.take(9) == "conninfo_"@
    &&& name.skip(name.len() - 4) == ".txt"@
    &&& is_decimal(name.subrange(9, name.len() - 4), false)
    &&& decimal_value(name.subrange(9, name.len() - 4)) <= u32::MAX
}

/// Whether a file of the directory of a test holds a federate's connection information.
pub fn is_fed_conninfo_file_name(name: &str) -> (r: bool)
    ensures
        r == is_fed_conninfo_name(name@),
{
    let c = chars_of(name);
    let prefix = chars_of("conninfo_");
    let suffix = chars_of(".txt");
    proof {
        reveal_strlit("conninfo_");
        reveal_strlit(".txt");
    }
    if c.len() < 13 {
        return false;
    }
    let mut k: usize = 0;
    while k < 9
        invariant
            c@ == name@,
            c@.len() >= 13,
            prefix@ == "conninfo_"@,
            prefix@.len() == 9,
            k <= 9,
            forall|j: int| 0 <= j < k ==> c@[j] == prefix@[j],
        decreases 9 - k,
    {
        if c[k] != prefix[k] {
            assert(c@.take(9)[k as int] != "conninfo_"@[k as int]);
            return false;
        }
        k += 1;
    }
    assert(c@.take(9) =~= "conninfo_"@);
    let n = c.len();
    let mut k: usize = 0;
    while k < 4
        invariant
            c@ == name@,
            n == c@.len(),
            n >= 13,
            suffix@ == ".txt"@,
            suffix@.len() == 4,
            k <= 4,
            forall|j: int| 0 <= j < k ==> c@[n - 4 + j] == suffix@[j],
        decreases 4 - k,
    {
        if c[n - 4 + k] != suffix[k] {
            assert(c@.skip(n - 4)[k as int] != ".txt"@[k as int]);
            return false;
        }
        k += 1;
    }
    assert(c@.skip(n - 4) =~= ".txt"@);
    let mut middle: Vec<char> = Vec::new();
    let mut k: usize = 9;
    while k < n - 4
        invariant
            c@ == name@,
            n == c@.len(),
            n >= 13,
            9 <= k <= n - 4,
            middle@ == c@.subrange(9, k as int),
        decreases n - 4 - k,
    {
        middle.push(c[k]);
        assert(middle@ =~= c@.subrange(9, k + 1));
        k += 1;
    }
    proof {
        if is_decimal(middle@, false) {
            lemma_unsigned_decimal_nonneg(middle@);
        }
    }
    parse_decimal(middle.as_slice(), 0, 0xffff_ffff).is_some()
}

/// The text that `str::parse::<i64>` gives for its error on a text it refuses (the `Display` of
/// `ParseIntError`): a function of the text alone.
pub uninterp spec fn i64_parse_error_text(s: Seq<char>) -> Seq<char>;

/// The message of the error of `str::parse::<i64>` on a text that it refuses, by `to_string` on
/// the `ParseIntError`.
#[verifier::external_body]
fn i64_parse_error(s: &str) -> (r: String)
    requires
        parse_i64_tok(s@) is None,
    ensures
        r@ == i64_parse_error_text(s@),
{
    match s.parse::<i64>() {
        Err(e) => e.to_string(),
        Ok(_) => String::new(),
    }
}

/// A separator `, ` starts at position `i` of `s`.
pub open spec fn sep_at(s: Seq<char>, i: int) -> bool {
    0 <= i && i + 2 <= s.len() && s[i] == ',' && s[i + 1] == ' '
}

/// The position of the first separator `, ` at or after `i`.
pub open spec fn first_sep_from(s: Seq<char>, i: int) -> Option<int>
    decreases s.len() - i,
{
    if i < 0 || i + 2 > s.len() {
        None
    } else if sep_at(s, i) {
        Some(i)
    } else {
        first_sep_from(s, i + 1)
    }
}

/// Where no comma stands at or after `k`, no separator starts there.
pub(crate) proof fn lemma_no_sep_from(s: Seq<char>, k: int)
    requires
        0 <= k,
        forall|j: int| k <= j < s.len() ==> s[j] != ',',
    ensures
        first_sep_from(s, k) is None,
    decreases s.len() - k,
{
    if k + 2 <= s.len() {
        lemma_no_sep_from(s, k + 1);
    }
}

/// Where a separator starts at `p` and no comma stands from `k` up to `p`, the first separator
/// from `k` is the one at `p`.
pub(crate) proof fn lemma_sep_first_at(s: Seq<char>, k: int, p: int)
    requires
        0 <= k <= p,
        sep_at(s, p),
        forall|j: int| k <= j < p ==> s[j] != ',',
    ensures
        first_sep_from(s, k) == Some(p),
    decreases p - k,
{
    if k < p {
        lemma_sep_first_at(s, k + 1, p);
    }
}

/// The first part of `s` as `str::split(", ")` cuts it.
pub open spec fn first_part(s: Seq<char>) -> Seq<char> {
    match first_sep_from(s, 0) {
        Some(i) => s.take(i),
        None => s,
    }
}

/// What follows the first separator, if there is one.
pub open spec fn after_first_sep(s: Seq<char>) -> Option<Seq<char>> {
    match first_sep_from(s, 0) {
        Some(i) => Some(s.skip(i + 2)),
        None => None,
    }
}

/// The text of a tag between its parentheses: without its first and last characters.
pub open spec fn tag_inner(s: Seq<char>) -> Seq<char> {
    s.subrange(1, s.len() - 1)
}

/// Reading a tag does not panic: its first and last characters are ASCII (it is cut there), and
/// where both numbers read, the count is not below `-1` (which stands for the infinite
/// microstep).
pub open spec fn tag_text_readable(s: Seq<char>) -> bool {
    &&& s.len() >= 2
    &&& (s[0] as u32) < 128
    &&& (s.last() as u32) < 128
    &&& match parse_i64_tok(first_part(tag_inner(s))) {
        Some(t) => match after_first_sep(tag_inner(s)) {
            Some(rest) => match parse_i64_tok(first_part(rest)) {
                Some(m) => m >= -1,
                None => true,
            },
            None => true,
        },
        None => true,
    }
}

/// The microstep that a count read from text stands for: `-1` is the infinite microstep.
pub open spec fn microstep_of_count(m: i64) -> u64 {
    if m == -1 {
        u64::MAX
    } else {
        m as u64
    }
}

/// The tag that a text `(time, count)` denotes, or the error.
pub open spec fn tag_read(s: Seq<char>) -> Result<Tag, Seq<char>> {
    let inner = tag_inner(s);
    match parse_i64_tok(first_part(inner)) {
        None => Err("Invalid time: "@ + i64_parse_error_text(first_part(inner))),
        Some(t) => match after_first_sep(inner) {
            None => Err("No count"@),
            Some(rest) => match parse_i64_tok(first_part(rest)) {
                None => Err("Invalid count: "@ + i64_parse_error_text(first_part(rest))),
                Some(m) => Ok(Tag(t, microstep_of_count(m))),
            },
        },
    }
}

/// The position of the first separator `, ` in `s`, and the proof that there is none before it.
fn find_sep(s: &Vec<char>) -> (r: Option<usize>)
    ensures
        r matches Some(i) ==> first_sep_from(s@, 0) == Some(i as int) && sep_at(s@, i as int),
        r is None ==> first_sep_from(s@, 0) is None,
{
    let mut i: usize = 0;
    while s.len() >= 2 && i <= s.len() - 2
        invariant
            i <= s@.len(),
            first_sep_from(s@, 0) == first_sep_from(s@, i as int),
        decreases s@.len() - i,
    {
        if s[i] == ',' && s[i + 1] == ' ' {
            return Some(i);
        }
        i += 1;
    }
    None
}

fn sub_chars(s: &Vec<char>, lo: usize, hi: usize) -> (r: Vec<char>)
    requires
        lo <= hi <= s@.len(),
    ensures
        r@ == s@.subrange(lo as int, hi as int),
{
    let mut r: Vec<char> = Vec::new();
    let mut k: usize = lo;
    while k < hi
        invariant
            lo <= k <= hi <= s@.len(),
            r@ == s@.subrange(lo as int, k as int),
        decreases hi - k,
    {
        r.push(s[k]);
        assert(r@ =~= s@.subrange(lo as int, k + 1));
        k += 1;
    }
    r
}

fn first_part_of(s: &Vec<char>) -> (r: Vec<char>)
    ensures
        r@ == first_part(s@),
{
    match find_sep(s) {
        Some(i) => {
            let r = sub_chars(s, 0, i);
            assert(r@ =~= s@.take(i as int));
            r
        },
        None => sub_chars(s, 0, s.len()),
    }
}

fn error_text(prefix: &str, bad: &Vec<char>) -> (r: String)
    requires
        parse_i64_tok(bad@) is None,
    ensures
        r@ == prefix@ + i64_parse_error_text(bad@),
{
    let text = string_from_chars(bad);
    let mut e = chars_of(prefix);
    extend_chars(&mut e, &chars_of(i64_parse_error(text.as_str()).as_str()));
    string_from_chars(&e)
}

impl Tag {
    /// Reads a tag written as `(time, count)`, as its text form writes it: the text between the
    /// first and the last character is cut at the separators `, `; the first part is the time
    /// and the second the microstep count.
    pub fn from_str(s: &str) -> (r: Result<Tag, String>)
        requires
            tag_text_readable(s@),
        ensures
            match tag_read(s@) {
                Ok(t) => r == Ok::<Tag, String>(t),
                Err(e) => r matches Err(m) && m@ == e,
            },
    {
        let c = chars_of(s);
        let inner = sub_chars(&c, 1, c.len() - 1);
        let time_text = first_part_of(&inner);
        let time = match parse_i64(time_text.as_slice()) {
            Some(t) => t,
            None => {
                return Err(error_text("Invalid time: ", &time_text));
            },
        };
        let rest = match find_sep(&inner) {
            Some(i) => sub_chars(&inner, i + 2, inner.len()),
            None => {
                return Err(string_from_chars(&chars_of("No count")));
            },
        };
        assert(rest@ =~= inner@.skip((first_sep_from(inner@, 0)->0) + 2));
        let count_text = first_part_of(&rest);
        let count = match parse_i64(count_text.as_slice()) {
            Some(m) => m,
            None => {
                return Err(error_text("Invalid count: ", &count_text));
            },
        };
        Ok(Tag(time, get_nonnegative_microstep(count)))
    }
}

} // verus!
