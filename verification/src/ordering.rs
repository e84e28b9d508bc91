//! The ordering server's vocabulary: hooks and their invocations, the precedences between them
//! that a test imposes, and the frames by which federates announce that a hook has run.
use vstd::prelude::*;
use vstd::utf8::*;

verus! {

/// Identifies one of the precedences that the server enforces at the same time.
#[derive(Debug, Clone, Copy, PartialEq, Eq, Structural)]
pub struct PrecedenceId(pub u32);

/// How many times a hook at a given file and line has run before.
#[derive(Debug, PartialEq, Eq, Hash, PartialOrd, Ord, Clone, Copy, Structural)]
pub struct SequenceNumberByFileAndLine(pub u32);

/// A federate, by its number (the RTI is `-1`).
#[derive(Debug, Clone, Copy, PartialEq, Eq, Hash, Structural)]
pub struct FederateId(pub i32);

/// A hook: its name and the federate it runs in.
#[derive(Debug, PartialEq, Eq, Hash, Clone)]
pub struct HookId(pub String, pub FederateId);

/// One run of a hook.
#[derive(Debug, PartialEq, Eq, Hash, Clone)]
pub struct HookInvocation {
    pub hid: HookId,
    pub seqnum: SequenceNumberByFileAndLine,
}

/// A hook invocation as plain values: the hook's name, its federate and the sequence number.
pub type HookInvocationView = (Seq<char>, i32, u32);

impl HookId {
    pub fn new(hid: String, fedid: FederateId) -> (r: Self)
        ensures
            r.0@ == hid@,
            r.1 == fedid,
    {
        HookId(hid, fedid)
    }
}

impl HookInvocation {
    pub open spec fn view(&self) -> HookInvocationView {
        (self.hid.0@, self.hid.1.0, self.seqnum.0)
    }

    /// The invocation that the short form (name, federate, sequence number) describes.
    pub fn from_short(his: (&str, i32, u32)) -> (r: Self)
        ensures
            r.view() == (his.0@, his.1, his.2),
    {
        HookInvocation {
            hid: HookId::new(his.0.to_owned(), FederateId(his.1)),
            seqnum: SequenceNumberByFileAndLine(his.2),
        }
    }

    /// A copy of the invocation.
    pub fn duplicate(&self) -> (r: Self)
        ensures
            r.view() == self.view(),
    {
        HookInvocation {
            hid: HookId(self.hid.0.clone(), self.hid.1),
            seqnum: self.seqnum,
        }
    }

    /// Whether two invocations are the same.
    pub fn same(&self, other: &Self) -> (r: bool)
        ensures
            r == (self.view() == other.view()),
    {
        self.hid.0 == other.hid.0 && self.hid.1.0 == other.hid.1.0 && self.seqnum.0
            == other.seqnum.0
    }
}

/// The views of a sequence of invocations.
pub open spec fn invocation_views(s: Seq<HookInvocation>) -> Seq<HookInvocationView> {
    s.map_values(|h: HookInvocation| h.view())
}

/// The frame by which a federate announces a hook invocation: the hook's name is the bytes of
/// `hook_id` up to the first zero byte.
#[derive(Debug, Clone, Copy)]
pub struct Frame {
    pub precedence_id: u32,
    pub federate_id: i32,
    pub hook_id: [u8; 32],
    pub sequence_number: u32,
}

/// The bytes of the hook's name in a frame: those before the first zero byte, or all of them.
pub open spec fn name_bytes(hook_id: Seq<u8>) -> Seq<u8> {
    if exists|i: int| 0 <= i < hook_id.len() && hook_id[i] == 0 {
        let i = choose|i: int|
            0 <= i < hook_id.len() && hook_id[i] == 0 && forall|j: int| 0 <= j < i ==> hook_id[j] != 0;
        hook_id.take(i)
    } else {
        hook_id
    }
}

/// `std::str::from_utf8`, made into a `String`: its documentation says that it fails exactly when
/// the bytes are not valid UTF-8, and otherwise gives the text whose UTF-8 encoding they are.
#[verifier::external_body]
fn text_from_utf8(bytes: &[u8]) -> (r: Option<String>)
    ensures
        r is Some <==> valid_utf8(bytes@),
        r matches Some(s) ==> encode_utf8(s@) == bytes@,
{
    match std::str::from_utf8(bytes) {
        Ok(s) => Some(s.to_string()),
        Err(_) => None,
    }
}

impl Frame {
    /// The bytes of the hook's name: those of `hook_id` before the first zero byte.
    fn name_bytes_of(&self) -> (r: Vec<u8>)
        ensures
            r@ == name_bytes(self.hook_id@),
    {
        let mut end: usize = 0;
        while end < 32 && self.hook_id[end] != 0
            invariant
                end <= 32,
                self.hook_id@.len() == 32,
                forall|j: int| 0 <= j < end ==> self.hook_id@[j] != 0,
            decreases 32 - end,
        {
            end += 1;
        }
        let mut bytes: Vec<u8> = Vec::new();
        let mut i: usize = 0;
        while i < end
            invariant
                i <= end <= 32,
                self.hook_id@.len() == 32,
                bytes@ == self.hook_id@.take(i as int),
            decreases end - i,
        {
            bytes.push(self.hook_id[i]);
            proof {
                assert(bytes@ =~= self.hook_id@.take(i + 1));
            }
            i += 1;
        }
        proof {
            if end < 32 {
                assert(self.hook_id@[end as int] == 0);
                let k = choose|k: int|
                    0 <= k < self.hook_id@.len() && self.hook_id@[k] == 0 && forall|j: int|
                        0 <= j < k ==> self.hook_id@[j] != 0;
                assert(k == end);
            } else {
                assert(bytes@ =~= self.hook_id@);
            }
            assert(bytes@ == name_bytes(self.hook_id@));
        }
        bytes
    }

    /// Whether the hook's name (its bytes up to the first zero byte) is UTF-8 text.
    pub fn hook_name_is_text(&self) -> (r: bool)
        ensures
            r == valid_utf8(name_bytes(self.hook_id@)),
    {
        let bytes = self.name_bytes_of();
        text_from_utf8(bytes.as_slice()).is_some()
    }

    /// The hook whose invocation the frame announces.
    pub fn hid(&self) -> (r: HookId)
        requires
            valid_utf8(name_bytes(self.hook_id@)),
        ensures
            encode_utf8(r.0@) == name_bytes(self.hook_id@),
            r.0@ == decode_utf8(name_bytes(self.hook_id@)),
            r.1 == FederateId(self.federate_id),
    {
        let bytes = self.name_bytes_of();
        match text_from_utf8(bytes.as_slice()) {
            Some(s) => {
                proof {
                    broadcast use encode_utf8_decode_utf8;
                    assert(decode_utf8(encode_utf8(s@)) == s@);
                }
                HookId(s, FederateId(self.federate_id))
            },
            None => HookId(String::new(), FederateId(self.federate_id)),
        }
    }

    /// The hook invocation that the frame announces.
    pub fn hook_invocation(&self) -> (r: HookInvocation)
        requires
            valid_utf8(name_bytes(self.hook_id@)),
        ensures
            encode_utf8(r.hid.0@) == name_bytes(self.hook_id@),
            r.hid.0@ == decode_utf8(name_bytes(self.hook_id@)),
            r.hid.1 == FederateId(self.federate_id),
            r.seqnum == SequenceNumberByFileAndLine(self.sequence_number),
    {
        HookInvocation { hid: self.hid(), seqnum: SequenceNumberByFileAndLine(self.sequence_number) }
    }
}

/// The number of bytes of a frame on the wire.
pub const FRAME_SIZE: usize = 44;

/// The bytes of a frame on the wire, laid out as the C structure of the clients on the
/// little-endian machines they run on: the precedence, the federate (two's complement), the 32
/// bytes of the hook, and the sequence number, each number least significant byte first.
pub open spec fn frame_bytes(f: Frame) -> Seq<u8> {
    vstd::bytes::spec_u32_to_le_bytes(f.precedence_id) + vstd::bytes::spec_u32_to_le_bytes(f.federate_id as u32)
        + f.hook_id@ + vstd::bytes::spec_u32_to_le_bytes(f.sequence_number)
}

/// The bytes of the frame on the wire.
pub fn encode_frame(frame: &Frame) -> (r: Vec<u8>)
    ensures
        r@ == frame_bytes(*frame),
        r@.len() == FRAME_SIZE,
{
    let mut r = vstd::bytes::u32_to_le_bytes(frame.precedence_id);
    let mut fed = vstd::bytes::u32_to_le_bytes(frame.federate_id as u32);
    r.append(&mut fed);
    let mut i: usize = 0;
    let ghost head = r@;
    while i < 32
        invariant
            i <= 32,
            frame.hook_id@.len() == 32,
            r@ == head + frame.hook_id@.take(i as int),
        decreases 32 - i,
    {
        r.push(frame.hook_id[i]);
        proof {
            assert(frame.hook_id@.take(i + 1) =~= frame.hook_id@.take(i as int).push(frame.hook_id@[i as int]));
        }
        i += 1;
    }
    let mut seq = vstd::bytes::u32_to_le_bytes(frame.sequence_number);
    r.append(&mut seq);
    proof {
        assert(frame.hook_id@.take(32) =~= frame.hook_id@);
        assert(r@ =~= frame_bytes(*frame));
    }
    r
}

/// The frame whose bytes on the wire these are.
pub fn decode_frame(bytes: &[u8]) -> (r: Frame)
    requires
        bytes@.len() == FRAME_SIZE,
    ensures
        frame_bytes(r) == bytes@,
        r.precedence_id == vstd::bytes::spec_u32_from_le_bytes(bytes@.subrange(0, 4)),
        r.federate_id == vstd::bytes::spec_u32_from_le_bytes(bytes@.subrange(4, 8)) as i32,
        r.hook_id@ == bytes@.subrange(8, 40),
        r.sequence_number == vstd::bytes::spec_u32_from_le_bytes(bytes@.subrange(40, 44)),
{
    let precedence_id = vstd::bytes::u32_from_le_bytes(vstd::slice::slice_subrange(bytes, 0, 4));
    let fed = vstd::bytes::u32_from_le_bytes(vstd::slice::slice_subrange(bytes, 4, 8));
    let sequence_number = vstd::bytes::u32_from_le_bytes(vstd::slice::slice_subrange(bytes, 40, 44));
    let mut hook_id = [0u8; 32];
    let mut i: usize = 0;
    while i < 32
        invariant
            i <= 32,
            bytes@.len() == FRAME_SIZE,
            hook_id@.len() == 32,
            forall|j: int| 0 <= j < i ==> hook_id@[j] == bytes@[8 + j],
        decreases 32 - i,
    {
        hook_id[i] = bytes[8 + i];
        i += 1;
    }
    let r = Frame { precedence_id, federate_id: fed as i32, hook_id, sequence_number };
    proof {
        vstd::bytes::lemma_auto_spec_u32_to_from_le_bytes();
        assert(r.hook_id@ =~= bytes@.subrange(8, 40));
        assert((fed as i32) as u32 == fed) by (bit_vector);
        assert(bytes@ =~= bytes@.subrange(0, 4) + bytes@.subrange(4, 8) + bytes@.subrange(8, 40) + bytes@.subrange(40, 44));
        assert(vstd::bytes::spec_u32_to_le_bytes(precedence_id) == bytes@.subrange(0, 4));
        assert(vstd::bytes::spec_u32_to_le_bytes(fed) == bytes@.subrange(4, 8));
        assert(vstd::bytes::spec_u32_to_le_bytes(sequence_number) == bytes@.subrange(40, 44));
    }
    r
}

/// A frame read from the bytes that it is written as is that frame.
pub proof fn lemma_frame_bytes_read_back(f: Frame, g: Frame)
    requires
        frame_bytes(g) == frame_bytes(f),
    ensures
        g == f,
{
    vstd::bytes::lemma_auto_spec_u32_to_from_le_bytes();
    let b = frame_bytes(f);
    assert(frame_bytes(g).subrange(0, 4) =~= vstd::bytes::spec_u32_to_le_bytes(g.precedence_id));
    assert(b.subrange(0, 4) =~= vstd::bytes::spec_u32_to_le_bytes(f.precedence_id));
    assert(frame_bytes(g).subrange(4, 8) =~= vstd::bytes::spec_u32_to_le_bytes(g.federate_id as u32));
    assert(b.subrange(4, 8) =~= vstd::bytes::spec_u32_to_le_bytes(f.federate_id as u32));
    assert(frame_bytes(g).subrange(8, 40) =~= g.hook_id@);
    assert(b.subrange(8, 40) =~= f.hook_id@);
    assert(frame_bytes(g).subrange(40, 44) =~= vstd::bytes::spec_u32_to_le_bytes(g.sequence_number));
    assert(b.subrange(40, 44) =~= vstd::bytes::spec_u32_to_le_bytes(f.sequence_number));
    let gf = g.federate_id;
    let ff = f.federate_id;
    assert(gf as u32 == ff as u32 ==> gf == ff) by (bit_vector);
    assert(g.hook_id == f.hook_id);
}

/// The name of the hook as its frame carries it: the UTF-8 bytes of the name, then zero bytes.
pub open spec fn padded_name(name: Seq<char>) -> Seq<u8> {
    encode_utf8(name) + Seq::new((32 - encode_utf8(name).len()) as nat, |i: int| 0u8)
}

proof fn lemma_scalar_has_no_zero_byte(c: char)
    requires
        c != '\0',
    ensures
        forall|i: int| 0 <= i < encode_scalar(c as u32).len() ==> #[trigger] encode_scalar(c as u32)[i] != 0,
{
    let x = c as u32;
    assert(x != 0);
    let e = encode_scalar(x);
    if has_width_1_encoding(x) {
        assert(leading_byte_width_1(x) != 0) by (bit_vector)
            requires
                x != 0 && x <= 0x7F,
        ;
        assert(e[0] == leading_byte_width_1(x));
    } else {
        let l = last_continuation_byte(x);
        assert(l != 0) by (bit_vector)
            requires
                l == 0x80 | (x & 0x3F) as u8,
        ;
        if has_width_2_encoding(x) {
            let a = leading_byte_width_2(x);
            assert(a != 0) by (bit_vector)
                requires
                    a == 0xC0 | ((x >> 6) & 0x1F) as u8,
            ;
            assert(e =~= seq![a, l]);
        } else {
            let m = second_last_continuation_byte(x);
            assert(m != 0) by (bit_vector)
                requires
                    m == 0x80 | ((x >> 6) & 0x3F) as u8,
            ;
            if has_width_3_encoding(x) {
                let a = leading_byte_width_3(x);
                assert(a != 0) by (bit_vector)
                    requires
                        a == 0xE0 | ((x >> 12) & 0x0F) as u8,
                ;
                assert(e =~= seq![a, m, l]);
            } else {
                let a = leading_byte_width_4(x);
                let t = third_last_continuation_byte(x);
                assert(a != 0) by (bit_vector)
                    requires
                        a == 0xF0 | ((x >> 18) & 0x7) as u8,
                ;
                assert(t != 0) by (bit_vector)
                    requires
                        t == 0x80 | ((x >> 12) & 0x3F) as u8,
                ;
                assert(e =~= seq![a, t, m, l]);
            }
        }
    }
}

proof fn lemma_encoding_has_no_zero_byte(name: Seq<char>)
    requires
        forall|i: int| 0 <= i < name.len() ==> name[i] != '\0',
    ensures
        forall|i: int| 0 <= i < encode_utf8(name).len() ==> #[trigger] encode_utf8(name)[i] != 0,
    decreases name.len(),
{
    if name.len() > 0 {
        lemma_scalar_has_no_zero_byte(name[0]);
        lemma_encoding_has_no_zero_byte(name.drop_first());
        let a = encode_scalar(name[0] as u32);
        let b = encode_utf8(name.drop_first());
        assert forall|i: int| 0 <= i < encode_utf8(name).len() implies #[trigger] encode_utf8(name)[i] != 0 by {
            if i < a.len() {
                assert(encode_utf8(name)[i] == a[i]);
            } else {
                assert(encode_utf8(name)[i] == b[i - a.len()]);
            }
        }
    }
}

/// The name of a hook, written into a frame as `notification_frame` writes it, reads back as that
/// name, wherever it has no NUL character and its encoding fits the frame.
pub proof fn lemma_frame_name_reads_back(name: Seq<char>)
    requires
        encode_utf8(name).len() <= 32,
        forall|i: int| 0 <= i < name.len() ==> name[i] != '\0',
    ensures
        valid_utf8(name_bytes(padded_name(name))),
        decode_utf8(name_bytes(padded_name(name))) == name,
{
    broadcast use encode_utf8_decode_utf8, encode_utf8_valid_utf8;
    let e = encode_utf8(name);
    let p = padded_name(name);
    lemma_encoding_has_no_zero_byte(name);
    assert(p.len() == 32);
    if e.len() < 32 {
        let l = e.len() as int;
        assert(p[l] == 0);
        let k = choose|k: int| 0 <= k < p.len() && p[k] == 0 && forall|j: int| 0 <= j < k ==> p[j] != 0;
        assert(p[k] == 0);
        if k < l {
            assert(p[k] == e[k]);
        }
        if k > l {
            assert(p[l] != 0);
        }
        assert(k == l);
        assert(p.take(l) =~= e);
    } else {
        assert forall|i: int| 0 <= i < p.len() implies p[i] != 0 by {
            assert(p[i] == e[i]);
        }
        assert(p =~= e);
    }
    assert(name_bytes(p) == e);
}

/// The frame by which federate `fedid` announces, for precedence `precid`, the hook invocation.
pub fn notification_frame(precid: PrecedenceId, fedid: FederateId, hook_invocation: &HookInvocation) -> (r: Frame)
    requires
        encode_utf8(hook_invocation.hid.0@).len() <= 32,
    ensures
        r.precedence_id == precid.0,
        r.federate_id == fedid.0,
        r.hook_id@ == padded_name(hook_invocation.hid.0@),
        r.sequence_number == hook_invocation.seqnum.0,
{
    let bytes = hook_invocation.hid.0.as_str().as_bytes();
    let mut hook_id: [u8; 32] = [0; 32];
    let mut idx: usize = 0;
    while idx < bytes.len()
        invariant
            bytes@ == encode_utf8(hook_invocation.hid.0@),
            bytes@.len() <= 32,
            idx <= bytes@.len(),
            hook_id@.len() == 32,
            forall|j: int| 0 <= j < idx ==> hook_id@[j] == bytes@[j],
            forall|j: int| idx <= j < 32 ==> hook_id@[j] == 0,
        decreases bytes@.len() - idx,
    {
        hook_id[idx] = bytes[idx];
        idx += 1;
    }
    assert(hook_id@ =~= padded_name(hook_invocation.hid.0@));
    Frame {
        precedence_id: precid.0,
        federate_id: fedid.0,
        hook_id,
        sequence_number: hook_invocation.seqnum.0,
    }
}

// ---------------------------------------------------------------------------------------------
// Precedences
// ---------------------------------------------------------------------------------------------

#[verifier::external_type_specification]
#[verifier::external_body]
pub struct ExPathBuf(std::path::PathBuf);

/// The precedences that a test run imposes: each hook invocation that is a sender releases the
/// invocations that wait for it; the number of federates that will connect; and the directory
/// where the run keeps its files.
pub struct Precedence {
    pub sender2waiters: Vec<(HookInvocation, Vec<HookInvocation>)>,
    pub n_connections: usize,
    pub scratch_dir: std::path::PathBuf,
}

/// The map from senders to their waiters that a list of entries describes, a later entry for the
/// same sender replacing an earlier one.
pub open spec fn waiters_map(s: Seq<(HookInvocation, Vec<HookInvocation>)>) -> Map<HookInvocationView, Seq<HookInvocationView>>
    decreases s.len(),
{
    if s.len() == 0 {
        Map::empty()
    } else {
        waiters_map(s.drop_last()).insert(s.last().0.view(), invocation_views(s.last().1@))
    }
}

/// The view of a short form (name, federate, sequence number).
pub open spec fn short_view(h: (&str, i32, u32)) -> HookInvocationView {
    (h.0@, h.1, h.2)
}

/// The map that a list of short entries describes, a later entry for the same sender replacing
/// an earlier one.
pub open spec fn short_map(s: Seq<((&str, i32, u32), &[(&str, i32, u32)])>) -> Map<HookInvocationView, Seq<HookInvocationView>>
    decreases s.len(),
{
    if s.len() == 0 {
        Map::empty()
    } else {
        short_map(s.drop_last()).insert(
            short_view(s.last().0),
            s.last().1@.map_values(|h: (&str, i32, u32)| short_view(h)),
        )
    }
}

/// No sender has two entries.
pub open spec fn senders_unique(s: Seq<(HookInvocation, Vec<HookInvocation>)>) -> bool {
    forall|i: int, j: int| 0 <= i < j < s.len() ==> s[i].0.view() != s[j].0.view()
}

proof fn lemma_waiters_map_unique(s: Seq<(HookInvocation, Vec<HookInvocation>)>)
    requires
        senders_unique(s),
    ensures
        forall|i: int| 0 <= i < s.len() ==> #[trigger] waiters_map(s).contains_key(s[i].0.view())
            && waiters_map(s)[s[i].0.view()] == invocation_views(s[i].1@),
        forall|k: HookInvocationView| #[trigger] waiters_map(s).contains_key(k) ==> exists|i: int|
            0 <= i < s.len() && s[i].0.view() == k,
    decreases s.len(),
{
    if s.len() > 0 {
        let t = s.drop_last();
        assert(senders_unique(t));
        lemma_waiters_map_unique(t);
        assert forall|k: HookInvocationView| #[trigger] waiters_map(s).contains_key(k) implies exists|i: int|
            0 <= i < s.len() && s[i].0.view() == k by {
            if k != s.last().0.view() {
                assert(waiters_map(t).contains_key(k));
                let i = choose|i: int| 0 <= i < t.len() && t[i].0.view() == k;
                assert(s[i] == t[i]);
            } else {
                assert(s[s.len() - 1].0.view() == k);
            }
        }
        assert forall|i: int| 0 <= i < s.len() implies #[trigger] waiters_map(s).contains_key(s[i].0.view())
            && waiters_map(s)[s[i].0.view()] == invocation_views(s[i].1@) by {
            if i < s.len() - 1 {
                assert(s[i] == t[i]);
                assert(s[i].0.view() != s.last().0.view());
                assert(waiters_map(t).contains_key(t[i].0.view()));
                assert(waiters_map(s) == waiters_map(t).insert(s.last().0.view(), invocation_views(s.last().1@)));
            } else {
                assert(s[i] == s.last());
            }
        }
    }
}

/// Copies of the invocations of a short list.
fn invocations_from_short(v: &[(&str, i32, u32)]) -> (r: Vec<HookInvocation>)
    ensures
        invocation_views(r@) == v@.map_values(|h: (&str, i32, u32)| short_view(h)),
{
    let mut r: Vec<HookInvocation> = Vec::new();
    let mut i: usize = 0;
    while i < v.len()
        invariant
            i <= v@.len(),
            invocation_views(r@) == v@.take(i as int).map_values(|h: (&str, i32, u32)| short_view(h)),
        decreases v@.len() - i,
    {
        let h = HookInvocation::from_short(v[i]);
        let ghost pre = r@;
        r.push(h);
        proof {
            assert(invocation_views(r@) =~= invocation_views(pre).push(h.view()));
            assert(v@.take(i + 1).map_values(|h: (&str, i32, u32)| short_view(h)) =~= v@.take(
                i as int,
            ).map_values(|h: (&str, i32, u32)| short_view(h)).push(short_view(v@[i as int])));
        }
        i += 1;
    }
    assert(v@.take(v@.len() as int) =~= v@);
    r
}

impl Precedence {
    pub open spec fn wf(&self) -> bool {
        senders_unique(self.sender2waiters@)
    }

    /// The precedences as a map from each sender to its waiters.
    pub open spec fn waiters(&self) -> Map<HookInvocationView, Seq<HookInvocationView>> {
        waiters_map(self.sender2waiters@)
    }

    /// The precedences that a list of (sender, waiters) entries in short form describes; a later
    /// entry for the same sender replaces an earlier one.
    pub fn from_list(
        n_connections: usize,
        sender2waiters: &[((&str, i32, u32), &[(&str, i32, u32)])],
        scratch_dir: std::path::PathBuf,
    ) -> (r: Self)
        ensures
            r.wf(),
            r.waiters() == short_map(sender2waiters@),
            r.n_connections == n_connections,
            r.scratch_dir == scratch_dir,
    {
        let mut entries: Vec<(HookInvocation, Vec<HookInvocation>)> = Vec::new();
        let mut i: usize = 0;
        while i < sender2waiters.len()
            invariant
                i <= sender2waiters@.len(),
                senders_unique(entries@),
                waiters_map(entries@) == short_map(sender2waiters@.take(i as int)),
            decreases sender2waiters@.len() - i,
        {
            let (k, v) = sender2waiters[i];
            let key = HookInvocation::from_short(k);
            let waiters = invocations_from_short(v);
            proof {
                assert(sender2waiters@.take(i + 1).drop_last() =~= sender2waiters@.take(i as int));
                lemma_waiters_map_unique(entries@);
            }
            let mut j: usize = 0;
            let mut found = false;
            while j < entries.len()
                invariant_except_break
                    !found,
                invariant
                    j <= entries@.len(),
                    forall|m: int| 0 <= m < j ==> entries@[m].0.view() != key.view(),
                ensures
                    found ==> j < entries@.len() && entries@[j as int].0.view() == key.view(),
                    !found ==> forall|m: int| 0 <= m < entries@.len() ==> entries@[m].0.view() != key.view(),
                decreases entries@.len() - j,
            {
                if entries[j].0.same(&key) {
                    found = true;
                    break;
                }
                j += 1;
            }
            let ghost pre = entries@;
            if found {
                let old_key = entries[j].0.duplicate();
                entries.set(j, (old_key, waiters));
                proof {
                    assert(senders_unique(entries@)) by {
                        assert forall|a: int, b: int| 0 <= a < b < entries@.len() implies entries@[a].0.view() != entries@[b].0.view() by {
                            assert(pre[a].0.view() != pre[b].0.view());
                        }
                    }
                    lemma_waiters_map_unique(entries@);
                    assert(waiters_map(entries@) =~= waiters_map(pre).insert(key.view(), invocation_views(waiters@))) by {
                        assert forall|kk: HookInvocationView| #[trigger] waiters_map(entries@).contains_key(kk) <==> waiters_map(pre).insert(key.view(), invocation_views(waiters@)).contains_key(kk) by {
                            if waiters_map(entries@).contains_key(kk) {
                                let m = choose|m: int| 0 <= m < entries@.len() && entries@[m].0.view() == kk;
                                if m != j {
                                    assert(pre[m] == entries@[m]);
                                }
                            }
                            if waiters_map(pre).contains_key(kk) {
                                let m = choose|m: int| 0 <= m < pre.len() && pre[m].0.view() == kk;
                                if m != j {
                                    assert(pre[m] == entries@[m]);
                                }
                                assert(waiters_map(entries@).contains_key(entries@[m].0.view()));
                            }
                            if kk == key.view() {
                                assert(waiters_map(entries@).contains_key(entries@[j as int].0.view()));
                            }
                        }
                        assert forall|kk: HookInvocationView| #[trigger] waiters_map(entries@).contains_key(kk) implies waiters_map(entries@)[kk] == waiters_map(pre).insert(key.view(), invocation_views(waiters@))[kk] by {
                            let m = choose|m: int| 0 <= m < entries@.len() && entries@[m].0.view() == kk;
                            if m != j {
                                assert(pre[m] == entries@[m]);
                            }
                        }
                    }
                }
            } else {
                entries.push((key, waiters));
                proof {
                    assert(entries@.drop_last() =~= pre);
                    assert(senders_unique(entries@)) by {
                        assert forall|a: int, b: int| 0 <= a < b < entries@.len() implies entries@[a].0.view() != entries@[b].0.view() by {
                            if b < pre.len() {
                                assert(pre[a].0.view() != pre[b].0.view());
                            }
                        }
                    }
                }
            }
            i += 1;
        }
        assert(sender2waiters@.take(sender2waiters@.len() as int) =~= sender2waiters@);
        Precedence { sender2waiters: entries, n_connections, scratch_dir }
    }

    /// The invocations that wait for `sender`, if it is a sender.
    pub fn waiters_of(&self, sender: &HookInvocation) -> (r: Option<&Vec<HookInvocation>>)
        requires
            self.wf(),
        ensures
            r is Some <==> self.waiters().contains_key(sender.view()),
            r matches Some(v) ==> invocation_views(v@) == self.waiters()[sender.view()],
    {
        let mut i: usize = 0;
        while i < self.sender2waiters.len()
            invariant
                self.wf(),
                i <= self.sender2waiters@.len(),
                forall|m: int| 0 <= m < i ==> self.sender2waiters@[m].0.view() != sender.view(),
            decreases self.sender2waiters@.len() - i,
        {
            if self.sender2waiters[i].0.same(sender) {
                proof {
                    lemma_waiters_map_unique(self.sender2waiters@);
                    assert(waiters_map(self.sender2waiters@).contains_key(self.sender2waiters@[i as int].0.view()));
                }
                return Some(&self.sender2waiters[i].1);
            }
            i += 1;
        }
        proof {
            lemma_waiters_map_unique(self.sender2waiters@);
            if self.waiters().contains_key(sender.view()) {
                let m = choose|m: int| 0 <= m < self.sender2waiters@.len() && self.sender2waiters@[m].0.view() == sender.view();
            }
        }
        None
    }

    /// The invocations that must notify the others: the senders.
    pub fn requires_notify(&self) -> (r: Vec<HookInvocation>)
        requires
            self.wf(),
        ensures
            invocation_views(r@).to_set() == self.waiters().dom(),
    {
        proof {
            lemma_waiters_map_unique(self.sender2waiters@);
        }
        let mut r: Vec<HookInvocation> = Vec::new();
        let mut i: usize = 0;
        while i < self.sender2waiters.len()
            invariant
                i <= self.sender2waiters@.len(),
                invocation_views(r@) == self.sender2waiters@.take(i as int).map_values(
                    |e: (HookInvocation, Vec<HookInvocation>)| e.0.view(),
                ),
            decreases self.sender2waiters@.len() - i,
        {
            let ghost pre = r@;
            let h = self.sender2waiters[i].0.duplicate();
            r.push(h);
            proof {
                assert(invocation_views(r@) =~= invocation_views(pre).push(h.view()));
                assert(self.sender2waiters@.take(i + 1).map_values(
                    |e: (HookInvocation, Vec<HookInvocation>)| e.0.view(),
                ) =~= self.sender2waiters@.take(i as int).map_values(
                    |e: (HookInvocation, Vec<HookInvocation>)| e.0.view(),
                ).push(self.sender2waiters@[i as int].0.view()));
            }
            i += 1;
        }
        proof {
            let s = self.sender2waiters@;
            assert(s.take(s.len() as int) =~= s);
            assert forall|k: HookInvocationView| invocation_views(r@).to_set().contains(k) <==> self.waiters().dom().contains(k) by {
                if invocation_views(r@).contains(k) {
                    let m = choose|m: int| 0 <= m < r@.len() && invocation_views(r@)[m] == k;
                    assert(s[m].0.view() == k);
                }
                if self.waiters().dom().contains(k) {
                    let m = choose|m: int| 0 <= m < s.len() && s[m].0.view() == k;
                    assert(invocation_views(r@)[m] == k);
                }
            }
            assert(invocation_views(r@).to_set() =~= self.waiters().dom());
        }
        r
    }

    /// The invocations that must wait for a notification: every waiter of every sender.
    pub fn requires_ok_to_proceed(&self) -> (r: Vec<HookInvocation>)
        requires
            self.wf(),
        ensures
            invocation_views(r@).to_set() == Set::new(
                |w: HookInvocationView|
                    exists|k: HookInvocationView| #[trigger] self.waiters().contains_key(k) && self.waiters()[k].contains(w),
            ),
    {
        proof {
            lemma_waiters_map_unique(self.sender2waiters@);
        }
        let ghost s = self.sender2waiters@;
        let mut r: Vec<HookInvocation> = Vec::new();
        let mut i: usize = 0;
        while i < self.sender2waiters.len()
            invariant
                s == self.sender2waiters@,
                i <= s.len(),
                forall|w: HookInvocationView| invocation_views(r@).contains(w) <==> exists|m: int|
                    0 <= m < i && #[trigger] invocation_views(s[m].1@).contains(w),
            decreases s.len() - i,
        {
            let ws = &self.sender2waiters[i].1;
            let mut j: usize = 0;
            while j < ws.len()
                invariant
                    s == self.sender2waiters@,
                    i < s.len(),
                    *ws == s[i as int].1,
                    j <= ws@.len(),
                    forall|w: HookInvocationView| invocation_views(r@).contains(w) <==> (exists|m: int|
                        0 <= m < i && #[trigger] invocation_views(s[m].1@).contains(w)) || invocation_views(ws@.take(j as int)).contains(w),
                decreases ws@.len() - j,
            {
                let ghost pre = r@;
                let h = ws[j].duplicate();
                r.push(h);
                proof {
                    let a = invocation_views(pre);
                    let b = invocation_views(ws@.take(j as int));
                    assert(invocation_views(r@) =~= a.push(h.view()));
                    assert(invocation_views(ws@.take(j + 1)) =~= b.push(h.view()));
                    assert forall|w: HookInvocationView| a.push(h.view()).contains(w) <==> (a.contains(w) || w == h.view()) by {
                        if a.push(h.view()).contains(w) {
                            let k = choose|k: int| 0 <= k < a.len() + 1 && a.push(h.view())[k] == w;
                            if k < a.len() {
                                assert(a[k] == w);
                            }
                        }
                        if a.contains(w) {
                            let k = choose|k: int| 0 <= k < a.len() && a[k] == w;
                            assert(a.push(h.view())[k] == w);
                        }
                        if w == h.view() {
                            assert(a.push(h.view())[a.len() as int] == w);
                        }
                    }
                    assert forall|w: HookInvocationView| b.push(h.view()).contains(w) <==> (b.contains(w) || w == h.view()) by {
                        if b.push(h.view()).contains(w) {
                            let k = choose|k: int| 0 <= k < b.len() + 1 && b.push(h.view())[k] == w;
                            if k < b.len() {
                                assert(b[k] == w);
                            }
                        }
                        if b.contains(w) {
                            let k = choose|k: int| 0 <= k < b.len() && b[k] == w;
                            assert(b.push(h.view())[k] == w);
                        }
                        if w == h.view() {
                            assert(b.push(h.view())[b.len() as int] == w);
                        }
                    }
                    assert forall|w: HookInvocationView| invocation_views(r@).contains(w) <==> (exists|m: int|
                        0 <= m < i && #[trigger] invocation_views(s[m].1@).contains(w)) || invocation_views(ws@.take(j + 1)).contains(w) by {
                        assert(a.contains(w) <==> (exists|m: int|
                            0 <= m < i && #[trigger] invocation_views(s[m].1@).contains(w)) || b.contains(w));
                    }
                }
                j += 1;
            }
            proof {
                assert(ws@.take(ws@.len() as int) =~= ws@);
                assert forall|w: HookInvocationView| invocation_views(r@).contains(w) <==> exists|m: int|
                    0 <= m < i + 1 && #[trigger] invocation_views(s[m].1@).contains(w) by {
                    if invocation_views(ws@).contains(w) {
                        assert(invocation_views(s[i as int].1@).contains(w));
                    }
                    if exists|m: int| 0 <= m < i + 1 && #[trigger] invocation_views(s[m].1@).contains(w) {
                        let m = choose|m: int| 0 <= m < i + 1 && #[trigger] invocation_views(s[m].1@).contains(w);
                        if m == i {
                            assert(invocation_views(ws@).contains(w));
                        }
                    }
                }
            }
            i += 1;
        }
        proof {
            assert forall|w: HookInvocationView| invocation_views(r@).to_set().contains(w) <==> exists|k: HookInvocationView| #[trigger] self.waiters().contains_key(k) && self.waiters()[k].contains(w) by {
                if invocation_views(r@).contains(w) {
                    let m = choose|m: int| 0 <= m < s.len() && #[trigger] invocation_views(s[m].1@).contains(w);
                    assert(self.waiters().contains_key(s[m].0.view()));
                }
                if exists|k: HookInvocationView| #[trigger] self.waiters().contains_key(k) && self.waiters()[k].contains(w) {
                    let k = choose|k: HookInvocationView| #[trigger] self.waiters().contains_key(k) && self.waiters()[k].contains(w);
                    let m = choose|m: int| 0 <= m < s.len() && s[m].0.view() == k;
                    assert(invocation_views(s[m].1@).contains(w));
                }
            }
            assert(invocation_views(r@).to_set() =~= Set::new(
                |w: HookInvocationView|
                    exists|k: HookInvocationView| #[trigger] self.waiters().contains_key(k) && self.waiters()[k].contains(w),
            ));
        }
        r
    }
}

/// Why a connection could not be made.
#[derive(Debug)]
pub struct CreateConnectionError {
    pub message: String,
}

} // verus!
