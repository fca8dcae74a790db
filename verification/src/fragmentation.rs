//! Fragmentation of encoded Data into MTU-sized fragments, reassembly at the
//! receiver, and adaptation of the MTU to the observed packet sizes.

use std::collections::HashMap;
use vstd::prelude::*;
use vstd::slice::slice_to_vec;
use vstd::arithmetic::div_mod::lemma_fundamental_div_mod;
use vstd::arithmetic::mul::lemma_mul_inequality;
use vstd::seq_lib::lemma_sorted_unique;
use vstd::relations::{sorted_by, total_ordering};
use crate::error::Error;
use crate::name::{bytes_eq, copy_range};
use crate::ndn::{Data, DataView, decode_data, encode_data, data_encodable, lemma_data_round_trip, u16_be, be_u16};

verus! {

broadcast use vstd::std_specs::hash::group_hash_axioms;

/// Octets of the fragment header.
pub const FRAGMENT_HEADER_SIZE: usize = 8;

/// The MTU of a fragmenter that is given none.
pub const DEFAULT_MTU: usize = 1400;

/// The two octets `FD` that open every fragment.
pub const FRAGMENT_MAGIC: u16 = 0x4644;

/// The smallest MTU that leaves room for one payload octet.
pub const MIN_FRAGMENT_MTU: usize = 9;

/// Most fragments of one object: the sequence number shares its field with
/// the final flag and so has fifteen bits.
pub const MAX_FRAGMENTS: usize = 32768;

/// Number of packet sizes kept for the MTU prediction.
pub const HISTORY_LEN: usize = 100;

/// Seconds between two adaptations of the MTU.
pub const ADAPT_INTERVAL_SECS: u64 = 30;

/// Seconds after which an unfinished reassembly is stale, unless configured
/// otherwise.
pub const DEFAULT_STALE_SECS: u64 = 30;

/// The header that opens every fragment.
#[derive(Debug, Clone, Copy, PartialEq, Eq, Structural)]
pub struct FragmentHeader {
    pub magic: u16,
    pub is_final: bool,
    pub reserved: u8,
    pub fragment_id: u16,
    pub sequence: u16,
    pub total_fragments: u16,
}

/// The two octets that carry the final flag, in the top bit, and the
/// sequence number, in the fifteen bits below it.
pub open spec fn sequence_field(is_final: bool, sequence: u16) -> Seq<u8> {
    seq![((if is_final { 128int } else { 0int }) + (sequence / 256) % 128) as u8, (sequence % 256) as u8]
}

/// The eight octets of a header: magic, fragment id, final flag with
/// sequence number, total.
pub open spec fn header_bytes(h: FragmentHeader) -> Seq<u8> {
    u16_be(h.magic) + u16_be(h.fragment_id) + sequence_field(h.is_final, h.sequence) + u16_be(h.total_fragments)
}

/// The header at the front of `s`: `None` where `s` is shorter than a header
/// or does not open with the magic value.
pub open spec fn parse_header(s: Seq<u8>) -> Option<FragmentHeader> {
    if s.len() < 8 || be_u16(s.subrange(0, 2)) != FRAGMENT_MAGIC {
        None
    } else {
        Some(
            FragmentHeader {
                magic: FRAGMENT_MAGIC,
                is_final: s[4] >= 128,
                reserved: 0,
                fragment_id: be_u16(s.subrange(2, 4)),
                sequence: ((s[4] % 128) * 256 + s[5]) as u16,
                total_fragments: be_u16(s.subrange(6, 8)),
            },
        )
    }
}

/// Whether a header is one that the wire can carry: it opens with the magic
/// value, nothing is reserved, and the sequence number has fifteen bits.
pub open spec fn header_valid(h: FragmentHeader) -> bool {
    h.magic == FRAGMENT_MAGIC && h.reserved == 0 && h.sequence < MAX_FRAGMENTS
}

proof fn lemma_sequence_field(is_final: bool, sequence: u16)
    requires
        sequence < 32768,
    ensures
        sequence_field(is_final, sequence).len() == 2,
        (sequence_field(is_final, sequence)[0] >= 128) == is_final,
        ((sequence_field(is_final, sequence)[0] % 128) * 256 + sequence_field(is_final, sequence)[1]) as u16
            == sequence,
{
    let hi = sequence as int / 256;
    let lo = sequence as int % 256;
    assert(0 <= hi < 128);
    assert(hi % 128 == hi);
    let first = (if is_final { 128int } else { 0int }) + hi;
    assert(0 <= first < 256);
    assert(first % 128 == hi);
    assert(hi * 256 + lo == sequence);
}

/// Reading a written header gives the header back, whatever follows.
pub proof fn lemma_header_round_trip(h: FragmentHeader, payload: Seq<u8>)
    requires
        header_valid(h),
    ensures
        header_bytes(h).len() == 8,
        parse_header(header_bytes(h) + payload) == Some(h),
        (header_bytes(h) + payload).subrange(8, 8 + payload.len() as int) == payload,
{
    let s = header_bytes(h) + payload;
    assert(s.subrange(0, 2) =~= u16_be(h.magic));
    assert(s.subrange(2, 4) =~= u16_be(h.fragment_id));
    assert(s.subrange(6, 8) =~= u16_be(h.total_fragments));
    assert(s.subrange(8, 8 + payload.len() as int) =~= payload);
    lemma_sequence_field(h.is_final, h.sequence);
    let field = sequence_field(h.is_final, h.sequence);
    assert(s[4] == field[0]);
    assert(s[5] == field[1]);
    let parsed = parse_header(s)->0;
    assert(parsed.is_final == h.is_final);
    assert(parsed.sequence == h.sequence);
    assert(parsed.fragment_id == h.fragment_id);
    assert(parsed.total_fragments == h.total_fragments);
}

impl FragmentHeader {
    /// The header of fragment `sequence` of `total_fragments` of the object
    /// `fragment_id`.
    pub fn new(fragment_id: u16, sequence: u16, total_fragments: u16, is_final: bool) -> (r: Self)
        ensures
            r == (FragmentHeader {
                magic: FRAGMENT_MAGIC,
                is_final,
                reserved: 0,
                fragment_id,
                sequence,
                total_fragments,
            }),
            sequence < MAX_FRAGMENTS ==> header_valid(r),
    {
        FragmentHeader { magic: FRAGMENT_MAGIC, is_final, reserved: 0, fragment_id, sequence, total_fragments }
    }

    /// Appends the header to `out`.
    pub fn write_to(&self, out: &mut Vec<u8>)
        ensures
            final(out)@ == old(out)@ + header_bytes(*self),
    {
        out.push((self.magic / 256) as u8);
        out.push((self.magic % 256) as u8);
        out.push((self.fragment_id / 256) as u8);
        out.push((self.fragment_id % 256) as u8);
        let top: u8 = if self.is_final { 128 } else { 0 };
        out.push(top + ((self.sequence / 256) % 128) as u8);
        out.push((self.sequence % 256) as u8);
        out.push((self.total_fragments / 256) as u8);
        out.push((self.total_fragments % 256) as u8);
        assert(out@ =~= old(out)@ + header_bytes(*self));
    }

    /// The header on the wire: eight octets.
    pub fn to_bytes(&self) -> (r: Vec<u8>)
        ensures
            r@ == header_bytes(*self),
            r@.len() == FRAGMENT_HEADER_SIZE,
    {
        let mut out: Vec<u8> = Vec::new();
        self.write_to(&mut out);
        assert(out@ =~= header_bytes(*self));
        out
    }

    /// Reads a header from the front of `buf`: `Parse` where `buf` is too
    /// short or does not open with the magic value.
    pub fn from_bytes(buf: &[u8]) -> (r: Result<FragmentHeader, Error>)
        ensures
            match parse_header(buf@) {
                Some(h) => r == Ok::<FragmentHeader, Error>(h),
                None => r == Err::<FragmentHeader, Error>(Error::Parse),
            },
    {
        if buf.len() < FRAGMENT_HEADER_SIZE {
            return Err(Error::Parse);
        }
        let magic: u16 = (buf[0] as u16) * 256 + (buf[1] as u16);
        if magic != FRAGMENT_MAGIC {
            return Err(Error::Parse);
        }
        let fragment_id: u16 = (buf[2] as u16) * 256 + (buf[3] as u16);
        let flagged: u8 = buf[4];
        let sequence: u16 = ((flagged % 128) as u16) * 256 + (buf[5] as u16);
        let total_fragments: u16 = (buf[6] as u16) * 256 + (buf[7] as u16);
        Ok(
            FragmentHeader {
                magic,
                is_final: flagged >= 128,
                reserved: 0,
                fragment_id,
                sequence,
                total_fragments,
            },
        )
    }
}

/// A fragment: its header and its slice of the encoded object.
#[derive(Debug, Clone, PartialEq, Eq)]
pub struct Fragment {
    pub header: FragmentHeader,
    pub payload: Vec<u8>,
}

/// The wire form of a fragment.
pub open spec fn fragment_wire(h: FragmentHeader, payload: Seq<u8>) -> Seq<u8> {
    header_bytes(h) + payload
}

impl Fragment {
    /// A fragment with the given header and payload.
    pub fn new(header: FragmentHeader, payload: Vec<u8>) -> (r: Self)
        ensures
            r.header == header,
            r.payload@ == payload@,
    {
        Fragment { header, payload }
    }

    /// The wire form: the header, then the payload.
    pub fn to_bytes(&self) -> (r: Vec<u8>)
        ensures
            r@ == fragment_wire(self.header, self.payload@),
    {
        let mut out: Vec<u8> = Vec::new();
        self.header.write_to(&mut out);
        out.extend_from_slice(self.payload.as_slice());
        assert(out@ =~= fragment_wire(self.header, self.payload@));
        out
    }

    /// Reads a fragment: the header, and everything after it as payload.
    pub fn from_bytes(buf: &[u8]) -> (r: Result<Fragment, Error>)
        ensures
            match parse_header(buf@) {
                Some(h) => r is Ok && r->Ok_0.header == h && r->Ok_0.payload@ == buf@.subrange(
                    8,
                    buf@.len() as int,
                ),
                None => r == Err::<Fragment, Error>(Error::Parse),
            },
    {
        match FragmentHeader::from_bytes(buf) {
            Ok(header) => Ok(Fragment { header, payload: copy_range(buf, FRAGMENT_HEADER_SIZE, buf.len()) }),
            Err(_) => Err(Error::Parse),
        }
    }
}

/// Number of fragments for `len` octets at `p` payload octets each: the
/// quotient rounded up.
pub open spec fn fragment_count(len: int, p: int) -> int {
    if len % p == 0 {
        len / p
    } else {
        len / p + 1
    }
}

/// The slice of `bytes` that fragment `i` carries.
pub open spec fn fragment_payload(bytes: Seq<u8>, p: int, i: int) -> Seq<u8> {
    bytes.subrange(i * p, if i * p + p <= bytes.len() { i * p + p } else { bytes.len() as int })
}

/// The header of fragment `i` of `total`.
pub open spec fn fragment_header(id: u16, i: int, total: int) -> FragmentHeader {
    FragmentHeader {
        magic: FRAGMENT_MAGIC,
        is_final: i == total - 1,
        reserved: 0,
        fragment_id: id,
        sequence: i as u16,
        total_fragments: total as u16,
    }
}

/// The payloads `0..n` of a reassembly in sequence order.
pub open spec fn concat_payloads(received: Map<u16, Seq<u8>>, n: int) -> Seq<u8>
    decreases n,
{
    if n <= 0 {
        Seq::empty()
    } else {
        concat_payloads(received, n - 1) + received[(n - 1) as u16]
    }
}

/// What the rounded-up quotient means: the fragments cover the object, and
/// the last one is not empty.
pub proof fn lemma_fragment_count(len: int, p: int)
    requires
        len >= 0,
        p > 0,
    ensures
        fragment_count(len, p) >= 0,
        fragment_count(len, p) * p >= len,
        fragment_count(len, p) > 0 ==> (fragment_count(len, p) - 1) * p < len,
        fragment_count(len, p) <= len,
{
    lemma_fundamental_div_mod(len, p);
    let q = len / p;
    assert(len == p * q + len % p);
    assert(0 <= len % p < p);
    assert(q >= 0 && q <= len && (q + 1) * p == q * p + p && (q - 1) * p == q * p - p && p * q == q * p && q * p
        >= q)
        by (nonlinear_arith)
        requires
            len == p * q + len % p,
            0 <= len % p < p,
            p > 0,
            len >= 0,
    ;
}

proof fn lemma_fragment_start(i: int, total: int, len: int, p: int)
    requires
        0 <= i < total,
        total == fragment_count(len, p),
        len >= 0,
        p > 0,
    ensures
        0 <= i * p < len,
        (i + 1) * p == i * p + p,
{
    lemma_fragment_count(len, p);
    lemma_mul_inequality(i, total - 1, p);
    assert(i * p >= 0 && (i + 1) * p == i * p + p) by (nonlinear_arith)
        requires
            i >= 0,
            p > 0,
    ;
}

/// Whether a reassembly holds the payload of every fragment of `bytes`
/// under its sequence number.
pub open spec fn holds_all(bytes: Seq<u8>, p: int, received: Map<u16, Seq<u8>>) -> bool {
    forall|i: int|
        0 <= i < fragment_count(bytes.len() as int, p) ==> holds_fragment(bytes, p, received, i)
}

/// Whether a reassembly holds the payload of fragment `i` of `bytes`.
pub open spec fn holds_fragment(bytes: Seq<u8>, p: int, received: Map<u16, Seq<u8>>, i: int) -> bool {
    received.contains_key(i as u16) && received[i as u16] == fragment_payload(bytes, p, i)
}

/// Fragmentation round trip, payload level: a reassembly that holds every
/// fragment's payload under its sequence number concatenates to the object,
/// in whatever order the fragments arrived and however often.
pub proof fn lemma_reassemble_fragments(bytes: Seq<u8>, p: int, received: Map<u16, Seq<u8>>)
    requires
        p > 0,
        fragment_count(bytes.len() as int, p) <= MAX_FRAGMENTS,
        holds_all(bytes, p, received),
    ensures
        concat_payloads(received, fragment_count(bytes.len() as int, p)) == bytes,
{
    let total = fragment_count(bytes.len() as int, p);
    lemma_fragment_count(bytes.len() as int, p);
    lemma_concat_prefix(bytes, p, received, total);
    assert(bytes.subrange(0, bytes.len() as int) =~= bytes);
}

proof fn lemma_concat_prefix(bytes: Seq<u8>, p: int, received: Map<u16, Seq<u8>>, k: int)
    requires
        p > 0,
        fragment_count(bytes.len() as int, p) <= MAX_FRAGMENTS,
        0 <= k <= fragment_count(bytes.len() as int, p),
        holds_all(bytes, p, received),
    ensures
        k * p >= 0,
        concat_payloads(received, k) == bytes.subrange(
            0,
            if k * p <= bytes.len() {
                k * p
            } else {
                bytes.len() as int
            },
        ),
    decreases k,
{
    let len = bytes.len() as int;
    if k == 0 {
        assert(0 * p == 0) by (nonlinear_arith);
        assert(concat_payloads(received, 0) =~= bytes.subrange(0, 0));
    } else {
        lemma_concat_prefix(bytes, p, received, k - 1);
        lemma_fragment_start(k - 1, fragment_count(len, p), len, p);
        let a = (k - 1) * p;
        let b = if a + p <= len { a + p } else { len };
        assert(k * p == a + p);
        assert(holds_fragment(bytes, p, received, k - 1));
        assert(fragment_payload(bytes, p, k - 1) == bytes.subrange(a, b));
        assert(received[(k - 1) as u16] == bytes.subrange(a, b));
        assert(bytes.subrange(0, a) + bytes.subrange(a, b) =~= bytes.subrange(0, b));
    }
}

/// The payloads collected from fragments arriving in the order `arrivals`:
/// each payload is stored under its sequence number.
pub open spec fn collect(arrivals: Seq<(u16, Seq<u8>)>) -> Map<u16, Seq<u8>>
    decreases arrivals.len(),
{
    if arrivals.len() == 0 {
        Map::empty()
    } else {
        collect(arrivals.drop_last()).insert(arrivals.last().0, arrivals.last().1)
    }
}

/// Whether the fragment with sequence number `i` is among the arrivals.
pub open spec fn arrived(arrivals: Seq<(u16, Seq<u8>)>, i: int) -> bool {
    exists|j: int| 0 <= j < arrivals.len() && (#[trigger] arrivals[j]).0 == i
}

/// Fragmentation round trip, arrival level: whatever the order of arrival,
/// and with any fragment arriving more than once, once every fragment of an
/// object has arrived the collected payloads concatenate to the object.
pub proof fn lemma_collect_any_order(bytes: Seq<u8>, p: int, arrivals: Seq<(u16, Seq<u8>)>)
    requires
        p > 0,
        fragment_count(bytes.len() as int, p) <= MAX_FRAGMENTS,
        forall|j: int|
            0 <= j < arrivals.len() ==> (#[trigger] arrivals[j]).0 < fragment_count(bytes.len() as int, p)
                && arrivals[j].1 == fragment_payload(bytes, p, arrivals[j].0 as int),
        forall|i: int| 0 <= i < fragment_count(bytes.len() as int, p) ==> #[trigger] arrived(arrivals, i),
    ensures
        concat_payloads(collect(arrivals), fragment_count(bytes.len() as int, p)) == bytes,
{
    let total = fragment_count(bytes.len() as int, p);
    assert forall|i: int| 0 <= i < total implies holds_fragment(bytes, p, collect(arrivals), i) by {
        assert(arrived(arrivals, i));
        let j = choose|j: int| 0 <= j < arrivals.len() && (#[trigger] arrivals[j]).0 == i;
        lemma_collect_holds(bytes, p, arrivals, j);
    }
    lemma_reassemble_fragments(bytes, p, collect(arrivals));
}

proof fn lemma_collect_holds(bytes: Seq<u8>, p: int, arrivals: Seq<(u16, Seq<u8>)>, j: int)
    requires
        0 <= j < arrivals.len(),
        forall|k: int|
            0 <= k < arrivals.len() ==> (#[trigger] arrivals[k]).1 == fragment_payload(
                bytes,
                p,
                arrivals[k].0 as int,
            ),
    ensures
        collect(arrivals).contains_key(arrivals[j].0),
        collect(arrivals)[arrivals[j].0] == fragment_payload(bytes, p, arrivals[j].0 as int),
    decreases arrivals.len(),
{
    let last = arrivals.last();
    if last.0 == arrivals[j].0 {
        assert(last.1 == fragment_payload(bytes, p, last.0 as int));
    } else {
        let front = arrivals.drop_last();
        assert(j < front.len());
        assert forall|k: int| 0 <= k < front.len() implies (#[trigger] front[k]).1 == fragment_payload(
            bytes,
            p,
            front[k].0 as int,
        ) by {
            assert(front[k] == arrivals[k]);
        }
        lemma_collect_holds(bytes, p, front, j);
        assert(front[j] == arrivals[j]);
    }
}

/// Fragmentation round trip: the fragments of an encoded Data packet, having
/// arrived in any order and any number of times each, reassemble to octets
/// that decode to the packet.
pub proof fn lemma_fragmentation_round_trip(d: DataView, p: int, arrivals: Seq<(u16, Seq<u8>)>)
    requires
        data_encodable(d),
        d.content_type.canonical(),
        p > 0,
        fragment_count(encode_data(d).len() as int, p) <= MAX_FRAGMENTS,
        forall|j: int|
            0 <= j < arrivals.len() ==> (#[trigger] arrivals[j]).0 < fragment_count(
                encode_data(d).len() as int,
                p,
            ) && arrivals[j].1 == fragment_payload(encode_data(d), p, arrivals[j].0 as int),
        forall|i: int|
            0 <= i < fragment_count(encode_data(d).len() as int, p) ==> #[trigger] arrived(arrivals, i),
    ensures
        decode_data(
            concat_payloads(collect(arrivals), fragment_count(encode_data(d).len() as int, p)),
        ) == Some(d),
{
    lemma_collect_any_order(encode_data(d), p, arrivals);
    lemma_data_round_trip(d);
}

/// A reassembly that misses a fragment holds fewer payloads than the total.
pub proof fn lemma_missing_fragment_incomplete(received: Map<u16, Seq<u8>>, total: u16, missing: u16)
    requires
        received.dom().finite(),
        forall|k: u16| received.contains_key(k) ==> k < total,
        missing < total,
        !received.contains_key(missing),
    ensures
        received.dom().len() < total,
{
    lemma_range_len(total);
    let range = Set::new(|k: u16| k < total);
    vstd::set_lib::lemma_len_subset(received.dom(), range);
    if received.dom().len() == total {
        vstd::set_lib::lemma_subset_equality(received.dom(), range);
        assert(range.contains(missing));
    }
}

proof fn lemma_range_len(t: u16)
    ensures
        Set::new(|k: u16| k < t).finite(),
        Set::new(|k: u16| k < t).len() == t,
    decreases t,
{
    if t == 0 {
        assert(Set::new(|k: u16| k < t) =~= Set::<u16>::empty());
    } else {
        let u = (t - 1) as u16;
        lemma_range_len(u);
        assert(Set::new(|k: u16| k < t) =~= Set::new(|k: u16| k < u).insert(u));
    }
}

/// A reassembly over sequence numbers below `total` that holds `total`
/// payloads holds one for every sequence number.
pub proof fn lemma_complete_holds_all(received: Map<u16, Seq<u8>>, total: u16)
    requires
        received.dom().finite(),
        forall|k: u16| received.contains_key(k) ==> k < total,
        received.dom().len() == total,
    ensures
        forall|k: u16| k < total ==> received.contains_key(k),
{
    assert forall|k: u16| k < total implies received.contains_key(k) by {
        if !received.contains_key(k) {
            lemma_missing_fragment_incomplete(received, total, k);
        }
    }
}

/// What a reassembly holds.
pub struct ContextView {
    pub fragment_id: u16,
    pub total: u16,
    pub received: Map<u16, Seq<u8>>,
    pub started_at: u64,
}

/// The fragments of one object received so far.
#[derive(Debug)]
pub struct ReassemblyContext {
    fragment_id: u16,
    total_fragments: u16,
    fragments: HashMap<u16, Vec<u8>>,
    start_time: u64,
}

impl View for ReassemblyContext {
    type V = ContextView;

    closed spec fn view(&self) -> ContextView {
        ContextView {
            fragment_id: self.fragment_id,
            total: self.total_fragments,
            received: Map::new(|k: u16| self.fragments@.contains_key(k), |k: u16| self.fragments@[k]@),
            started_at: self.start_time,
        }
    }
}

/// Every payload of a reassembly stands under a sequence number below the
/// total.
pub open spec fn context_wf(c: ContextView) -> bool {
    c.received.dom().finite() && forall|k: u16| c.received.contains_key(k) ==> k < c.total
}

/// Whether a reassembly takes a fragment: it belongs to an object of the same
/// total, its sequence number is below the total, and it does not contradict
/// a payload already held for that sequence number.
pub open spec fn accepts(c: ContextView, h: FragmentHeader, payload: Seq<u8>) -> bool {
    h.total_fragments == c.total && h.sequence < c.total && (c.received.contains_key(h.sequence)
        ==> c.received[h.sequence] == payload)
}

/// Whether a reassembly holds all its fragments.
pub open spec fn complete(c: ContextView) -> bool {
    c.received.dom().len() == c.total
}

impl ReassemblyContext {
    /// An empty reassembly for the object `fragment_id` of `total_fragments`
    /// fragments, started at `now`.
    pub fn new(fragment_id: u16, total_fragments: u16, now: u64) -> (r: Self)
        ensures
            r@ == (ContextView {
                fragment_id,
                total: total_fragments,
                received: Map::empty(),
                started_at: now,
            }),
            context_wf(r@),
    {
        let r = ReassemblyContext {
            fragment_id,
            total_fragments,
            fragments: HashMap::new(),
            start_time: now,
        };
        assert(r@.received =~= Map::<u16, Seq<u8>>::empty());
        r
    }

    /// Executable form of [`accepts`].
    pub fn takes(&self, header: &FragmentHeader, payload: &[u8]) -> (r: bool)
        ensures
            r == accepts(self@, *header, payload@),
    {
        if header.total_fragments != self.total_fragments || header.sequence >= self.total_fragments {
            return false;
        }
        match self.fragments.get(&header.sequence) {
            Some(held) => bytes_eq(held.as_slice(), payload),
            None => true,
        }
    }

    /// Stores `payload` under `sequence`. A payload already held for that
    /// sequence number is accepted again; a different one, or a sequence
    /// number that is not below the total, is refused with `Parse`.
    pub fn add_fragment(&mut self, sequence: u16, payload: Vec<u8>) -> (r: Result<(), Error>)
        requires
            context_wf(old(self)@),
        ensures
            context_wf(final(self)@),
            sequence < old(self)@.total && (old(self)@.received.contains_key(sequence) ==> old(self)@.received[sequence] == payload@) ==> r is Ok && final(self)@ == (ContextView {
                received: old(self)@.received.insert(sequence, payload@),
                ..old(self)@
            }),
            !(sequence < old(self)@.total && (old(self)@.received.contains_key(sequence) ==> old(self)@.received[sequence] == payload@)) ==> r == Err::<(), Error>(Error::Parse) && final(self)@ == old(self)@,
    {
        if sequence >= self.total_fragments {
            return Err(Error::Parse);
        }
        let same = match self.fragments.get(&sequence) {
            Some(held) => bytes_eq(held.as_slice(), payload.as_slice()),
            None => true,
        };
        if !same {
            return Err(Error::Parse);
        }
        self.fragments.insert(sequence, payload);
        assert(self@.received =~= old(self)@.received.insert(sequence, payload@));
        assert(self@.received.dom() =~= self.fragments@.dom());
        Ok(())
    }

    /// Whether every fragment has arrived.
    pub fn is_complete(&self) -> (r: bool)
        ensures
            r == complete(self@),
    {
        assert(self@.received.dom() =~= self.fragments@.dom());
        self.fragments.len() == self.total_fragments as usize
    }

    /// The payloads in sequence order, or `Parse` where a fragment is missing.
    pub fn reassemble(&self) -> (r: Result<Vec<u8>, Error>)
        requires
            context_wf(self@),
        ensures
            complete(self@) ==> r is Ok && r->Ok_0@ == concat_payloads(self@.received, self@.total as int),
            !complete(self@) ==> r == Err::<Vec<u8>, Error>(Error::Parse),
    {
        if !self.is_complete() {
            return Err(Error::Parse);
        }
        proof {
            lemma_complete_holds_all(self@.received, self@.total);
        }
        let mut out: Vec<u8> = Vec::new();
        let mut i: u16 = 0;
        while i < self.total_fragments
            invariant
                0 <= i <= self.total_fragments,
                forall|k: u16| k < self@.total ==> self@.received.contains_key(k),
                out@ == concat_payloads(self@.received, i as int),
            decreases self.total_fragments - i,
        {
            assert(self@.received.contains_key(i));
            match self.fragments.get(&i) {
                Some(payload) => {
                    out.extend_from_slice(payload.as_slice());
                },
                None => {
                    return Err(Error::Parse);
                },
            }
            i += 1;
        }
        Ok(out)
    }

    /// The object the fragments belong to.
    pub fn fragment_id(&self) -> (r: u16)
        ensures
            r == self@.fragment_id,
    {
        self.fragment_id
    }

    /// When the reassembly started.
    pub fn started_at(&self) -> (r: u64)
        ensures
            r == self@.started_at,
    {
        self.start_time
    }
}

/// The order in which packet sizes are sorted.
pub open spec fn size_leq() -> spec_fn(usize, usize) -> bool {
    |a: usize, b: usize| a <= b
}

/// Sorts packet sizes with `sort_unstable` of slices: afterwards the vector
/// holds the same sizes, each as often as before, in ascending order.
#[verifier::external_body]
fn sort_sizes(v: &mut Vec<usize>)
    ensures
        final(v)@.len() == old(v)@.len(),
        final(v)@.to_multiset() == old(v)@.to_multiset(),
        forall|i: int, j: int| 0 <= i < j < final(v)@.len() ==> final(v)@[i] <= final(v)@[j],
{
    v.sort_unstable();
}

/// The largest encoded packet whose size is recorded.
pub const MAX_RECORDED_SIZE: usize = 65539;

/// What a fragmenter holds.
pub struct FragmenterView {
    pub mtu: usize,
    pub next_fragment_id: u16,
    pub history: Seq<usize>,
    pub last_adjustment: u64,
    pub stale_after: u64,
    pub contexts: Map<u16, ContextView>,
}

/// `x` rounded up to a multiple of 100.
pub open spec fn round_up_100(x: int) -> int {
    ((x + 99) / 100) * 100
}

/// The MTU that the recorded sizes call for: the 95th percentile, plus the
/// header and 50 octets of slack, rounded up to the next 100 and at least
/// the header plus 100; the current MTU where nothing is recorded.
pub open spec fn predicted_mtu(f: FragmenterView) -> int {
    if f.history.len() == 0 {
        f.mtu as int
    } else {
        let sorted = f.history.sort_by(size_leq());
        let p95 = sorted[(f.history.len() * 95 / 100) as int];
        let rounded = round_up_100(p95 + FRAGMENT_HEADER_SIZE + 50);
        if rounded >= FRAGMENT_HEADER_SIZE + 100 {
            rounded
        } else {
            (FRAGMENT_HEADER_SIZE + 100) as int
        }
    }
}

/// The fragmenter after an explicit MTU update at `now`: the MTU is at least
/// the smallest viable one, the history is forgotten.
pub open spec fn updated(f: FragmenterView, new_mtu: int, now: u64) -> FragmenterView {
    FragmenterView {
        mtu: if new_mtu >= MIN_FRAGMENT_MTU {
            new_mtu as usize
        } else {
            MIN_FRAGMENT_MTU
        },
        history: Seq::empty(),
        last_adjustment: now,
        ..f
    }
}

/// Whether the prediction is applied at `now`: at least 30 seconds after the
/// last adjustment, and only where it differs from the current MTU by more
/// than a tenth of it.
pub open spec fn adapts(f: FragmenterView, now: u64) -> bool {
    now >= f.last_adjustment && now - f.last_adjustment >= ADAPT_INTERVAL_SECS && {
        let p = predicted_mtu(f);
        let delta = if p >= f.mtu {
            p - f.mtu
        } else {
            f.mtu - p
        };
        delta * 10 > f.mtu
    }
}

/// The fragmenter after a chance to adapt its MTU at `now`.
pub open spec fn adapted(f: FragmenterView, now: u64) -> FragmenterView {
    if adapts(f, now) {
        updated(f, predicted_mtu(f), now)
    } else {
        f
    }
}

/// The fragmenter after recording the size of an outgoing packet: the last
/// 100 sizes are kept.
pub open spec fn recorded(f: FragmenterView, size: usize) -> FragmenterView {
    FragmenterView {
        history: if f.history.len() + 1 > HISTORY_LEN {
            f.history.push(size).skip(1)
        } else {
            f.history.push(size)
        },
        ..f
    }
}

/// Whether a fragmenter is in order.
pub open spec fn fragmenter_wf(f: FragmenterView) -> bool {
    &&& f.mtu >= MIN_FRAGMENT_MTU
    &&& f.history.len() <= HISTORY_LEN
    &&& forall|j: int| 0 <= j < f.history.len() ==> f.history[j] <= MAX_RECORDED_SIZE
    &&& f.contexts.dom().finite()
    &&& forall|k: u16| f.contexts.contains_key(k) ==> context_wf(#[trigger] f.contexts[k])
}

/// Whether `frags` are the fragments of `bytes` at `p` payload octets each,
/// for the object `id`: sequence numbers `0..total`, each with its header
/// and its slice, the last one marked final.
pub open spec fn is_fragments_of(frags: Seq<Vec<u8>>, bytes: Seq<u8>, p: int, id: u16) -> bool {
    let total = fragment_count(bytes.len() as int, p);
    frags.len() == total && forall|i: int|
        0 <= i < total ==> (#[trigger] frags[i])@ == fragment_wire(
            fragment_header(id, i, total),
            fragment_payload(bytes, p, i),
        )
}

/// Whether chunks fit an MTU: none is longer, and every one but the last
/// fills it.
pub open spec fn fits(chunks: Seq<Vec<u8>>, mtu: int) -> bool {
    forall|i: int|
        0 <= i < chunks.len() ==> (#[trigger] chunks[i])@.len() <= mtu && (i < chunks.len() - 1 ==> chunks[i]@.len()
            == mtu)
}

/// The fragments of an object fit the MTU that their payload size was taken
/// from, and the last one carries at least one payload octet.
pub proof fn lemma_fragments_fit(frags: Seq<Vec<u8>>, bytes: Seq<u8>, p: int, id: u16)
    requires
        p > 0,
        is_fragments_of(frags, bytes, p, id),
    ensures
        fits(frags, p + FRAGMENT_HEADER_SIZE),
        frags.len() > 0 ==> frags.last()@.len() > FRAGMENT_HEADER_SIZE && frags.last()@.len()
            == FRAGMENT_HEADER_SIZE + bytes.len() - (frags.len() - 1) * p,
{
    let len = bytes.len() as int;
    let total = fragment_count(len, p);
    lemma_fragment_count(len, p);
    assert forall|i: int| 0 <= i < frags.len() implies (#[trigger] frags[i])@.len() <= p + 8 && frags[i]@.len() > 8
        && (i < frags.len() - 1 ==> frags[i]@.len() == p + 8) by {
        lemma_fragment_start(i, total, len, p);
        if i < total - 1 {
            lemma_fragment_start(i + 1, total, len, p);
        }
        let h = fragment_header(id, i, total);
        assert(header_bytes(h).len() == 8);
        assert(frags[i]@ == header_bytes(h) + fragment_payload(bytes, p, i));
    }
    if frags.len() > 0 {
        let i = total - 1;
        lemma_fragment_start(i, total, len, p);
        assert(frags.last() == frags[i]);
        assert(frags[i]@ == header_bytes(fragment_header(id, i, total)) + fragment_payload(bytes, p, i));
        assert(header_bytes(fragment_header(id, i, total)).len() == 8);
        assert(i * p + p >= len);
        assert(fragment_payload(bytes, p, i).len() == len - i * p);
    }
}

/// The reassembly that a fragment with header `h` goes to: the one held for
/// its object, or a new one started at `now`.
pub open spec fn context_for(f: FragmenterView, h: FragmentHeader, now: u64) -> ContextView {
    if f.contexts.contains_key(h.fragment_id) {
        f.contexts[h.fragment_id]
    } else {
        ContextView {
            fragment_id: h.fragment_id,
            total: h.total_fragments,
            received: Map::empty(),
            started_at: now,
        }
    }
}

/// Whether a reassembly is stale at `now`: older than `max_age_secs`.
pub open spec fn stale(c: ContextView, max_age_secs: u64, now: u64) -> bool {
    now >= c.started_at && now - c.started_at > max_age_secs
}

/// What taking one incoming fragment does to a fragmenter and what it gives.
///
/// A buffer that is no fragment is refused with `Parse` and changes nothing.
/// A fragment of a reassembly that is stale, that is older than the
/// fragmenter's threshold, fails as `ReassemblyTimeout`, and the reassembly
/// is dropped. A fragment that its reassembly does not accept is refused
/// with `Parse` and changes nothing. Otherwise the payload
/// is stored under its sequence number. Once the reassembly holds every
/// fragment it is dropped and its payloads, in sequence order, are decoded:
/// the result is the Data, or `Parse` where they do not decode. Until then
/// the result is `None`.
pub open spec fn processed(
    before: FragmenterView,
    after: FragmenterView,
    bytes: Seq<u8>,
    now: u64,
    r: Result<Option<Data>, Error>,
) -> bool {
    match parse_header(bytes) {
        None => r == Err::<Option<Data>, Error>(Error::Parse) && after == before,
        Some(h) => {
            let payload = bytes.subrange(8, bytes.len() as int);
            let c = context_for(before, h, now);
            let received = c.received.insert(h.sequence, payload);
            if before.contexts.contains_key(h.fragment_id) && stale(c, before.stale_after, now) {
                r == Err::<Option<Data>, Error>(Error::ReassemblyTimeout) && after == (FragmenterView {
                    contexts: before.contexts.remove(h.fragment_id),
                    ..before
                })
            } else if !accepts(c, h, payload) {
                r == Err::<Option<Data>, Error>(Error::Parse) && after == before
            } else if received.dom().len() == c.total {
                after == (FragmenterView {
                    contexts: before.contexts.remove(h.fragment_id),
                    ..before
                }) && match decode_data(concat_payloads(received, c.total as int)) {
                    Some(d) => r is Ok && r->Ok_0 is Some && r->Ok_0->0@ == d,
                    None => r == Err::<Option<Data>, Error>(Error::Parse),
                }
            } else {
                after == (FragmenterView {
                    contexts: before.contexts.insert(
                        h.fragment_id,
                        ContextView { received: received, ..c },
                    ),
                    ..before
                }) && r is Ok && r->Ok_0 is None
            }
        },
    }
}

/// What fragmenting a Data packet for sending does to a fragmenter and what
/// it gives: the size of the encoding is recorded, the MTU may adapt, then the
/// encoding is split at the MTU in force.
pub open spec fn fragmented(
    before: FragmenterView,
    after: FragmenterView,
    d: DataView,
    now: u64,
    r: Result<Vec<Vec<u8>>, Error>,
) -> bool {
    &&& !data_encodable(d) ==> r == Err::<Vec<Vec<u8>>, Error>(Error::InvalidArgument) && after
    == before
    &&& data_encodable(d) ==> ({
        let bytes = encode_data(d);
        let ready = adapted(recorded(before, bytes.len() as usize), now);
        let p = ready.mtu - FRAGMENT_HEADER_SIZE;
        if fragment_count(bytes.len() as int, p) <= MAX_FRAGMENTS {
            r is Ok && is_fragments_of(r->Ok_0@, bytes, p, ready.next_fragment_id) && fits(
                r->Ok_0@,
                ready.mtu as int,
            ) && after == (
            FragmenterView {
                next_fragment_id: if ready.next_fragment_id == 65535 {
                    0u16
                } else {
                    (ready.next_fragment_id + 1) as u16
                },
                ..ready
            })
        } else {
            r == Err::<Vec<Vec<u8>>, Error>(Error::InvalidArgument) && after == ready
        }
    })
}

/// Splits encoded Data into fragments, reassembles incoming fragments, and
/// adapts the MTU to the sizes it has seen.
#[derive(Debug)]
pub struct Fragmenter {
    mtu: usize,
    next_fragment_id: u16,
    reassembly: HashMap<u16, ReassemblyContext>,
    mtu_history: Vec<usize>,
    last_mtu_adjustment: u64,
    stale_after: u64,
}

impl View for Fragmenter {
    type V = FragmenterView;

    closed spec fn view(&self) -> FragmenterView {
        FragmenterView {
            mtu: self.mtu,
            next_fragment_id: self.next_fragment_id,
            history: self.mtu_history@,
            last_adjustment: self.last_mtu_adjustment,
            stale_after: self.stale_after,
            contexts: Map::new(|k: u16| self.reassembly@.contains_key(k), |k: u16| self.reassembly@[k]@),
        }
    }
}

impl Fragmenter {
    /// A fragmenter with the given MTU, raised to the smallest viable one
    /// where it is below it; `now` counts as the time of the last adjustment.
    pub fn new(mtu: usize, now: u64) -> (r: Self)
        ensures
            r@ == (FragmenterView {
                mtu: if mtu >= MIN_FRAGMENT_MTU {
                    mtu
                } else {
                    MIN_FRAGMENT_MTU
                },
                next_fragment_id: 1,
                history: Seq::empty(),
                last_adjustment: now,
                stale_after: DEFAULT_STALE_SECS,
                contexts: Map::empty(),
            }),
            fragmenter_wf(r@),
    {
        let r = Fragmenter {
            mtu: if mtu >= MIN_FRAGMENT_MTU {
                mtu
            } else {
                MIN_FRAGMENT_MTU
            },
            next_fragment_id: 1,
            reassembly: HashMap::new(),
            mtu_history: Vec::new(),
            last_mtu_adjustment: now,
            stale_after: DEFAULT_STALE_SECS,
        };
        assert(r@.contexts =~= Map::<u16, ContextView>::empty());
        assert(r@.history =~= Seq::<usize>::empty());
        r
    }

    /// A fragmenter with the default MTU of 1400.
    pub fn with_default_mtu(now: u64) -> (r: Self)
        ensures
            r@.mtu == DEFAULT_MTU,
            r@.next_fragment_id == 1,
            r@.history.len() == 0,
            r@.last_adjustment == now,
            r@.stale_after == DEFAULT_STALE_SECS,
            r@.contexts == Map::<u16, ContextView>::empty(),
            fragmenter_wf(r@),
    {
        Fragmenter::new(DEFAULT_MTU, now)
    }

    /// The current MTU.
    pub fn mtu(&self) -> (r: usize)
        ensures
            r == self@.mtu,
    {
        self.mtu
    }

    /// Sets the seconds after which an unfinished reassembly is stale.
    pub fn set_stale_threshold(&mut self, seconds: u64)
        requires
            fragmenter_wf(old(self)@),
        ensures
            final(self)@ == (FragmenterView { stale_after: seconds, ..old(self)@ }),
            fragmenter_wf(final(self)@),
    {
        self.stale_after = seconds;
        assert(self@.contexts =~= old(self)@.contexts);
    }

    /// The seconds after which an unfinished reassembly is stale.
    pub fn stale_threshold(&self) -> (r: u64)
        ensures
            r == self@.stale_after,
    {
        self.stale_after
    }

    /// Number of reassemblies in progress.
    pub fn pending(&self) -> (r: usize)
        ensures
            r == self@.contexts.dom().len(),
    {
        assert(self@.contexts.dom() =~= self.reassembly@.dom());
        self.reassembly.len()
    }

    /// Sets the MTU, raised to the smallest viable one where it is below it,
    /// forgets the recorded sizes and restarts the adaptation interval.
    pub fn update_mtu(&mut self, new_mtu: usize, now: u64)
        requires
            fragmenter_wf(old(self)@),
        ensures
            final(self)@ == updated(old(self)@, new_mtu as int, now),
            fragmenter_wf(final(self)@),
    {
        self.mtu = if new_mtu >= MIN_FRAGMENT_MTU {
            new_mtu
        } else {
            MIN_FRAGMENT_MTU
        };
        self.mtu_history.clear();
        self.last_mtu_adjustment = now;
        assert(self@.history =~= Seq::<usize>::empty());
        assert(self@.contexts =~= old(self)@.contexts);
    }

    /// The MTU that the recorded packet sizes call for.
    pub fn predict_optimal_mtu(&self) -> (r: usize)
        requires
            fragmenter_wf(self@),
        ensures
            r == predicted_mtu(self@),
    {
        if self.mtu_history.len() == 0 {
            return self.mtu;
        }
        let mut sizes: Vec<usize> = slice_to_vec(self.mtu_history.as_slice());
        sort_sizes(&mut sizes);
        proof {
            let h = self.mtu_history@;
            let leq = size_leq();
            assert(total_ordering(leq)) by {
                assert(vstd::relations::reflexive(leq));
                assert(vstd::relations::antisymmetric(leq));
                assert(vstd::relations::transitive(leq));
                assert(vstd::relations::strongly_connected(leq));
            }
            h.lemma_sort_by_ensures(leq);
            assert(sorted_by(sizes@, leq));
            lemma_sorted_unique(sizes@, h.sort_by(leq), leq);
            assert(sizes@ == h.sort_by(leq));
            assert(forall|j: int| 0 <= j < sizes@.len() ==> h.contains(#[trigger] sizes@[j])) by {
                assert forall|j: int| 0 <= j < sizes@.len() implies h.contains(#[trigger] sizes@[j]) by {
                    assert(sizes@.contains(sizes@[j]));
                }
            }
        }
        let idx: usize = self.mtu_history.len() * 95 / 100;
        let p95: usize = sizes[idx];
        assert(self.mtu_history@.contains(p95));
        assert(p95 <= MAX_RECORDED_SIZE);
        let rounded: usize = ((p95 + FRAGMENT_HEADER_SIZE + 50 + 99) / 100) * 100;
        if rounded >= FRAGMENT_HEADER_SIZE + 100 {
            rounded
        } else {
            FRAGMENT_HEADER_SIZE + 100
        }
    }

    /// Applies the predicted MTU where [`adapts`] says so.
    pub fn adapt_mtu(&mut self, now: u64)
        requires
            fragmenter_wf(old(self)@),
        ensures
            final(self)@ == adapted(old(self)@, now),
            fragmenter_wf(final(self)@),
    {
        if now < self.last_mtu_adjustment || now - self.last_mtu_adjustment < ADAPT_INTERVAL_SECS {
            return ;
        }
        let current: usize = self.mtu;
        let predicted: usize = self.predict_optimal_mtu();
        let delta: usize = if predicted >= current {
            predicted - current
        } else {
            current - predicted
        };
        if delta > current / 10 {
            self.update_mtu(predicted, now);
        }
    }

    fn record_size(&mut self, size: usize)
        requires
            fragmenter_wf(old(self)@),
            size <= MAX_RECORDED_SIZE,
        ensures
            final(self)@ == recorded(old(self)@, size),
            fragmenter_wf(final(self)@),
    {
        self.mtu_history.push(size);
        if self.mtu_history.len() > HISTORY_LEN {
            let _ = self.mtu_history.remove(0);
        }
        assert(self@.history =~= recorded(old(self)@, size).history);
        assert(self@.contexts =~= old(self)@.contexts);
    }

    /// Splits `bytes` into fragments at the current MTU and takes the next
    /// fragment id; `InvalidArgument`, with nothing changed, where the
    /// fragments would be more than a header can count.
    pub fn split(&mut self, bytes: &[u8]) -> (r: Result<Vec<Vec<u8>>, Error>)
        requires
            fragmenter_wf(old(self)@),
        ensures
            fragmenter_wf(final(self)@),
            fragment_count(bytes@.len() as int, old(self)@.mtu - FRAGMENT_HEADER_SIZE) <= MAX_FRAGMENTS ==> r is Ok
                && fits(r->Ok_0@, old(self)@.mtu as int) && is_fragments_of(
                r->Ok_0@,
                bytes@,
                old(self)@.mtu - FRAGMENT_HEADER_SIZE,
                old(self)@.next_fragment_id,
            ) && final(self)@ == (FragmenterView {
                next_fragment_id: if old(self)@.next_fragment_id == 65535 {
                    0u16
                } else {
                    (old(self)@.next_fragment_id + 1) as u16
                },
                ..old(self)@
            }),
            fragment_count(bytes@.len() as int, old(self)@.mtu - FRAGMENT_HEADER_SIZE) > MAX_FRAGMENTS ==> r == Err::<
                Vec<Vec<u8>>,
                Error,
            >(Error::InvalidArgument) && final(self)@ == old(self)@,
    {
        let p: usize = self.mtu - FRAGMENT_HEADER_SIZE;
        let len: usize = bytes.len();
        proof {
            lemma_fragment_count(len as int, p as int);
        }
        let total: usize = if len % p == 0 {
            len / p
        } else {
            len / p + 1
        };
        if total > MAX_FRAGMENTS {
            return Err(Error::InvalidArgument);
        }
        let id: u16 = self.next_fragment_id;
        self.next_fragment_id = if id == 65535 {
            0
        } else {
            id + 1
        };
        assert(self@.contexts =~= old(self)@.contexts);
        let mut frags: Vec<Vec<u8>> = Vec::new();
        let mut i: usize = 0;
        while i < total
            invariant
                p > 0,
                len == bytes@.len(),
                total == fragment_count(len as int, p as int),
                total <= MAX_FRAGMENTS,
                0 <= i <= total,
                frags@.len() == i,
                forall|k: int|
                    0 <= k < i ==> (#[trigger] frags@[k])@ == fragment_wire(
                        fragment_header(id, k, total as int),
                        fragment_payload(bytes@, p as int, k),
                    ),
            decreases total - i,
        {
            proof {
                lemma_fragment_start(i as int, total as int, len as int, p as int);
            }
            let start: usize = i * p;
            let end: usize = if len - start >= p {
                start + p
            } else {
                len
            };
            let header = FragmentHeader::new(id, i as u16, total as u16, i == total - 1);
            let fragment = Fragment::new(header, copy_range(bytes, start, end));
            let wire = fragment.to_bytes();
            frags.push(wire);
            i += 1;
        }
        proof {
            lemma_fragments_fit(frags@, bytes@, p as int, id);
        }
        Ok(frags)
    }

    /// Fragments `data` for sending: records the size of its encoding, lets
    /// the MTU adapt, then splits the encoding at the MTU in force.
    /// `InvalidArgument` where the Data does not fit the wire format, or
    /// where the fragments would be more than a header can count.
    pub fn fragment(&mut self, data: &Data, now: u64) -> (r: Result<Vec<Vec<u8>>, Error>)
        requires
            fragmenter_wf(old(self)@),
        ensures
            fragmenter_wf(final(self)@),
            fragmented(old(self)@, final(self)@, data@, now, r),
    {
        let bytes = match data.to_bytes() {
            Ok(b) => b,
            Err(_) => {
                return Err(Error::InvalidArgument);
            },
        };
        proof {
            crate::tlv::lemma_tlv_len(crate::ndn::TLV_DATA, crate::ndn::data_value(data@));
        }
        self.record_size(bytes.len());
        self.adapt_mtu(now);
        self.split(bytes.as_slice())
    }

    /// Takes one incoming fragment at time `now`.
    ///
    /// A buffer that is no fragment, or a fragment that its reassembly does
    /// not accept, is refused with `Parse` and changes nothing. Otherwise the
    /// payload is stored under its sequence number. Once the reassembly holds
    /// every fragment it is dropped and its payloads, in sequence order, are
    /// decoded: the result is the Data, or `Parse` where they do not decode.
    /// Until then the result is `None`.
    pub fn process_fragment(&mut self, fragment_bytes: &[u8], now: u64) -> (r: Result<Option<Data>, Error>)
        requires
            fragmenter_wf(old(self)@),
        ensures
            fragmenter_wf(final(self)@),
            processed(old(self)@, final(self)@, fragment_bytes@, now, r),
    {
        let fragment = match Fragment::from_bytes(fragment_bytes) {
            Ok(f) => f,
            Err(_) => {
                return Err(Error::Parse);
            },
        };
        let header = fragment.header;
        let late = match self.reassembly.get(&header.fragment_id) {
            Some(ctx) => now >= ctx.start_time && now - ctx.start_time > self.stale_after,
            None => false,
        };
        if late {
            let _ = self.reassembly.remove(&header.fragment_id);
            assert(self@.contexts =~= old(self)@.contexts.remove(header.fragment_id));
            return Err(Error::ReassemblyTimeout);
        }
        let ok = match self.reassembly.get(&header.fragment_id) {
            Some(ctx) => ctx.takes(&header, fragment.payload.as_slice()),
            None => header.sequence < header.total_fragments,
        };
        if !ok {
            return Err(Error::Parse);
        }
        let mut ctx = match self.reassembly.remove(&header.fragment_id) {
            Some(c) => c,
            None => ReassemblyContext::new(header.fragment_id, header.total_fragments, now),
        };
        assert(ctx@ == context_for(old(self)@, header, now));
        let ghost before = ctx@;
        let stored = ctx.add_fragment(header.sequence, fragment.payload);
        assert(stored is Ok);
        if ctx.is_complete() {
            assert(self@.contexts =~= old(self)@.contexts.remove(header.fragment_id));
            let bytes = match ctx.reassemble() {
                Ok(b) => b,
                Err(_) => {
                    return Err(Error::Parse);
                },
            };
            match Data::from_bytes(bytes.as_slice()) {
                Ok(data) => Ok(Some(data)),
                Err(_) => Err(Error::Parse),
            }
        } else {
            let ghost after = ctx@;
            self.reassembly.insert(header.fragment_id, ctx);
            assert(self@.contexts =~= old(self)@.contexts.insert(header.fragment_id, after));
            Ok(None)
        }
    }

    /// Drops the reassemblies that are stale at `now` and names the objects
    /// they belonged to, in ascending order. The Data of each of them has
    /// failed as `ReassemblyTimeout`: it is never delivered from the
    /// fragments that were dropped.
    pub fn expire_stale(&mut self, max_age_secs: u64, now: u64) -> (r: Vec<u16>)
        requires
            fragmenter_wf(old(self)@),
        ensures
            fragmenter_wf(final(self)@),
            final(self)@ == (FragmenterView {
                contexts: Map::new(
                    |k: u16|
                        old(self)@.contexts.contains_key(k) && !stale(old(self)@.contexts[k], max_age_secs, now),
                    |k: u16| old(self)@.contexts[k],
                ),
                ..old(self)@
            }),
            forall|k: u16|
                r@.contains(k) <==> old(self)@.contexts.contains_key(k) && stale(
                    old(self)@.contexts[k],
                    max_age_secs,
                    now,
                ),
            forall|a: int, b: int| 0 <= a < b < r@.len() ==> r@[a] < r@[b],
            r@.len() == old(self)@.contexts.dom().len() - final(self)@.contexts.dom().len(),
    {
        let mut gone: Vec<u16> = Vec::new();
        let mut id: u32 = 0;
        assert(self@.contexts.dom() =~= self.reassembly@.dom());
        while id < 65536
            invariant
                0 <= id <= 65536,
                gone@.len() <= id,
                self.mtu == old(self).mtu,
                self.next_fragment_id == old(self).next_fragment_id,
                self.mtu_history == old(self).mtu_history,
                self.last_mtu_adjustment == old(self).last_mtu_adjustment,
                self.stale_after == old(self).stale_after,
                self.reassembly@.dom().finite(),
                fragmenter_wf(old(self)@),
                forall|k: u16|
                    self@.contexts.contains_key(k) <==> old(self)@.contexts.contains_key(k) && (k >= id || !stale(
                        old(self)@.contexts[k],
                        max_age_secs,
                        now,
                    )),
                forall|k: u16| self@.contexts.contains_key(k) ==> self@.contexts[k] == old(self)@.contexts[k],
                gone@.len() + self.reassembly@.dom().len() == old(self).reassembly@.dom().len(),
                forall|k: u16|
                    gone@.contains(k) <==> k < id && old(self)@.contexts.contains_key(k) && stale(
                        old(self)@.contexts[k],
                        max_age_secs,
                        now,
                    ),
                forall|a: int, b: int| 0 <= a < b < gone@.len() ==> gone@[a] < gone@[b],
            decreases 65536 - id,
        {
            let key: u16 = id as u16;
            let drop = match self.reassembly.get(&key) {
                Some(ctx) => now >= ctx.start_time && now - ctx.start_time > max_age_secs,
                None => false,
            };
            let ghost before = gone@;
            let ghost held = self@.contexts;
            if drop {
                let _ = self.reassembly.remove(&key);
                assert(self@.contexts =~= held.remove(key));
                gone.push(key);
                proof {
                    assert forall|a: int, b: int| 0 <= a < b < gone@.len() implies gone@[a] < gone@[b] by {
                        if b == before.len() {
                            assert(before.contains(before[a]));
                        }
                    }
                }
            }
            proof {
                assert forall|k: u16|
                    gone@.contains(k) <==> k < id + 1 && old(self)@.contexts.contains_key(k) && stale(
                        old(self)@.contexts[k],
                        max_age_secs,
                        now,
                    ) by {
                    if gone@.contains(k) {
                        let j = choose|j: int| 0 <= j < gone@.len() && gone@[j] == k;
                        if j < before.len() {
                            assert(before[j] == k);
                            assert(before.contains(k));
                        }
                    }
                    if k < id && before.contains(k) {
                        let j = choose|j: int| 0 <= j < before.len() && before[j] == k;
                        assert(gone@[j] == k);
                    }
                    if k == key && drop {
                        assert(gone@[gone@.len() - 1] == k);
                    }
                }
            }
            id += 1;
        }
        assert(self@.contexts =~= Map::new(
            |k: u16| old(self)@.contexts.contains_key(k) && !stale(old(self)@.contexts[k], max_age_secs, now),
            |k: u16| old(self)@.contexts[k],
        ));
        assert(self@.contexts.dom() =~= self.reassembly@.dom());
        assert(old(self)@.contexts.dom() =~= old(self).reassembly@.dom());
        gone
    }

    /// Drops the reassemblies that are stale at `now` and says how many they
    /// were; see [`Fragmenter::expire_stale`].
    pub fn cleanup_stale(&mut self, max_age_secs: u64, now: u64) -> (r: usize)
        requires
            fragmenter_wf(old(self)@),
        ensures
            fragmenter_wf(final(self)@),
            final(self)@ == (FragmenterView {
                contexts: Map::new(
                    |k: u16|
                        old(self)@.contexts.contains_key(k) && !stale(old(self)@.contexts[k], max_age_secs, now),
                    |k: u16| old(self)@.contexts[k],
                ),
                ..old(self)@
            }),
            r == old(self)@.contexts.dom().len() - final(self)@.contexts.dom().len(),
    {
        let gone = self.expire_stale(max_age_secs, now);
        gone.len()
    }

    /// An empty reassembly for the object `fragment_id`, started at `now`.
    pub fn new_reassembly_context(&self, fragment_id: u16, total_fragments: u16, now: u64) -> (r:
        ReassemblyContext)
        ensures
            r@ == (ContextView {
                fragment_id,
                total: total_fragments,
                received: Map::empty(),
                started_at: now,
            }),
            context_wf(r@),
    {
        ReassemblyContext::new(fragment_id, total_fragments, now)
    }
}

/// The wire form of the fragment with sequence number `s` of the object `id`
/// whose encoding is `bytes`, at `p` payload octets each.
pub open spec fn wire_of(bytes: Seq<u8>, p: int, id: u16, s: int) -> Seq<u8> {
    fragment_wire(fragment_header(id, s, fragment_count(bytes.len() as int, p)), fragment_payload(bytes, p, s))
}

/// The fragments that arrive, as wire forms, where `order` lists their
/// sequence numbers in the order of arrival.
pub open spec fn wires_of(bytes: Seq<u8>, p: int, id: u16, order: Seq<int>) -> Seq<Seq<u8>> {
    Seq::new(order.len(), |j: int| wire_of(bytes, p, id, order[j]))
}

/// The same arrivals as pairs of sequence number and payload.
pub open spec fn arrivals_of(bytes: Seq<u8>, p: int, order: Seq<int>) -> Seq<(u16, Seq<u8>)> {
    Seq::new(order.len(), |j: int| (order[j] as u16, fragment_payload(bytes, p, order[j])))
}

/// Whether every sequence number below `total` is among the arrivals.
pub open spec fn covers(order: Seq<int>, total: int) -> bool {
    forall|i: int| 0 <= i < total ==> #[trigger] order.contains(i)
}

/// Whether the sequence numbers are those of fragments of an object of
/// `total` fragments.
pub open spec fn in_range(order: Seq<int>, total: int) -> bool {
    forall|j: int| 0 <= j < order.len() ==> 0 <= #[trigger] order[j] < total
}

/// Whether every call of a run comes in time: none later than `threshold`
/// seconds after the first.
pub open spec fn on_time(threshold: u64, nows: Seq<u64>) -> bool {
    forall|j: int| 0 <= j < nows.len() ==> !(#[trigger] nows[j] >= nows[0] && nows[j] - nows[0] > threshold)
}

/// A run of calls of [`Fragmenter::process_fragment`]: call `j` takes the
/// fragmenter from `states[j]` to `states[j + 1]`, is handed `wires[j]` at
/// the time `nows[j]`, and gives `results[j]`.
pub open spec fn is_run(
    states: Seq<FragmenterView>,
    results: Seq<Result<Option<Data>, Error>>,
    wires: Seq<Seq<u8>>,
    nows: Seq<u64>,
) -> bool {
    &&& states.len() == wires.len() + 1
    &&& results.len() == wires.len()
    &&& nows.len() == wires.len()
    &&& forall|j: int|
        0 <= j < wires.len() ==> processed(states[j], states[j + 1], wires[j], nows[j], #[trigger] results[j])
}

proof fn lemma_collect_keys(arr: Seq<(u16, Seq<u8>)>)
    ensures
        collect(arr).dom().finite(),
        forall|k: u16|
            collect(arr).contains_key(k) <==> exists|j: int| 0 <= j < arr.len() && (#[trigger] arr[j]).0 == k,
    decreases arr.len(),
{
    if arr.len() > 0 {
        let front = arr.drop_last();
        lemma_collect_keys(front);
        assert forall|k: u16|
            collect(arr).contains_key(k) <==> exists|j: int| 0 <= j < arr.len() && (#[trigger] arr[j]).0
                == k by {
            if collect(arr).contains_key(k) {
                if k == arr.last().0 {
                    assert(arr[arr.len() - 1].0 == k);
                } else {
                    assert(collect(front).contains_key(k));
                    let j = choose|j: int| 0 <= j < front.len() && (#[trigger] front[j]).0 == k;
                    assert(arr[j].0 == k);
                }
            }
            if exists|j: int| 0 <= j < arr.len() && (#[trigger] arr[j]).0 == k {
                let j = choose|j: int| 0 <= j < arr.len() && (#[trigger] arr[j]).0 == k;
                if j < front.len() {
                    assert(front[j].0 == k);
                }
            }
        }
    }
}

proof fn lemma_collect_values(arr: Seq<(u16, Seq<u8>)>, bytes: Seq<u8>, p: int)
    requires
        forall|j: int| 0 <= j < arr.len() ==> (#[trigger] arr[j]).1 == fragment_payload(bytes, p, arr[j].0 as int),
    ensures
        forall|k: u16| #[trigger] collect(arr).contains_key(k) ==> collect(arr)[k] == fragment_payload(bytes, p, k as int),
    decreases arr.len(),
{
    if arr.len() > 0 {
        let front = arr.drop_last();
        assert forall|j: int| 0 <= j < front.len() implies (#[trigger] front[j]).1 == fragment_payload(
            bytes,
            p,
            front[j].0 as int,
        ) by {
            assert(front[j] == arr[j]);
        }
        lemma_collect_values(front, bytes, p);
        let last = arr[arr.len() - 1];
        assert(arr.last() == last);
        assert(last.1 == fragment_payload(bytes, p, last.0 as int));
        assert forall|k: u16| #[trigger] collect(arr).contains_key(k) implies collect(arr)[k] == fragment_payload(
            bytes,
            p,
            k as int,
        ) by {
            if k != last.0 {
                assert(collect(front).contains_key(k));
            }
        }
    }
}

proof fn lemma_run_step(
    bytes: Seq<u8>,
    p: int,
    id: u16,
    s: int,
    prior: Seq<int>,
    before: FragmenterView,
    after: FragmenterView,
    now: u64,
    r: Result<Option<Data>, Error>,
)
    requires
        p > 0,
        1 <= fragment_count(bytes.len() as int, p) <= MAX_FRAGMENTS,
        0 <= s < fragment_count(bytes.len() as int, p),
        in_range(prior, fragment_count(bytes.len() as int, p)),
        processed(before, after, wire_of(bytes, p, id, s), now, r),
        prior.len() == 0 ==> !before.contexts.contains_key(id),
        prior.len() > 0 ==> before.contexts.contains_key(id) && before.contexts[id].total == fragment_count(
            bytes.len() as int,
            p,
        ) && before.contexts[id].received == collect(arrivals_of(bytes, p, prior)) && !stale(
            before.contexts[id],
            before.stale_after,
            now,
        ),
    ensures
        after.stale_after == before.stale_after,
        after.contexts.contains_key(id) ==> after.contexts[id].started_at == if prior.len() == 0 {
            now
        } else {
            before.contexts[id].started_at
        },
        ({
            let total = fragment_count(bytes.len() as int, p);
            let received = collect(arrivals_of(bytes, p, prior.push(s)));
            &&& received.dom().finite()
            &&& forall|k: u16| received.contains_key(k) <==> prior.push(s).contains(k as int)
            &&& forall|k: u16| received.contains_key(k) ==> k < total
            &&& if received.dom().len() == total {
                !after.contexts.contains_key(id) && match decode_data(concat_payloads(received, total)) {
                    Some(x) => r is Ok && r->Ok_0 is Some && r->Ok_0->0@ == x,
                    None => r == Err::<Option<Data>, Error>(Error::Parse),
                }
            } else {
                after.contexts.contains_key(id) && after.contexts[id].total == total && after.contexts[id].received
                    == received && r is Ok && r->Ok_0 is None
            }
        }),
{
    let total = fragment_count(bytes.len() as int, p);
    let h = fragment_header(id, s, total);
    let payload = fragment_payload(bytes, p, s);
    let wire = wire_of(bytes, p, id, s);
    lemma_header_round_trip(h, payload);
    assert(wire.subrange(8, wire.len() as int) == payload);
    let old_arr = arrivals_of(bytes, p, prior);
    let new_arr = arrivals_of(bytes, p, prior.push(s));
    assert(new_arr.drop_last() =~= old_arr);
    assert(new_arr.last() == (s as u16, payload));
    let c = context_for(before, h, now);
    assert(collect(old_arr) =~= c.received) by {
        if prior.len() == 0 {
            assert(old_arr =~= Seq::<(u16, Seq<u8>)>::empty());
        }
    }
    lemma_collect_values(old_arr, bytes, p);
    lemma_collect_keys(new_arr);
    let received = collect(new_arr);
    assert(received == c.received.insert(h.sequence, payload));
    assert forall|k: u16| received.contains_key(k) <==> prior.push(s).contains(k as int) by {
        if received.contains_key(k) {
            let j = choose|j: int| 0 <= j < new_arr.len() && (#[trigger] new_arr[j]).0 == k;
            assert(prior.push(s)[j] == k as int);
        }
        if prior.push(s).contains(k as int) {
            let j = choose|j: int| 0 <= j < prior.push(s).len() && prior.push(s)[j] == k as int;
            assert(new_arr[j].0 == k);
        }
    }
    assert forall|k: u16| received.contains_key(k) implies k < total by {
        let j = choose|j: int| 0 <= j < prior.push(s).len() && prior.push(s)[j] == k as int;
        if j < prior.len() {
            assert(prior[j] == k as int);
        }
    }
    assert(accepts(c, h, payload));
    if received.dom().len() == total {
        assert(!before.contexts.remove(h.fragment_id).contains_key(id));
    }
}

proof fn lemma_prefix_run(
    states: Seq<FragmenterView>,
    results: Seq<Result<Option<Data>, Error>>,
    wires: Seq<Seq<u8>>,
    nows: Seq<u64>,
)
    requires
        is_run(states, results, wires, nows),
        wires.len() > 0,
    ensures
        is_run(states.drop_last(), results.drop_last(), wires.drop_last(), nows.drop_last()),
        processed(
            states[wires.len() - 1],
            states[wires.len() as int],
            wires.last(),
            nows.last(),
            results.last(),
        ),
{
    let n = wires.len() - 1;
    assert forall|j: int| 0 <= j < n implies processed(
        states.drop_last()[j],
        states.drop_last()[j + 1],
        wires.drop_last()[j],
        nows.drop_last()[j],
        #[trigger] results.drop_last()[j],
    ) by {
        assert(processed(states[j], states[j + 1], wires[j], nows[j], results[j]));
    }
    assert(processed(states[n], states[n + 1], wires[n], nows[n], results[n]));
}

/// Fragmentation round trip over a run of calls, while a fragment is
/// missing: on a receiver that held nothing for the object, fragments of the
/// object arriving in any order, any of them any number of times, give
/// `Ok(None)` at every call as long as some sequence number has not arrived;
/// the reassembly then holds exactly the payloads that arrived.
pub proof fn lemma_run_pending(
    bytes: Seq<u8>,
    p: int,
    id: u16,
    order: Seq<int>,
    states: Seq<FragmenterView>,
    results: Seq<Result<Option<Data>, Error>>,
    nows: Seq<u64>,
)
    requires
        p > 0,
        1 <= fragment_count(bytes.len() as int, p) <= MAX_FRAGMENTS,
        in_range(order, fragment_count(bytes.len() as int, p)),
        !covers(order, fragment_count(bytes.len() as int, p)),
        is_run(states, results, wires_of(bytes, p, id, order), nows),
        on_time(states[0].stale_after, nows),
        !states[0].contexts.contains_key(id),
    ensures
        forall|j: int| 0 <= j < order.len() ==> (#[trigger] results[j]) is Ok && results[j]->Ok_0 is None,
        states.last().stale_after == states[0].stale_after,
        order.len() > 0 ==> states.last().contexts.contains_key(id) && states.last().contexts[id].total
            == fragment_count(bytes.len() as int, p) && states.last().contexts[id].received == collect(
            arrivals_of(bytes, p, order),
        ) && states.last().contexts[id].started_at == nows[0],
    decreases order.len(),
{
    let total = fragment_count(bytes.len() as int, p);
    if order.len() > 0 {
        let wires = wires_of(bytes, p, id, order);
        let front = order.drop_last();
        let s = order.last();
        lemma_prefix_run(states, results, wires, nows);
        assert(wires.drop_last() =~= wires_of(bytes, p, id, front));
        assert(order[order.len() - 1] == s);
        let missing = choose|i: int| 0 <= i < total && !order.contains(i);
        assert(!covers(front, total)) by {
            if front.contains(missing) {
                let j = choose|j: int| 0 <= j < front.len() && front[j] == missing;
                assert(order[j] == missing);
            }
        }
        assert(in_range(front, total)) by {
            assert forall|j: int| 0 <= j < front.len() implies 0 <= #[trigger] front[j] < total by {
                assert(front[j] == order[j]);
            }
        }
        assert(on_time(states[0].stale_after, nows.drop_last())) by {
            assert forall|j: int| 0 <= j < nows.drop_last().len() implies !(#[trigger] nows.drop_last()[j]
                >= nows.drop_last()[0] && nows.drop_last()[j] - nows.drop_last()[0] > states[0].stale_after) by {
                assert(nows.drop_last()[j] == nows[j]);
                assert(nows.drop_last()[0] == nows[0]);
            }
        }
        assert(states.drop_last()[0] == states[0]);
        lemma_run_pending(bytes, p, id, front, states.drop_last(), results.drop_last(), nows.drop_last());
        let n = order.len() - 1;
        assert(states.drop_last().last() == states[n]);
        assert(nows.last() == nows[n]);
        if n > 0 {
            assert(nows.drop_last()[0] == nows[0]);
        }
        assert(wires.last() == wire_of(bytes, p, id, s));
        lemma_run_step(bytes, p, id, s, front, states[n], states[n + 1], nows.last(), results.last());
        assert(front.push(s) =~= order);
        let received = collect(arrivals_of(bytes, p, order));
        assert(!received.contains_key(missing as u16));
        lemma_missing_fragment_incomplete(received, total as u16, missing as u16);
        assert forall|j: int| 0 <= j < order.len() implies (#[trigger] results[j]) is Ok && results[j]->Ok_0 is None by {
            if j < n {
                assert(results.drop_last()[j] == results[j]);
            }
        }
    }
}

/// Fragmentation round trip over a run of calls: on a receiver that held
/// nothing for the object, the fragments of an encoded Data packet arriving
/// in any order, any of them any number of times, give `Ok(None)` at every
/// call until the last missing sequence number arrives, as long as the
/// calls come in time; that call gives the packet, and the reassembly is
/// dropped.
pub proof fn lemma_run_completes(
    d: DataView,
    p: int,
    id: u16,
    order: Seq<int>,
    states: Seq<FragmenterView>,
    results: Seq<Result<Option<Data>, Error>>,
    nows: Seq<u64>,
)
    requires
        data_encodable(d),
        d.content_type.canonical(),
        p > 0,
        1 <= fragment_count(encode_data(d).len() as int, p) <= MAX_FRAGMENTS,
        order.len() > 0,
        in_range(order, fragment_count(encode_data(d).len() as int, p)),
        covers(order, fragment_count(encode_data(d).len() as int, p)),
        !covers(order.drop_last(), fragment_count(encode_data(d).len() as int, p)),
        is_run(states, results, wires_of(encode_data(d), p, id, order), nows),
        on_time(states[0].stale_after, nows),
        !states[0].contexts.contains_key(id),
    ensures
        forall|j: int| 0 <= j < order.len() - 1 ==> (#[trigger] results[j]) is Ok && results[j]->Ok_0 is None,
        results.last() is Ok,
        results.last()->Ok_0 is Some,
        results.last()->Ok_0->0@ == d,
        !states.last().contexts.contains_key(id),
{
    let bytes = encode_data(d);
    let total = fragment_count(bytes.len() as int, p);
    let wires = wires_of(bytes, p, id, order);
    let front = order.drop_last();
    let s = order.last();
    let n = order.len() - 1;
    lemma_prefix_run(states, results, wires, nows);
    assert(wires.drop_last() =~= wires_of(bytes, p, id, front));
    assert(order[n] == s);
    assert(in_range(front, total)) by {
        assert forall|j: int| 0 <= j < front.len() implies 0 <= #[trigger] front[j] < total by {
            assert(front[j] == order[j]);
        }
    }
    assert(on_time(states[0].stale_after, nows.drop_last())) by {
        assert forall|j: int| 0 <= j < nows.drop_last().len() implies !(#[trigger] nows.drop_last()[j]
            >= nows.drop_last()[0] && nows.drop_last()[j] - nows.drop_last()[0] > states[0].stale_after) by {
            assert(nows.drop_last()[j] == nows[j]);
            assert(nows.drop_last()[0] == nows[0]);
        }
    }
    assert(states.drop_last()[0] == states[0]);
    lemma_run_pending(bytes, p, id, front, states.drop_last(), results.drop_last(), nows.drop_last());
    assert(states.drop_last().last() == states[n]);
    assert(nows.last() == nows[n]);
    if n > 0 {
        assert(nows.drop_last()[0] == nows[0]);
    }
    assert(wires.last() == wire_of(bytes, p, id, s));
    lemma_run_step(bytes, p, id, s, front, states[n], states[n + 1], nows.last(), results.last());
    assert(front.push(s) =~= order);
    let arrivals = arrivals_of(bytes, p, order);
    let received = collect(arrivals);
    lemma_range_len(total as u16);
    assert(received.dom() =~= Set::new(|k: u16| k < total as u16)) by {
        assert forall|k: u16| k < total as u16 implies received.contains_key(k) by {
            assert(order.contains(k as int));
        }
    }
    assert forall|i: int| 0 <= i < total implies #[trigger] arrived(arrivals, i) by {
        assert(order.contains(i));
        let j = choose|j: int| 0 <= j < order.len() && order[j] == i;
        assert(arrivals[j].0 == i);
    }
    lemma_fragmentation_round_trip(d, p, arrivals);
    assert forall|j: int| 0 <= j < order.len() - 1 implies (#[trigger] results[j]) is Ok && results[j]->Ok_0 is None by {
        assert(results.drop_last()[j] == results[j]);
    }
}

/// Octets that a fragment other than the last takes on a stream at the given
/// MTU: the header and a full payload, which together fill the MTU.
pub open spec fn wire_fragment_len(mtu: usize) -> int {
    let m = if mtu >= MIN_FRAGMENT_MTU {
        mtu as int
    } else {
        MIN_FRAGMENT_MTU as int
    };
    m
}

/// Cuts the octets read from a stream into the fragments that a sender at
/// the same MTU wrote one after the other: each as long as a full fragment,
/// but for the last, which takes what is left.
pub fn split_stream(stream: &[u8], mtu: usize) -> (r: Vec<Vec<u8>>)
    ensures
        r@.len() == fragment_count(stream@.len() as int, wire_fragment_len(mtu)),
        forall|i: int|
            0 <= i < r@.len() ==> (#[trigger] r@[i])@ == fragment_payload(stream@, wire_fragment_len(mtu), i),
{
    let m: usize = if mtu >= MIN_FRAGMENT_MTU {
        mtu
    } else {
        MIN_FRAGMENT_MTU
    };
    let size: usize = m;
    let len: usize = stream.len();
    proof {
        lemma_fragment_count(len as int, size as int);
    }
    let total: usize = if len % size == 0 {
        len / size
    } else {
        len / size + 1
    };
    let mut out: Vec<Vec<u8>> = Vec::new();
    let mut i: usize = 0;
    while i < total
        invariant
            size > 0,
            len == stream@.len(),
            total == fragment_count(len as int, size as int),
            0 <= i <= total,
            out@.len() == i,
            forall|k: int| 0 <= k < i ==> (#[trigger] out@[k])@ == fragment_payload(stream@, size as int, k),
        decreases total - i,
    {
        proof {
            lemma_fragment_start(i as int, total as int, len as int, size as int);
        }
        let start: usize = i * size;
        let end: usize = if len - start >= size {
            start + size
        } else {
            len
        };
        out.push(copy_range(stream, start, end));
        i += 1;
    }
    out
}

/// A histogram that is not exported.
#[derive(Debug, Clone, Copy, PartialEq, Eq, Structural)]
pub struct DummyHistogram;

impl DummyHistogram {
    /// Takes an observation, in thousandths; nothing is kept.
    pub fn observe_milli(&self, _value: u64) -> (r: ())
        ensures
            r == (),
    {
    }
}

} // verus!
