//! Type-Length-Value framing.
//!
//! An element is one type octet, a length field and the value. The length
//! field is a single octet for values shorter than 253 octets, and the marker
//! 253 followed by a big-endian `u16` otherwise. A reader accepts the long
//! form for any length.

use vstd::prelude::*;

verus! {

/// Longest value an element can carry.
pub const MAX_VALUE_LEN: usize = 65535;

/// The marker octet that announces a two-octet length.
pub const LONG_LEN_MARKER: u8 = 253;

/// The length field for a value of `n` octets, in its shortest form.
pub open spec fn len_field(n: nat) -> Seq<u8> {
    if n < 253 {
        seq![n as u8]
    } else {
        seq![253u8, (n / 256) as u8, (n % 256) as u8]
    }
}

/// The element of type `t` with value `v`.
pub open spec fn tlv(t: u8, v: Seq<u8>) -> Seq<u8> {
    seq![t] + len_field(v.len()) + v
}

/// One element read from the front of a buffer.
pub struct Element {
    pub typ: u8,
    pub value: Seq<u8>,
    pub rest: Seq<u8>,
}

/// Reads the first element of `s`, or `None` where `s` is truncated or its
/// length field is malformed.
pub open spec fn parse_tlv(s: Seq<u8>) -> Option<Element> {
    if s.len() < 2 {
        None
    } else if s[1] < 253 {
        let n = s[1] as int;
        if s.len() < 2 + n {
            None
        } else {
            Some(Element { typ: s[0], value: s.subrange(2, 2 + n), rest: s.subrange(2 + n, s.len() as int) })
        }
    } else if s[1] == 253 {
        if s.len() < 4 {
            None
        } else {
            let n = s[2] as int * 256 + s[3] as int;
            if s.len() < 4 + n {
                None
            } else {
                Some(Element { typ: s[0], value: s.subrange(4, 4 + n), rest: s.subrange(4 + n, s.len() as int) })
            }
        }
    } else {
        None
    }
}

/// Reading what [`tlv`] wrote gives back the type, the value and whatever
/// followed.
pub proof fn lemma_parse_tlv(t: u8, v: Seq<u8>, rest: Seq<u8>)
    requires
        v.len() <= 65535,
    ensures
        parse_tlv(tlv(t, v) + rest) == Some(Element { typ: t, value: v, rest: rest }),
{
    let s = tlv(t, v) + rest;
    let n = v.len() as int;
    if n < 253 {
        assert(s[1] == n as u8);
        assert(s.subrange(2, 2 + n) =~= v);
        assert(s.subrange(2 + n, s.len() as int) =~= rest);
    } else {
        assert(s[1] == 253u8);
        assert(s[2] == (n / 256) as u8);
        assert(s[3] == (n % 256) as u8);
        assert(s.subrange(4, 4 + n) =~= v);
        assert(s.subrange(4 + n, s.len() as int) =~= rest);
    }
}

/// An element is never shorter than two octets, so what follows it is
/// shorter than the buffer it was read from.
pub proof fn lemma_parse_tlv_shrinks(s: Seq<u8>)
    ensures
        parse_tlv(s) is Some ==> parse_tlv(s)->0.rest.len() + 2 <= s.len()
            && parse_tlv(s)->0.value.len() <= 65535
            && parse_tlv(s)->0.value.len() + parse_tlv(s)->0.rest.len() + 2 <= s.len(),
{
}

/// The length of an element on the wire.
pub proof fn lemma_tlv_len(t: u8, v: Seq<u8>)
    ensures
        tlv(t, v).len() == v.len() + (if v.len() < 253 { 2int } else { 4int }),
{
}

/// Appends the element of type `t` with value `value` to `out`.
pub fn put_tlv(out: &mut Vec<u8>, t: u8, value: &[u8])
    requires
        value@.len() <= MAX_VALUE_LEN,
    ensures
        final(out)@ == old(out)@ + tlv(t, value@),
{
    let n: usize = value.len();
    out.push(t);
    if n < 253 {
        out.push(n as u8);
    } else {
        out.push(LONG_LEN_MARKER);
        out.push((n / 256) as u8);
        out.push((n % 256) as u8);
    }
    out.extend_from_slice(value);
    assert(out@ =~= old(out)@ + tlv(t, value@));
}

/// Where an element starts and ends inside a buffer.
pub struct Span {
    pub typ: u8,
    pub start: usize,
    pub end: usize,
}

/// Reads the element that starts at `pos` in `buf[..end]`.
pub fn read_tlv(buf: &[u8], pos: usize, end: usize) -> (r: Option<Span>)
    requires
        pos <= end <= buf@.len(),
    ensures
        match parse_tlv(buf@.subrange(pos as int, end as int)) {
            None => r is None,
            Some(e) => r is Some && r->0.typ == e.typ && pos < r->0.start <= r->0.end <= end
                && e.value == buf@.subrange(r->0.start as int, r->0.end as int)
                && e.rest == buf@.subrange(r->0.end as int, end as int),
        },
{
    let ghost s = buf@.subrange(pos as int, end as int);
    if end - pos < 2 {
        return None;
    }
    let t: u8 = buf[pos];
    let l: u8 = buf[pos + 1];
    assert(s[0] == t && s[1] == l);
    if l < 253 {
        let n: usize = l as usize;
        if end - pos - 2 < n {
            return None;
        }
        let start: usize = pos + 2;
        assert(s.subrange(2, 2 + n) =~= buf@.subrange(start as int, start + n));
        assert(s.subrange(2 + n, s.len() as int) =~= buf@.subrange(start + n, end as int));
        Some(Span { typ: t, start, end: start + n })
    } else if l == 253 {
        if end - pos < 4 {
            return None;
        }
        let hi: u8 = buf[pos + 2];
        let lo: u8 = buf[pos + 3];
        assert(s[2] == hi && s[3] == lo);
        let n: usize = (hi as usize) * 256 + (lo as usize);
        if end - pos - 4 < n {
            return None;
        }
        let start: usize = pos + 4;
        assert(s.subrange(4, 4 + n) =~= buf@.subrange(start as int, start + n));
        assert(s.subrange(4 + n, s.len() as int) =~= buf@.subrange(start + n, end as int));
        Some(Span { typ: t, start, end: start + n })
    } else {
        None
    }
}

} // verus!
