//! Interest, Data and Nack packets and their TLV wire format.

use vstd::prelude::*;
use vstd::slice::slice_to_vec;
use vstd::string::StringSliceAdditionalSpecFns;
use crate::error::Error;
pub use crate::error::NackReason;
use crate::name::{
    Name, TLV_NAME, name_value, parse_components, lemma_components_round_trip, lemma_name_value_bounds,
    copy_range, string_from_utf8_lossy, utf8_lossy,
};
use crate::tlv::{
    tlv, parse_tlv, put_tlv, read_tlv, lemma_parse_tlv, lemma_parse_tlv_shrinks, lemma_tlv_len, Element,
    MAX_VALUE_LEN,
};

verus! {

pub const TLV_INTEREST: u8 = 0x05;

pub const TLV_DATA: u8 = 0x06;

pub const TLV_NACK: u8 = 0x03;

pub const TLV_NONCE: u8 = 0x0A;

pub const TLV_INTEREST_LIFETIME: u8 = 0x0C;

pub const TLV_MUST_BE_FRESH: u8 = 0x12;

pub const TLV_CAN_BE_PREFIX: u8 = 0x21;

pub const TLV_APPLICATION_PARAMETERS: u8 = 0x24;

pub const TLV_META_INFO: u8 = 0x14;

pub const TLV_CONTENT: u8 = 0x15;

pub const TLV_SIGNATURE_INFO: u8 = 0x16;

pub const TLV_SIGNATURE_VALUE: u8 = 0x17;

pub const TLV_NACK_REASON: u8 = 0x0F;

pub const TLV_NACK_TEXT: u8 = 0x10;

/// Lifetime of an Interest that states none, in milliseconds.
pub const DEFAULT_LIFETIME_MS: u16 = 4000;

/// Freshness of a Data that states none, in milliseconds.
pub const DEFAULT_FRESHNESS_MS: u32 = 3600000;

/// A `u16` in network order.
pub open spec fn u16_be(v: u16) -> Seq<u8> {
    seq![(v / 256) as u8, (v % 256) as u8]
}

/// A `u32` in network order.
pub open spec fn u32_be(v: u32) -> Seq<u8> {
    seq![(v / 16777216) as u8, ((v / 65536) % 256) as u8, ((v / 256) % 256) as u8, (v % 256) as u8]
}

/// The `u16` that two octets in network order stand for.
pub open spec fn be_u16(s: Seq<u8>) -> u16 {
    (s[0] as int * 256 + s[1] as int) as u16
}

/// The `u32` that four octets in network order stand for.
pub open spec fn be_u32(s: Seq<u8>) -> u32 {
    (s[0] as int * 16777216 + s[1] as int * 65536 + s[2] as int * 256 + s[3] as int) as u32
}

/// The octet that carries a flag.
pub open spec fn flag_byte(b: bool) -> u8 {
    if b {
        1
    } else {
        0
    }
}

fn put_u16(out: &mut Vec<u8>, t: u8, v: u16)
    ensures
        final(out)@ == old(out)@ + tlv(t, u16_be(v)),
{
    let mut val: Vec<u8> = Vec::new();
    val.push((v / 256) as u8);
    val.push((v % 256) as u8);
    assert(val@ =~= u16_be(v));
    put_tlv(out, t, val.as_slice());
}

fn put_u32(out: &mut Vec<u8>, t: u8, v: u32)
    ensures
        final(out)@ == old(out)@ + tlv(t, u32_be(v)),
{
    let mut val: Vec<u8> = Vec::new();
    val.push((v / 16777216) as u8);
    val.push(((v / 65536) % 256) as u8);
    val.push(((v / 256) % 256) as u8);
    val.push((v % 256) as u8);
    assert(val@ =~= u32_be(v));
    put_tlv(out, t, val.as_slice());
}

fn put_flag(out: &mut Vec<u8>, t: u8, b: bool)
    ensures
        final(out)@ == old(out)@ + tlv(t, seq![flag_byte(b)]),
{
    let mut val: Vec<u8> = Vec::new();
    val.push(if b { 1u8 } else { 0u8 });
    assert(val@ =~= seq![flag_byte(b)]);
    put_tlv(out, t, val.as_slice());
}

fn get_u16(buf: &[u8], start: usize) -> (r: u16)
    requires
        start + 2 <= buf@.len(),
    ensures
        r == be_u16(buf@.subrange(start as int, start + 2)),
{
    (buf[start] as u16) * 256 + (buf[start + 1] as u16)
}

fn get_u32(buf: &[u8], start: usize) -> (r: u32)
    requires
        start + 4 <= buf@.len(),
    ensures
        r == be_u32(buf@.subrange(start as int, start + 4)),
{
    (buf[start] as u32) * 16777216 + (buf[start + 1] as u32) * 65536 + (buf[start + 2] as u32) * 256 + (buf[start
        + 3] as u32)
}

/// What an Interest holds.
pub struct InterestView {
    pub name: Seq<Seq<u8>>,
    pub lifetime_ms: u16,
    pub nonce: u32,
    pub can_be_prefix: bool,
    pub must_be_fresh: bool,
    pub application_parameters: Option<Seq<u8>>,
}

/// A request for the Data of a name.
#[derive(Debug, Clone, PartialEq, Eq)]
pub struct Interest {
    name: Name,
    lifetime_ms: u16,
    nonce: u32,
    can_be_prefix: bool,
    must_be_fresh: bool,
    application_parameters: Option<Vec<u8>>,
}

impl View for Interest {
    type V = InterestView;

    closed spec fn view(&self) -> InterestView {
        InterestView {
            name: self.name@,
            lifetime_ms: self.lifetime_ms,
            nonce: self.nonce,
            can_be_prefix: self.can_be_prefix,
            must_be_fresh: self.must_be_fresh,
            application_parameters: match self.application_parameters {
                Some(p) => Some(p@),
                None => None,
            },
        }
    }
}

/// The application parameters element of an Interest: absent where the
/// Interest has none.
pub open spec fn parameters_element(p: Option<Seq<u8>>) -> Seq<u8> {
    match p {
        Some(v) => tlv(TLV_APPLICATION_PARAMETERS, v),
        None => Seq::empty(),
    }
}

/// The value of an Interest element: name, nonce, lifetime, the two flags and
/// the application parameters, if any.
pub open spec fn interest_value(i: InterestView) -> Seq<u8> {
    tlv(TLV_NAME, name_value(i.name)) + tlv(TLV_NONCE, u32_be(i.nonce)) + tlv(
        TLV_INTEREST_LIFETIME,
        u16_be(i.lifetime_ms),
    ) + tlv(TLV_CAN_BE_PREFIX, seq![flag_byte(i.can_be_prefix)]) + tlv(
        TLV_MUST_BE_FRESH,
        seq![flag_byte(i.must_be_fresh)],
    ) + parameters_element(i.application_parameters)
}

/// The wire form of an Interest.
pub open spec fn encode_interest(i: InterestView) -> Seq<u8> {
    tlv(TLV_INTEREST, interest_value(i))
}

/// Whether an Interest fits the wire format's length fields.
pub open spec fn interest_encodable(i: InterestView) -> bool {
    interest_value(i).len() <= MAX_VALUE_LEN
}

/// The Interest that a name alone stands for.
pub open spec fn default_interest(name: Seq<Seq<u8>>) -> InterestView {
    InterestView {
        name: name,
        lifetime_ms: DEFAULT_LIFETIME_MS,
        nonce: 0,
        can_be_prefix: false,
        must_be_fresh: true,
        application_parameters: None,
    }
}

/// The effect of one element on the Interest being decoded: a field of the
/// right length is taken, anything else is skipped.
pub open spec fn apply_interest_field(acc: InterestView, t: u8, v: Seq<u8>) -> InterestView {
    if t == TLV_NONCE && v.len() == 4 {
        InterestView { nonce: be_u32(v), ..acc }
    } else if t == TLV_INTEREST_LIFETIME && v.len() == 2 {
        InterestView { lifetime_ms: be_u16(v), ..acc }
    } else if t == TLV_CAN_BE_PREFIX && v.len() == 1 {
        InterestView { can_be_prefix: v[0] != 0, ..acc }
    } else if t == TLV_MUST_BE_FRESH && v.len() == 1 {
        InterestView { must_be_fresh: v[0] != 0, ..acc }
    } else if t == TLV_APPLICATION_PARAMETERS {
        InterestView { application_parameters: Some(v), ..acc }
    } else {
        acc
    }
}

/// Decodes the elements that follow the name of an Interest; `None` where
/// one is truncated.
pub open spec fn parse_interest_fields(s: Seq<u8>, acc: InterestView) -> Option<InterestView>
    decreases s.len(),
{
    if s.len() == 0 {
        Some(acc)
    } else {
        match parse_tlv(s) {
            Some(e) => if e.rest.len() < s.len() {
                parse_interest_fields(e.rest, apply_interest_field(acc, e.typ, e.value))
            } else {
                None
            },
            None => None,
        }
    }
}

/// The Interest held in the value of an Interest element.
pub open spec fn decode_interest_value(s: Seq<u8>) -> Option<InterestView> {
    match parse_tlv(s) {
        Some(n) => if n.typ == TLV_NAME {
            match parse_components(n.value) {
                Some(c) => parse_interest_fields(n.rest, default_interest(c)),
                None => None,
            }
        } else {
            None
        },
        None => None,
    }
}

/// The Interest at the front of `s`, or `None` where `s` is truncated, is of
/// another type or holds a malformed element.
pub open spec fn decode_interest(s: Seq<u8>) -> Option<InterestView> {
    match parse_tlv(s) {
        Some(e) => if e.typ == TLV_INTEREST {
            decode_interest_value(e.value)
        } else {
            None
        },
        None => None,
    }
}

proof fn lemma_be_round_trip(a: u16, b: u32)
    ensures
        be_u16(u16_be(a)) == a,
        be_u32(u32_be(b)) == b,
        u16_be(a).len() == 2,
        u32_be(b).len() == 4,
{
}

/// Decoding the value of an encoded Interest gives the Interest back.
pub proof fn lemma_interest_value_round_trip(i: InterestView)
    requires
        interest_encodable(i),
    ensures
        decode_interest_value(interest_value(i)) == Some(i),
{
    let e0 = parameters_element(i.application_parameters);
    let e1 = tlv(TLV_MUST_BE_FRESH, seq![flag_byte(i.must_be_fresh)]);
    let e2 = tlv(TLV_CAN_BE_PREFIX, seq![flag_byte(i.can_be_prefix)]);
    let e3 = tlv(TLV_INTEREST_LIFETIME, u16_be(i.lifetime_ms));
    let e4 = tlv(TLV_NONCE, u32_be(i.nonce));
    let e5 = tlv(TLV_NAME, name_value(i.name));
    let r1 = e1 + e0;
    let r2 = e2 + r1;
    let r3 = e3 + r2;
    let r4 = e4 + r3;
    assert(interest_value(i) =~= e5 + r4);
    lemma_be_round_trip(i.lifetime_ms, i.nonce);
    lemma_tlv_len(TLV_NAME, name_value(i.name));
    lemma_name_value_bounds(i.name);
    lemma_components_round_trip(i.name);
    lemma_parse_tlv(TLV_NAME, name_value(i.name), r4);
    lemma_parse_tlv(TLV_NONCE, u32_be(i.nonce), r3);
    lemma_parse_tlv(TLV_INTEREST_LIFETIME, u16_be(i.lifetime_ms), r2);
    lemma_parse_tlv(TLV_CAN_BE_PREFIX, seq![flag_byte(i.can_be_prefix)], r1);
    lemma_parse_tlv(TLV_MUST_BE_FRESH, seq![flag_byte(i.must_be_fresh)], e0);
    let a0 = default_interest(i.name);
    let a1 = apply_interest_field(a0, TLV_NONCE, u32_be(i.nonce));
    let a2 = apply_interest_field(a1, TLV_INTEREST_LIFETIME, u16_be(i.lifetime_ms));
    let a3 = apply_interest_field(a2, TLV_CAN_BE_PREFIX, seq![flag_byte(i.can_be_prefix)]);
    let a4 = apply_interest_field(a3, TLV_MUST_BE_FRESH, seq![flag_byte(i.must_be_fresh)]);
    assert(parse_interest_fields(Seq::<u8>::empty(), i) == Some(i));
    match i.application_parameters {
        Some(p) => {
            lemma_tlv_len(TLV_APPLICATION_PARAMETERS, p);
            lemma_parse_tlv(TLV_APPLICATION_PARAMETERS, p, Seq::<u8>::empty());
            assert(e0 + Seq::<u8>::empty() =~= e0);
            assert(apply_interest_field(a4, TLV_APPLICATION_PARAMETERS, p) == i);
            assert(parse_interest_fields(e0, a4) == Some(i));
        },
        None => {
            assert(a4 == i);
            assert(parse_interest_fields(e0, a4) == Some(i));
        },
    }
    assert(parse_interest_fields(r1, a3) == Some(i));
    assert(parse_interest_fields(r2, a2) == Some(i));
    assert(parse_interest_fields(r3, a1) == Some(i));
    assert(parse_interest_fields(r4, a0) == Some(i));
}

/// Decoding an encoded Interest gives the Interest back, whatever follows
/// it in the buffer.
pub proof fn lemma_interest_round_trip(i: InterestView, rest: Seq<u8>)
    requires
        interest_encodable(i),
    ensures
        decode_interest(encode_interest(i) + rest) == Some(i),
        parse_tlv(encode_interest(i) + rest) == Some(
            Element { typ: TLV_INTEREST, value: interest_value(i), rest: rest },
        ),
{
    lemma_interest_value_round_trip(i);
    lemma_parse_tlv(TLV_INTEREST, interest_value(i), rest);
}

/// Draws a nonce with `rand::random`: any `u32` may come back.
#[verifier::external_body]
fn random_nonce() -> (r: u32) {
    rand::random::<u32>()
}

impl Interest {
    /// A fresh Interest for `name`: a random nonce, the default lifetime of
    /// four seconds, no prefix match, fresh Data only.
    pub fn new(name: Name) -> (r: Self)
        ensures
            r@.name == name@,
            r@.lifetime_ms == DEFAULT_LIFETIME_MS,
            !r@.can_be_prefix,
            r@.must_be_fresh,
            r@.application_parameters is None,
    {
        Interest {
            name,
            lifetime_ms: DEFAULT_LIFETIME_MS,
            nonce: random_nonce(),
            can_be_prefix: false,
            must_be_fresh: true,
            application_parameters: None,
        }
    }

    /// The same Interest with the given lifetime in milliseconds.
    pub fn lifetime(self, lifetime_ms: u16) -> (r: Self)
        ensures
            r@ == (InterestView { lifetime_ms: lifetime_ms, ..self@ }),
    {
        Interest {
            name: self.name,
            lifetime_ms,
            nonce: self.nonce,
            can_be_prefix: self.can_be_prefix,
            must_be_fresh: self.must_be_fresh,
            application_parameters: self.application_parameters,
        }
    }

    /// The same Interest with the given nonce.
    pub fn with_nonce(self, nonce: u32) -> (r: Self)
        ensures
            r@ == (InterestView { nonce: nonce, ..self@ }),
    {
        Interest {
            name: self.name,
            lifetime_ms: self.lifetime_ms,
            nonce,
            can_be_prefix: self.can_be_prefix,
            must_be_fresh: self.must_be_fresh,
            application_parameters: self.application_parameters,
        }
    }

    /// The same Interest, matching longer names or not.
    pub fn can_be_prefix(self, can_be_prefix: bool) -> (r: Self)
        ensures
            r@ == (InterestView { can_be_prefix: can_be_prefix, ..self@ }),
    {
        Interest {
            name: self.name,
            lifetime_ms: self.lifetime_ms,
            nonce: self.nonce,
            can_be_prefix,
            must_be_fresh: self.must_be_fresh,
            application_parameters: self.application_parameters,
        }
    }

    /// The same Interest, asking for fresh Data or not.
    pub fn must_be_fresh(self, must_be_fresh: bool) -> (r: Self)
        ensures
            r@ == (InterestView { must_be_fresh: must_be_fresh, ..self@ }),
    {
        Interest {
            name: self.name,
            lifetime_ms: self.lifetime_ms,
            nonce: self.nonce,
            can_be_prefix: self.can_be_prefix,
            must_be_fresh,
            application_parameters: self.application_parameters,
        }
    }

    /// The requested name.
    pub fn name(&self) -> (r: &Name)
        ensures
            r@ == self@.name,
    {
        &self.name
    }

    /// The lifetime in milliseconds.
    pub fn get_lifetime(&self) -> (r: u16)
        ensures
            r == self@.lifetime_ms,
    {
        self.lifetime_ms
    }

    /// The nonce.
    pub fn nonce(&self) -> (r: u32)
        ensures
            r == self@.nonce,
    {
        self.nonce
    }

    /// Whether Data under a longer name may answer.
    pub fn allows_prefix(&self) -> (r: bool)
        ensures
            r == self@.can_be_prefix,
    {
        self.can_be_prefix
    }

    /// Whether only fresh Data may answer.
    pub fn wants_fresh(&self) -> (r: bool)
        ensures
            r == self@.must_be_fresh,
    {
        self.must_be_fresh
    }

    /// A copy of the Interest.
    pub fn duplicate(&self) -> (r: Self)
        ensures
            r@ == self@,
    {
        Interest {
            name: self.name.duplicate(),
            lifetime_ms: self.lifetime_ms,
            nonce: self.nonce,
            can_be_prefix: self.can_be_prefix,
            must_be_fresh: self.must_be_fresh,
            application_parameters: match &self.application_parameters {
                Some(p) => Some(slice_to_vec(p.as_slice())),
                None => None,
            },
        }
    }

    /// The same Interest with the given application parameters.
    pub fn with_application_parameters(self, parameters: Vec<u8>) -> (r: Self)
        ensures
            r@ == (InterestView { application_parameters: Some(parameters@), ..self@ }),
    {
        Interest {
            name: self.name,
            lifetime_ms: self.lifetime_ms,
            nonce: self.nonce,
            can_be_prefix: self.can_be_prefix,
            must_be_fresh: self.must_be_fresh,
            application_parameters: Some(parameters),
        }
    }

    /// The application parameters, if any.
    pub fn application_parameters(&self) -> (r: Option<&[u8]>)
        ensures
            r is Some == self@.application_parameters is Some,
            r is Some ==> r->0@ == self@.application_parameters->0,
    {
        match &self.application_parameters {
            Some(p) => Some(p.as_slice()),
            None => None,
        }
    }

    /// Whether Data named `name` answers this Interest: the names are equal,
    /// or the Interest allows a prefix match and its name is a prefix.
    pub fn matches(&self, name: &Name) -> (r: bool)
        ensures
            r == (if self@.can_be_prefix {
                crate::name::is_prefix(self@.name, name@)
            } else {
                self@.name == name@
            }),
    {
        if self.can_be_prefix {
            name.starts_with(&self.name)
        } else {
            self.name.same(name)
        }
    }

    /// The wire form, or `InvalidArgument` where the Interest does not fit
    /// the length fields.
    pub fn to_bytes(&self) -> (r: Result<Vec<u8>, Error>)
        ensures
            interest_encodable(self@) ==> r is Ok && r->Ok_0@ == encode_interest(self@),
            !interest_encodable(self@) ==> r == Err::<Vec<u8>, Error>(Error::InvalidArgument),
            r is Ok ==> decode_interest(r->Ok_0@) == Some(self@),
    {
        proof {
            lemma_tlv_len(TLV_NAME, name_value(self@.name));
        }
        let name_tlv = match self.name.to_tlv() {
            Ok(v) => v,
            Err(_) => {
                return Err(Error::InvalidArgument);
            },
        };
        let mut value: Vec<u8> = name_tlv;
        put_u32(&mut value, TLV_NONCE, self.nonce);
        put_u16(&mut value, TLV_INTEREST_LIFETIME, self.lifetime_ms);
        put_flag(&mut value, TLV_CAN_BE_PREFIX, self.can_be_prefix);
        put_flag(&mut value, TLV_MUST_BE_FRESH, self.must_be_fresh);
        match &self.application_parameters {
            Some(p) => {
                proof {
                    lemma_tlv_len(TLV_APPLICATION_PARAMETERS, p@);
                }
                if p.len() > MAX_VALUE_LEN {
                    return Err(Error::InvalidArgument);
                }
                put_tlv(&mut value, TLV_APPLICATION_PARAMETERS, p.as_slice());
            },
            None => {},
        }
        assert(value@ =~= interest_value(self@));
        if value.len() > MAX_VALUE_LEN {
            return Err(Error::InvalidArgument);
        }
        let mut out: Vec<u8> = Vec::new();
        put_tlv(&mut out, TLV_INTEREST, value.as_slice());
        assert(out@ =~= encode_interest(self@));
        proof {
            lemma_interest_round_trip(self@, Seq::empty());
            assert(encode_interest(self@) + Seq::<u8>::empty() =~= encode_interest(self@));
        }
        Ok(out)
    }

    /// Decodes the Interest element at the front of `buf[start..end]`.
    pub fn from_range(buf: &[u8], start: usize, end: usize) -> (r: Result<Interest, Error>)
        requires
            start <= end <= buf@.len(),
        ensures
            match decode_interest(buf@.subrange(start as int, end as int)) {
                Some(v) => r is Ok && r->Ok_0@ == v,
                None => r == Err::<Interest, Error>(Error::Parse),
            },
    {
        let outer = match read_tlv(buf, start, end) {
            Some(s) => s,
            None => {
                return Err(Error::Parse);
            },
        };
        if outer.typ != TLV_INTEREST {
            return Err(Error::Parse);
        }
        let inner = match read_tlv(buf, outer.start, outer.end) {
            Some(s) => s,
            None => {
                return Err(Error::Parse);
            },
        };
        if inner.typ != TLV_NAME {
            return Err(Error::Parse);
        }
        let name = match Name::from_value(buf, inner.start, inner.end) {
            Ok(n) => n,
            Err(_) => {
                return Err(Error::Parse);
            },
        };
        let mut lifetime_ms: u16 = DEFAULT_LIFETIME_MS;
        let mut nonce: u32 = 0;
        let mut can_be_prefix: bool = false;
        let mut must_be_fresh: bool = true;
        let mut parameters: Option<Vec<u8>> = None;
        let mut pos: usize = inner.end;
        let end2: usize = outer.end;
        let ghost fields = buf@.subrange(inner.end as int, end2 as int);
        let ghost init = default_interest(name@);
        while pos < end2
            invariant
                inner.end <= pos <= end2 <= buf@.len(),
                start <= end <= buf@.len(),
                decode_interest(buf@.subrange(start as int, end as int)) == parse_interest_fields(fields, init),
                parse_interest_fields(fields, init) == parse_interest_fields(
                    buf@.subrange(pos as int, end2 as int),
                    InterestView {
                        name: name@,
                        lifetime_ms,
                        nonce,
                        can_be_prefix,
                        must_be_fresh,
                        application_parameters: match parameters {
                            Some(p) => Some(p@),
                            None => None,
                        },
                    },
                ),
            decreases end2 - pos,
        {
            proof {
                lemma_parse_tlv_shrinks(buf@.subrange(pos as int, end2 as int));
            }
            let span = match read_tlv(buf, pos, end2) {
                Some(s) => s,
                None => {
                    return Err(Error::Parse);
                },
            };
            let n: usize = span.end - span.start;
            if span.typ == TLV_NONCE && n == 4 {
                nonce = get_u32(buf, span.start);
            } else if span.typ == TLV_INTEREST_LIFETIME && n == 2 {
                lifetime_ms = get_u16(buf, span.start);
            } else if span.typ == TLV_CAN_BE_PREFIX && n == 1 {
                can_be_prefix = buf[span.start] != 0;
            } else if span.typ == TLV_MUST_BE_FRESH && n == 1 {
                must_be_fresh = buf[span.start] != 0;
            } else if span.typ == TLV_APPLICATION_PARAMETERS {
                parameters = Some(copy_range(buf, span.start, span.end));
            }
            pos = span.end;
        }
        assert(buf@.subrange(pos as int, end2 as int) =~= Seq::<u8>::empty());
        Ok(Interest { name, lifetime_ms, nonce, can_be_prefix, must_be_fresh, application_parameters: parameters })
    }

    /// Decodes an Interest: `Parse` where the buffer is truncated, is of
    /// another type or holds a malformed element. Elements of unknown type
    /// are skipped; octets after the Interest element are ignored.
    pub fn from_bytes(buf: &[u8]) -> (r: Result<Interest, Error>)
        ensures
            match decode_interest(buf@) {
                Some(v) => r is Ok && r->Ok_0@ == v,
                None => r == Err::<Interest, Error>(Error::Parse),
            },
    {
        assert(buf@.subrange(0, buf@.len() as int) =~= buf@);
        Interest::from_range(buf, 0, buf.len())
    }
}

/// Content type of a Data packet.
#[derive(Debug, Clone, Copy, PartialEq, Eq, Structural)]
pub enum ContentType {
    Blob,
    Link,
    Key,
    Cert,
    Manifest,
    PrefixAnn,
    Custom(u8),
}

impl ContentType {
    /// The octet that stands for the content type on the wire.
    pub open spec fn code(self) -> u8 {
        match self {
            ContentType::Blob => 0,
            ContentType::Link => 1,
            ContentType::Key => 2,
            ContentType::Cert => 3,
            ContentType::Manifest => 4,
            ContentType::PrefixAnn => 5,
            ContentType::Custom(n) => n,
        }
    }

    /// The content type that an octet stands for.
    pub open spec fn of_code(c: u8) -> ContentType {
        if c == 0 {
            ContentType::Blob
        } else if c == 1 {
            ContentType::Link
        } else if c == 2 {
            ContentType::Key
        } else if c == 3 {
            ContentType::Cert
        } else if c == 4 {
            ContentType::Manifest
        } else if c == 5 {
            ContentType::PrefixAnn
        } else {
            ContentType::Custom(c)
        }
    }

    /// Whether the value is the one that its code decodes to: a custom type
    /// does not reuse the code of a named one.
    pub open spec fn canonical(self) -> bool {
        match self {
            ContentType::Custom(n) => n > 5,
            _ => true,
        }
    }

    /// Executable form of [`ContentType::code`].
    pub fn to_code(self) -> (r: u8)
        ensures
            r == self.code(),
    {
        match self {
            ContentType::Blob => 0,
            ContentType::Link => 1,
            ContentType::Key => 2,
            ContentType::Cert => 3,
            ContentType::Manifest => 4,
            ContentType::PrefixAnn => 5,
            ContentType::Custom(n) => n,
        }
    }

    /// Executable form of [`ContentType::of_code`].
    pub fn from_code(c: u8) -> (r: ContentType)
        ensures
            r == ContentType::of_code(c),
            r.canonical(),
            r.code() == c,
    {
        match c {
            0 => ContentType::Blob,
            1 => ContentType::Link,
            2 => ContentType::Key,
            3 => ContentType::Cert,
            4 => ContentType::Manifest,
            5 => ContentType::PrefixAnn,
            n => ContentType::Custom(n),
        }
    }
}

impl From<u8> for ContentType {
    fn from(val: u8) -> (r: ContentType) {
        ContentType::from_code(val)
    }
}

impl vstd::std_specs::convert::FromSpecImpl<u8> for ContentType {
    open spec fn obeys_from_spec() -> bool {
        true
    }

    open spec fn from_spec(val: u8) -> ContentType {
        ContentType::of_code(val)
    }
}

impl From<u16> for NackReason {
    fn from(val: u16) -> (r: NackReason) {
        reason_from_code(val)
    }
}

impl vstd::std_specs::convert::FromSpecImpl<u16> for NackReason {
    open spec fn obeys_from_spec() -> bool {
        true
    }

    open spec fn from_spec(val: u16) -> NackReason {
        reason_of_code(val)
    }
}

/// The code of a Nack reason on the wire.
pub open spec fn reason_code(r: NackReason) -> u16 {
    match r {
        NackReason::NoRoute => 100,
        NackReason::Congestion => 101,
        NackReason::Duplicate => 102,
        NackReason::NoResource => 200,
        NackReason::NotAuth => 300,
        NackReason::Other(c) => c,
    }
}

/// The Nack reason that a code stands for.
pub open spec fn reason_of_code(c: u16) -> NackReason {
    if c == 100 {
        NackReason::NoRoute
    } else if c == 101 {
        NackReason::Congestion
    } else if c == 102 {
        NackReason::Duplicate
    } else if c == 200 {
        NackReason::NoResource
    } else if c == 300 {
        NackReason::NotAuth
    } else {
        NackReason::Other(c)
    }
}

/// Whether a reason is the one that its code decodes to: `Other` does not
/// reuse the code of a named reason.
pub open spec fn reason_canonical(r: NackReason) -> bool {
    match r {
        NackReason::Other(c) => c != 100 && c != 101 && c != 102 && c != 200 && c != 300,
        _ => true,
    }
}

/// Executable form of [`reason_code`].
pub fn reason_to_code(r: NackReason) -> (c: u16)
    ensures
        c == reason_code(r),
{
    match r {
        NackReason::NoRoute => 100,
        NackReason::Congestion => 101,
        NackReason::Duplicate => 102,
        NackReason::NoResource => 200,
        NackReason::NotAuth => 300,
        NackReason::Other(c) => c,
    }
}

/// Executable form of [`reason_of_code`].
pub fn reason_from_code(c: u16) -> (r: NackReason)
    ensures
        r == reason_of_code(c),
        reason_canonical(r),
        reason_code(r) == c,
{
    match c {
        100 => NackReason::NoRoute,
        101 => NackReason::Congestion,
        102 => NackReason::Duplicate,
        200 => NackReason::NoResource,
        300 => NackReason::NotAuth,
        n => NackReason::Other(n),
    }
}

/// What a Data packet holds.
pub struct DataView {
    pub name: Seq<Seq<u8>>,
    pub content_type: ContentType,
    pub content: Seq<u8>,
    pub freshness_ms: u32,
    pub signature_info: Seq<u8>,
    pub signature_value: Seq<u8>,
}

/// A named piece of content with its metadata and opaque signature fields.
#[derive(Debug, PartialEq, Eq)]
pub struct Data {
    name: Name,
    content_type: ContentType,
    content: Vec<u8>,
    fresh_period_ms: u32,
    signature_info: Vec<u8>,
    signature_value: Vec<u8>,
}

impl View for Data {
    type V = DataView;

    closed spec fn view(&self) -> DataView {
        DataView {
            name: self.name@,
            content_type: self.content_type,
            content: self.content@,
            freshness_ms: self.fresh_period_ms,
            signature_info: self.signature_info@,
            signature_value: self.signature_value@,
        }
    }
}

/// The value of the MetaInfo element: the content type's code, then the
/// freshness period in network order.
pub open spec fn meta_value(ct: ContentType, freshness_ms: u32) -> Seq<u8> {
    seq![ct.code()] + u32_be(freshness_ms)
}

/// The value of a Data element: name, MetaInfo, content and the two
/// signature fields.
pub open spec fn data_value(d: DataView) -> Seq<u8> {
    tlv(TLV_NAME, name_value(d.name)) + tlv(TLV_META_INFO, meta_value(d.content_type, d.freshness_ms)) + tlv(
        TLV_CONTENT,
        d.content,
    ) + tlv(TLV_SIGNATURE_INFO, d.signature_info) + tlv(TLV_SIGNATURE_VALUE, d.signature_value)
}

/// The wire form of a Data packet.
pub open spec fn encode_data(d: DataView) -> Seq<u8> {
    tlv(TLV_DATA, data_value(d))
}

/// Whether a Data packet fits the wire format's length fields.
pub open spec fn data_encodable(d: DataView) -> bool {
    data_value(d).len() <= MAX_VALUE_LEN
}

/// The Data that a name alone stands for.
pub open spec fn default_data(name: Seq<Seq<u8>>) -> DataView {
    DataView {
        name: name,
        content_type: ContentType::Blob,
        content: Seq::empty(),
        freshness_ms: DEFAULT_FRESHNESS_MS,
        signature_info: Seq::empty(),
        signature_value: Seq::empty(),
    }
}

/// The effect of one element on the Data being decoded.
pub open spec fn apply_data_field(acc: DataView, t: u8, v: Seq<u8>) -> DataView {
    if t == TLV_META_INFO && v.len() >= 1 {
        DataView {
            name: acc.name,
            content_type: ContentType::of_code(v[0]),
            content: acc.content,
            freshness_ms: if v.len() >= 5 {
                be_u32(v.subrange(1, 5))
            } else {
                acc.freshness_ms
            },
            signature_info: acc.signature_info,
            signature_value: acc.signature_value,
        }
    } else if t == TLV_CONTENT {
        DataView {
            name: acc.name,
            content_type: acc.content_type,
            content: v,
            freshness_ms: acc.freshness_ms,
            signature_info: acc.signature_info,
            signature_value: acc.signature_value,
        }
    } else if t == TLV_SIGNATURE_INFO {
        DataView {
            name: acc.name,
            content_type: acc.content_type,
            content: acc.content,
            freshness_ms: acc.freshness_ms,
            signature_info: v,
            signature_value: acc.signature_value,
        }
    } else if t == TLV_SIGNATURE_VALUE {
        DataView {
            name: acc.name,
            content_type: acc.content_type,
            content: acc.content,
            freshness_ms: acc.freshness_ms,
            signature_info: acc.signature_info,
            signature_value: v,
        }
    } else {
        acc
    }
}

/// Decodes the elements that follow the name of a Data packet; `None` where
/// one is truncated.
pub open spec fn parse_data_fields(s: Seq<u8>, acc: DataView) -> Option<DataView>
    decreases s.len(),
{
    if s.len() == 0 {
        Some(acc)
    } else {
        match parse_tlv(s) {
            Some(e) => if e.rest.len() < s.len() {
                parse_data_fields(e.rest, apply_data_field(acc, e.typ, e.value))
            } else {
                None
            },
            None => None,
        }
    }
}

/// The Data held in the value of a Data element.
pub open spec fn decode_data_value(s: Seq<u8>) -> Option<DataView> {
    match parse_tlv(s) {
        Some(n) => if n.typ == TLV_NAME {
            match parse_components(n.value) {
                Some(c) => parse_data_fields(n.rest, default_data(c)),
                None => None,
            }
        } else {
            None
        },
        None => None,
    }
}

/// The Data at the front of `s`, or `None` where `s` is truncated, is of
/// another type or holds a malformed element.
pub open spec fn decode_data(s: Seq<u8>) -> Option<DataView> {
    match parse_tlv(s) {
        Some(e) => if e.typ == TLV_DATA {
            decode_data_value(e.value)
        } else {
            None
        },
        None => None,
    }
}

/// The elements of a Data packet after its name, each followed by the next.
pub open spec fn data_fields(d: DataView) -> Seq<u8> {
    tlv(TLV_META_INFO, meta_value(d.content_type, d.freshness_ms)) + (tlv(TLV_CONTENT, d.content) + (tlv(
        TLV_SIGNATURE_INFO,
        d.signature_info,
    ) + (tlv(TLV_SIGNATURE_VALUE, d.signature_value) + Seq::<u8>::empty())))
}

proof fn lemma_signature_fields(d: DataView, acc: DataView)
    requires
        d.signature_info.len() <= MAX_VALUE_LEN,
        d.signature_value.len() <= MAX_VALUE_LEN,
    ensures
        parse_data_fields(
            tlv(TLV_SIGNATURE_INFO, d.signature_info) + (tlv(TLV_SIGNATURE_VALUE, d.signature_value) + Seq::<
                u8,
            >::empty()),
            acc,
        ) == Some(
            DataView { signature_info: d.signature_info, signature_value: d.signature_value, ..acc },
        ),
{
    let r1 = tlv(TLV_SIGNATURE_VALUE, d.signature_value) + Seq::<u8>::empty();
    let r2 = tlv(TLV_SIGNATURE_INFO, d.signature_info) + r1;
    lemma_parse_tlv(TLV_SIGNATURE_INFO, d.signature_info, r1);
    lemma_parse_tlv(TLV_SIGNATURE_VALUE, d.signature_value, Seq::<u8>::empty());
    lemma_tlv_len(TLV_SIGNATURE_INFO, d.signature_info);
    lemma_tlv_len(TLV_SIGNATURE_VALUE, d.signature_value);
    let a1 = apply_data_field(acc, TLV_SIGNATURE_INFO, d.signature_info);
    let a2 = apply_data_field(a1, TLV_SIGNATURE_VALUE, d.signature_value);
    assert(parse_data_fields(Seq::<u8>::empty(), a2) == Some(a2));
    assert(parse_data_fields(r1, a1) == Some(a2));
    assert(parse_data_fields(r2, acc) == Some(a2));
}

proof fn lemma_data_fields(d: DataView)
    requires
        d.content.len() <= MAX_VALUE_LEN,
        d.signature_info.len() <= MAX_VALUE_LEN,
        d.signature_value.len() <= MAX_VALUE_LEN,
        d.content_type.canonical(),
    ensures
        parse_data_fields(data_fields(d), default_data(d.name)) == Some(d),
{
    let meta = meta_value(d.content_type, d.freshness_ms);
    let r2 = tlv(TLV_SIGNATURE_INFO, d.signature_info) + (tlv(TLV_SIGNATURE_VALUE, d.signature_value) + Seq::<
        u8,
    >::empty());
    let r3 = tlv(TLV_CONTENT, d.content) + r2;
    let r4 = tlv(TLV_META_INFO, meta) + r3;
    lemma_be_round_trip(0, d.freshness_ms);
    assert(meta.subrange(1, 5) =~= u32_be(d.freshness_ms));
    assert(meta.len() == 5);
    assert(meta[0] == d.content_type.code());
    lemma_tlv_len(TLV_META_INFO, meta);
    lemma_tlv_len(TLV_CONTENT, d.content);
    lemma_parse_tlv(TLV_META_INFO, meta, r3);
    lemma_parse_tlv(TLV_CONTENT, d.content, r2);
    let a0 = default_data(d.name);
    let a1 = apply_data_field(a0, TLV_META_INFO, meta);
    let a2 = apply_data_field(a1, TLV_CONTENT, d.content);
    assert(ContentType::of_code(d.content_type.code()) == d.content_type);
    lemma_signature_fields(d, a2);
    assert(DataView { signature_info: d.signature_info, signature_value: d.signature_value, ..a2 } == d);
    assert(parse_data_fields(r2, a2) == Some(d));
    assert(parse_data_fields(r3, a1) == Some(d));
    assert(parse_data_fields(r4, a0) == Some(d));
}

/// Decoding an encoded Data packet gives the packet back, for every packet
/// that fits the wire and whose content type is canonical.
pub proof fn lemma_data_round_trip(d: DataView)
    requires
        data_encodable(d),
        d.content_type.canonical(),
    ensures
        decode_data(encode_data(d)) == Some(d),
{
    let meta = meta_value(d.content_type, d.freshness_ms);
    let name_tlv = tlv(TLV_NAME, name_value(d.name));
    assert(data_value(d) =~= name_tlv + data_fields(d));
    assert(encode_data(d) + Seq::<u8>::empty() =~= encode_data(d));
    lemma_tlv_len(TLV_NAME, name_value(d.name));
    lemma_tlv_len(TLV_META_INFO, meta);
    lemma_tlv_len(TLV_CONTENT, d.content);
    lemma_tlv_len(TLV_SIGNATURE_INFO, d.signature_info);
    lemma_tlv_len(TLV_SIGNATURE_VALUE, d.signature_value);
    lemma_name_value_bounds(d.name);
    lemma_components_round_trip(d.name);
    lemma_parse_tlv(TLV_DATA, data_value(d), Seq::<u8>::empty());
    lemma_parse_tlv(TLV_NAME, name_value(d.name), data_fields(d));
    lemma_data_fields(d);
}

impl Clone for Data {
    fn clone(&self) -> (r: Self)
        ensures
            r@ == self@,
    {
        self.duplicate()
    }
}

impl Data {
    /// The content type of every packet is the one that its code decodes
    /// to, so that every packet survives the wire.
    #[verifier::type_invariant]
    spec fn survives_wire(self) -> bool {
        self.content_type.canonical()
    }

    /// A Data packet for `name` with `content`: a blob, fresh for one hour,
    /// with placeholder signature fields.
    pub fn new(name: Name, content: Vec<u8>) -> (r: Self)
        ensures
            r@ == (DataView {
                name: name@,
                content_type: ContentType::Blob,
                content: content@,
                freshness_ms: DEFAULT_FRESHNESS_MS,
                signature_info: seq![0u8],
                signature_value: seq![0u8],
            }),
    {
        let mut si: Vec<u8> = Vec::new();
        si.push(0);
        let mut sv: Vec<u8> = Vec::new();
        sv.push(0);
        let r = Data {
            name,
            content_type: ContentType::Blob,
            content,
            fresh_period_ms: DEFAULT_FRESHNESS_MS,
            signature_info: si,
            signature_value: sv,
        };
        assert(r.signature_info@ =~= seq![0u8]);
        assert(r.signature_value@ =~= seq![0u8]);
        r
    }

    /// The same packet with the given content type. A custom type that
    /// reuses the code of a named one becomes the named one, as it would on
    /// the wire.
    pub fn content_type(self, content_type: ContentType) -> (r: Self)
        ensures
            r@ == (DataView { content_type: ContentType::of_code(content_type.code()), ..self@ }),
    {
        Data {
            name: self.name,
            content_type: ContentType::from_code(content_type.to_code()),
            content: self.content,
            fresh_period_ms: self.fresh_period_ms,
            signature_info: self.signature_info,
            signature_value: self.signature_value,
        }
    }

    /// The same packet with the given freshness period in milliseconds.
    pub fn fresh_period(self, fresh_period_ms: u32) -> (r: Self)
        ensures
            r@ == (DataView { freshness_ms: fresh_period_ms, ..self@ }),
    {
        proof {
            use_type_invariant(&self);
        }
        Data {
            name: self.name,
            content_type: self.content_type,
            content: self.content,
            fresh_period_ms,
            signature_info: self.signature_info,
            signature_value: self.signature_value,
        }
    }

    /// The same packet with the given signature fields, carried opaquely.
    pub fn with_signature(self, signature_info: Vec<u8>, signature_value: Vec<u8>) -> (r: Self)
        ensures
            r@ == (DataView {
                signature_info: signature_info@,
                signature_value: signature_value@,
                ..self@
            }),
    {
        proof {
            use_type_invariant(&self);
        }
        Data {
            name: self.name,
            content_type: self.content_type,
            content: self.content,
            fresh_period_ms: self.fresh_period_ms,
            signature_info,
            signature_value,
        }
    }

    /// Marks the packet as signed: the signature fields become the
    /// placeholders `[1]` and `[2]`; the key is not used.
    pub fn sign(self, _key: &[u8]) -> (r: Self)
        ensures
            r@ == (DataView { signature_info: seq![1u8], signature_value: seq![2u8], ..self@ }),
    {
        let mut si: Vec<u8> = Vec::new();
        si.push(1);
        let mut sv: Vec<u8> = Vec::new();
        sv.push(2);
        assert(si@ =~= seq![1u8]);
        assert(sv@ =~= seq![2u8]);
        self.with_signature(si, sv)
    }

    /// The name of the packet.
    pub fn name(&self) -> (r: &Name)
        ensures
            r@ == self@.name,
    {
        &self.name
    }

    /// The content.
    pub fn content(&self) -> (r: &[u8])
        ensures
            r@ == self@.content,
    {
        self.content.as_slice()
    }

    /// The content type; it is always the one that its code decodes to.
    pub fn get_content_type(&self) -> (r: ContentType)
        ensures
            r == self@.content_type,
            r.canonical(),
    {
        proof {
            use_type_invariant(self);
        }
        self.content_type
    }

    /// The freshness period in milliseconds.
    pub fn get_fresh_period(&self) -> (r: u32)
        ensures
            r == self@.freshness_ms,
    {
        self.fresh_period_ms
    }

    /// The signature info field.
    pub fn signature_info(&self) -> (r: &[u8])
        ensures
            r@ == self@.signature_info,
    {
        self.signature_info.as_slice()
    }

    /// The signature value field.
    pub fn signature_value(&self) -> (r: &[u8])
        ensures
            r@ == self@.signature_value,
    {
        self.signature_value.as_slice()
    }

    /// A copy of the packet.
    pub fn duplicate(&self) -> (r: Self)
        ensures
            r@ == self@,
    {
        proof {
            use_type_invariant(self);
        }
        Data {
            name: self.name.duplicate(),
            content_type: self.content_type,
            content: slice_to_vec(self.content.as_slice()),
            fresh_period_ms: self.fresh_period_ms,
            signature_info: slice_to_vec(self.signature_info.as_slice()),
            signature_value: slice_to_vec(self.signature_value.as_slice()),
        }
    }

    /// The wire form, or `InvalidArgument` where the packet does not fit the
    /// length fields.
    pub fn to_bytes(&self) -> (r: Result<Vec<u8>, Error>)
        ensures
            data_encodable(self@) ==> r is Ok && r->Ok_0@ == encode_data(self@),
            !data_encodable(self@) ==> r == Err::<Vec<u8>, Error>(Error::InvalidArgument),
            r is Ok ==> decode_data(r->Ok_0@) == Some(self@),
            self@.content_type.canonical(),
    {
        proof {
            use_type_invariant(self);
        }
        proof {
            lemma_tlv_len(TLV_NAME, name_value(self@.name));
            lemma_tlv_len(TLV_CONTENT, self@.content);
            lemma_tlv_len(TLV_SIGNATURE_INFO, self@.signature_info);
            lemma_tlv_len(TLV_SIGNATURE_VALUE, self@.signature_value);
        }
        let name_tlv = match self.name.to_tlv() {
            Ok(v) => v,
            Err(_) => {
                return Err(Error::InvalidArgument);
            },
        };
        if self.content.len() > MAX_VALUE_LEN || self.signature_info.len() > MAX_VALUE_LEN
            || self.signature_value.len() > MAX_VALUE_LEN {
            return Err(Error::InvalidArgument);
        }
        let mut value: Vec<u8> = name_tlv;
        let mut meta: Vec<u8> = Vec::new();
        let fresh: u32 = self.fresh_period_ms;
        meta.push(self.content_type.to_code());
        meta.push((fresh / 16777216) as u8);
        meta.push(((fresh / 65536) % 256) as u8);
        meta.push(((fresh / 256) % 256) as u8);
        meta.push((fresh % 256) as u8);
        assert(meta@ =~= meta_value(self@.content_type, self@.freshness_ms));
        put_tlv(&mut value, TLV_META_INFO, meta.as_slice());
        put_tlv(&mut value, TLV_CONTENT, self.content.as_slice());
        put_tlv(&mut value, TLV_SIGNATURE_INFO, self.signature_info.as_slice());
        put_tlv(&mut value, TLV_SIGNATURE_VALUE, self.signature_value.as_slice());
        assert(value@ =~= data_value(self@));
        if value.len() > MAX_VALUE_LEN {
            return Err(Error::InvalidArgument);
        }
        let mut out: Vec<u8> = Vec::new();
        put_tlv(&mut out, TLV_DATA, value.as_slice());
        assert(out@ =~= encode_data(self@));
        proof {
            use_type_invariant(self);
            lemma_data_round_trip(self@);
        }
        Ok(out)
    }

    /// Decodes a Data packet: `Parse` where the buffer is truncated, is of
    /// another type or holds a malformed element. Elements of unknown type
    /// are skipped; octets after the Data element are ignored.
    pub fn from_bytes(buf: &[u8]) -> (r: Result<Data, Error>)
        ensures
            match decode_data(buf@) {
                Some(v) => r is Ok && r->Ok_0@ == v,
                None => r == Err::<Data, Error>(Error::Parse),
            },
    {
        assert(buf@.subrange(0, buf@.len() as int) =~= buf@);
        let outer = match read_tlv(buf, 0, buf.len()) {
            Some(s) => s,
            None => {
                return Err(Error::Parse);
            },
        };
        if outer.typ != TLV_DATA {
            return Err(Error::Parse);
        }
        let inner = match read_tlv(buf, outer.start, outer.end) {
            Some(s) => s,
            None => {
                return Err(Error::Parse);
            },
        };
        if inner.typ != TLV_NAME {
            return Err(Error::Parse);
        }
        let name = match Name::from_value(buf, inner.start, inner.end) {
            Ok(n) => n,
            Err(_) => {
                return Err(Error::Parse);
            },
        };
        let mut content_type: ContentType = ContentType::Blob;
        let mut fresh: u32 = DEFAULT_FRESHNESS_MS;
        let mut content: Vec<u8> = Vec::new();
        let mut si: Vec<u8> = Vec::new();
        let mut sv: Vec<u8> = Vec::new();
        let mut pos: usize = inner.end;
        let end2: usize = outer.end;
        let ghost fields = buf@.subrange(inner.end as int, end2 as int);
        let ghost init = default_data(name@);
        assert(init == (DataView {
            name: name@,
            content_type,
            content: content@,
            freshness_ms: fresh,
            signature_info: si@,
            signature_value: sv@,
        }));
        while pos < end2
            invariant
                inner.end <= pos <= end2 <= buf@.len(),
                content_type.canonical(),
                decode_data(buf@) == parse_data_fields(fields, init),
                parse_data_fields(fields, init) == parse_data_fields(
                    buf@.subrange(pos as int, end2 as int),
                    DataView {
                        name: name@,
                        content_type,
                        content: content@,
                        freshness_ms: fresh,
                        signature_info: si@,
                        signature_value: sv@,
                    },
                ),
            decreases end2 - pos,
        {
            proof {
                lemma_parse_tlv_shrinks(buf@.subrange(pos as int, end2 as int));
            }
            let span = match read_tlv(buf, pos, end2) {
                Some(s) => s,
                None => {
                    return Err(Error::Parse);
                },
            };
            let n: usize = span.end - span.start;
            let ghost v = buf@.subrange(span.start as int, span.end as int);
            if span.typ == TLV_META_INFO && n >= 1 {
                content_type = ContentType::from_code(buf[span.start]);
                if n >= 5 {
                    fresh = get_u32(buf, span.start + 1);
                    assert(v.subrange(1, 5) =~= buf@.subrange(span.start + 1, span.start + 1 + 4));
                }
            } else if span.typ == TLV_CONTENT {
                content = copy_range(buf, span.start, span.end);
            } else if span.typ == TLV_SIGNATURE_INFO {
                si = copy_range(buf, span.start, span.end);
            } else if span.typ == TLV_SIGNATURE_VALUE {
                sv = copy_range(buf, span.start, span.end);
            }
            pos = span.end;
        }
        assert(buf@.subrange(pos as int, end2 as int) =~= Seq::<u8>::empty());
        Ok(
            Data {
                name,
                content_type,
                content,
                fresh_period_ms: fresh,
                signature_info: si,
                signature_value: sv,
            },
        )
    }
}

/// What a Nack holds.
pub struct NackView {
    pub interest: InterestView,
    pub reason: NackReason,
    pub message: Seq<u8>,
}

/// A negative acknowledgment of an Interest.
#[derive(Debug, PartialEq, Eq)]
pub struct Nack {
    interest: Interest,
    reason: NackReason,
    message: Vec<u8>,
}

impl View for Nack {
    type V = NackView;

    closed spec fn view(&self) -> NackView {
        NackView { interest: self.interest@, reason: self.reason, message: self.message@ }
    }
}

/// The text element of a Nack: absent for an empty text.
pub open spec fn nack_text(message: Seq<u8>) -> Seq<u8> {
    if message.len() > 0 {
        tlv(TLV_NACK_TEXT, message)
    } else {
        Seq::empty()
    }
}

/// The value of a Nack element: the Interest, the reason, the text if any.
pub open spec fn nack_value(n: NackView) -> Seq<u8> {
    encode_interest(n.interest) + tlv(TLV_NACK_REASON, u16_be(reason_code(n.reason))) + nack_text(n.message)
}

/// The wire form of a Nack.
pub open spec fn encode_nack(n: NackView) -> Seq<u8> {
    tlv(TLV_NACK, nack_value(n))
}

/// Whether a Nack fits the wire format's length fields.
pub open spec fn nack_encodable(n: NackView) -> bool {
    interest_encodable(n.interest) && nack_value(n).len() <= MAX_VALUE_LEN
}

/// The effect of one element on the Nack being decoded.
pub open spec fn apply_nack_field(acc: NackView, t: u8, v: Seq<u8>) -> NackView {
    if t == TLV_NACK_REASON && v.len() == 2 {
        NackView { interest: acc.interest, reason: reason_of_code(be_u16(v)), message: acc.message }
    } else if t == TLV_NACK_TEXT {
        NackView { interest: acc.interest, reason: acc.reason, message: v }
    } else {
        acc
    }
}

/// Decodes the elements that follow the Interest of a Nack; `None` where one
/// is truncated.
pub open spec fn parse_nack_fields(s: Seq<u8>, acc: NackView) -> Option<NackView>
    decreases s.len(),
{
    if s.len() == 0 {
        Some(acc)
    } else {
        match parse_tlv(s) {
            Some(e) => if e.rest.len() < s.len() {
                parse_nack_fields(e.rest, apply_nack_field(acc, e.typ, e.value))
            } else {
                None
            },
            None => None,
        }
    }
}

/// The Nack at the front of `s`, or `None` where `s` is truncated, is of
/// another type or holds a malformed element. A Nack that states no reason
/// has the reason `NoRoute`.
pub open spec fn decode_nack(s: Seq<u8>) -> Option<NackView> {
    match parse_tlv(s) {
        Some(e) => if e.typ == TLV_NACK {
            match decode_interest(e.value) {
                Some(i) => parse_nack_fields(
                    parse_tlv(e.value)->0.rest,
                    NackView { interest: i, reason: NackReason::NoRoute, message: Seq::empty() },
                ),
                None => None,
            }
        } else {
            None
        },
        None => None,
    }
}

proof fn lemma_nack_fields(n: NackView)
    requires
        n.message.len() <= MAX_VALUE_LEN,
        reason_canonical(n.reason),
    ensures
        parse_nack_fields(
            tlv(TLV_NACK_REASON, u16_be(reason_code(n.reason))) + nack_text(n.message),
            NackView { interest: n.interest, reason: NackReason::NoRoute, message: Seq::empty() },
        ) == Some(n),
{
    let code = u16_be(reason_code(n.reason));
    let e1 = nack_text(n.message);
    let r2 = tlv(TLV_NACK_REASON, code) + e1;
    lemma_be_round_trip(reason_code(n.reason), 0);
    lemma_parse_tlv(TLV_NACK_REASON, code, e1);
    lemma_tlv_len(TLV_NACK_REASON, code);
    let a0 = NackView { interest: n.interest, reason: NackReason::NoRoute, message: Seq::empty() };
    let a1 = apply_nack_field(a0, TLV_NACK_REASON, code);
    assert(reason_of_code(reason_code(n.reason)) == n.reason);
    assert(a1 == (NackView { interest: n.interest, reason: n.reason, message: Seq::empty() }));
    if n.message.len() > 0 {
        lemma_tlv_len(TLV_NACK_TEXT, n.message);
        lemma_parse_tlv(TLV_NACK_TEXT, n.message, Seq::<u8>::empty());
        assert(e1 + Seq::<u8>::empty() =~= e1);
        let a2 = apply_nack_field(a1, TLV_NACK_TEXT, n.message);
        assert(a2 == n);
        assert(parse_nack_fields(Seq::<u8>::empty(), a2) == Some(a2));
        assert(parse_nack_fields(e1, a1) == Some(a2));
        assert(parse_nack_fields(r2, a0) == Some(a2));
    } else {
        assert(n.message =~= Seq::<u8>::empty());
        assert(a1 == n);
        assert(parse_nack_fields(e1, a1) == Some(a1));
        assert(parse_nack_fields(r2, a0) == Some(a1));
    }
}

/// Decoding an encoded Nack gives the Nack back, for every Nack that fits
/// the wire and whose reason is canonical.
pub proof fn lemma_nack_round_trip(n: NackView)
    requires
        nack_encodable(n),
        reason_canonical(n.reason),
    ensures
        decode_nack(encode_nack(n)) == Some(n),
{
    let r2 = tlv(TLV_NACK_REASON, u16_be(reason_code(n.reason))) + nack_text(n.message);
    assert(nack_value(n) =~= encode_interest(n.interest) + r2);
    assert(encode_nack(n) + Seq::<u8>::empty() =~= encode_nack(n));
    lemma_tlv_len(TLV_NACK_TEXT, n.message);
    lemma_parse_tlv(TLV_NACK, nack_value(n), Seq::<u8>::empty());
    lemma_interest_round_trip(n.interest, r2);
    lemma_nack_fields(n);
}

impl Clone for Nack {
    fn clone(&self) -> (r: Self)
        ensures
            r@ == self@,
    {
        self.duplicate()
    }
}

impl Nack {
    /// The reason of every Nack is the one that its code decodes to, so that
    /// every Nack survives the wire.
    #[verifier::type_invariant]
    spec fn survives_wire(self) -> bool {
        reason_canonical(self.reason)
    }

    /// A Nack for `interest` with the given reason and no text. `Other` with
    /// the code of a named reason becomes the named reason, as it would on
    /// the wire.
    pub fn new(interest: Interest, reason: NackReason) -> (r: Self)
        ensures
            r@ == (NackView {
                interest: interest@,
                reason: reason_of_code(reason_code(reason)),
                message: Seq::empty(),
            }),
    {
        Nack { interest, reason: reason_from_code(reason_to_code(reason)), message: Vec::new() }
    }

    /// A Nack for `interest` with the reason `NoRoute` and the given text.
    pub fn from_interest(interest: Interest, message: &str) -> (r: Self)
        ensures
            r@ == (NackView {
                interest: interest@,
                reason: NackReason::NoRoute,
                message: message.spec_bytes(),
            }),
    {
        Nack { interest, reason: NackReason::NoRoute, message: slice_to_vec(message.as_bytes()) }
    }

    /// The same Nack with the given text.
    pub fn with_message(self, message: &str) -> (r: Self)
        ensures
            r@ == (NackView { message: message.spec_bytes(), ..self@ }),
    {
        proof {
            use_type_invariant(&self);
        }
        Nack { interest: self.interest, reason: self.reason, message: slice_to_vec(message.as_bytes()) }
    }

    /// A copy of the Nack.
    pub fn duplicate(&self) -> (r: Self)
        ensures
            r@ == self@,
    {
        proof {
            use_type_invariant(self);
        }
        Nack {
            interest: self.interest.duplicate(),
            reason: self.reason,
            message: slice_to_vec(self.message.as_slice()),
        }
    }

    /// The Interest that was refused.
    pub fn interest(&self) -> (r: &Interest)
        ensures
            r@ == self@.interest,
    {
        &self.interest
    }

    /// The reason; it is always the one that its code decodes to.
    pub fn reason(&self) -> (r: NackReason)
        ensures
            r == self@.reason,
            reason_canonical(r),
    {
        proof {
            use_type_invariant(self);
        }
        self.reason
    }

    /// The octets of the text.
    pub fn message_bytes(&self) -> (r: &[u8])
        ensures
            r@ == self@.message,
    {
        self.message.as_slice()
    }

    /// The text, with each invalid UTF-8 sequence replaced by U+FFFD.
    pub fn message(&self) -> (r: String)
        ensures
            r@ == utf8_lossy(self@.message),
    {
        string_from_utf8_lossy(self.message.as_slice())
    }

    /// The wire form, or `InvalidArgument` where the Nack does not fit the
    /// length fields.
    pub fn to_bytes(&self) -> (r: Result<Vec<u8>, Error>)
        ensures
            nack_encodable(self@) ==> r is Ok && r->Ok_0@ == encode_nack(self@),
            !nack_encodable(self@) ==> r == Err::<Vec<u8>, Error>(Error::InvalidArgument),
            r is Ok ==> decode_nack(r->Ok_0@) == Some(self@),
    {
        proof {
            lemma_tlv_len(TLV_NACK_TEXT, self@.message);
        }
        let interest_tlv = match self.interest.to_bytes() {
            Ok(v) => v,
            Err(_) => {
                return Err(Error::InvalidArgument);
            },
        };
        if self.message.len() > MAX_VALUE_LEN {
            return Err(Error::InvalidArgument);
        }
        let mut value: Vec<u8> = interest_tlv;
        put_u16(&mut value, TLV_NACK_REASON, reason_to_code(self.reason));
        if self.message.len() > 0 {
            put_tlv(&mut value, TLV_NACK_TEXT, self.message.as_slice());
        }
        assert(value@ =~= nack_value(self@));
        if value.len() > MAX_VALUE_LEN {
            return Err(Error::InvalidArgument);
        }
        let mut out: Vec<u8> = Vec::new();
        put_tlv(&mut out, TLV_NACK, value.as_slice());
        assert(out@ =~= encode_nack(self@));
        proof {
            use_type_invariant(self);
            lemma_nack_round_trip(self@);
        }
        Ok(out)
    }

    /// Decodes a Nack: `Parse` where the buffer is truncated, is of another
    /// type or holds a malformed element.
    pub fn from_bytes(buf: &[u8]) -> (r: Result<Nack, Error>)
        ensures
            match decode_nack(buf@) {
                Some(v) => r is Ok && r->Ok_0@ == v,
                None => r == Err::<Nack, Error>(Error::Parse),
            },
    {
        assert(buf@.subrange(0, buf@.len() as int) =~= buf@);
        let outer = match read_tlv(buf, 0, buf.len()) {
            Some(s) => s,
            None => {
                return Err(Error::Parse);
            },
        };
        if outer.typ != TLV_NACK {
            return Err(Error::Parse);
        }
        let interest = match Interest::from_range(buf, outer.start, outer.end) {
            Ok(i) => i,
            Err(_) => {
                return Err(Error::Parse);
            },
        };
        let first = match read_tlv(buf, outer.start, outer.end) {
            Some(s) => s,
            None => {
                return Err(Error::Parse);
            },
        };
        let mut reason: NackReason = NackReason::NoRoute;
        let mut message: Vec<u8> = Vec::new();
        let mut pos: usize = first.end;
        let end2: usize = outer.end;
        let ghost fields = buf@.subrange(first.end as int, end2 as int);
        let ghost init = NackView { interest: interest@, reason: NackReason::NoRoute, message: Seq::empty() };
        assert(message@ =~= Seq::<u8>::empty());
        while pos < end2
            invariant
                first.end <= pos <= end2 <= buf@.len(),
                reason_canonical(reason),
                decode_nack(buf@) == parse_nack_fields(fields, init),
                parse_nack_fields(fields, init) == parse_nack_fields(
                    buf@.subrange(pos as int, end2 as int),
                    NackView { interest: interest@, reason, message: message@ },
                ),
            decreases end2 - pos,
        {
            proof {
                lemma_parse_tlv_shrinks(buf@.subrange(pos as int, end2 as int));
            }
            let span = match read_tlv(buf, pos, end2) {
                Some(s) => s,
                None => {
                    return Err(Error::Parse);
                },
            };
            let n: usize = span.end - span.start;
            if span.typ == TLV_NACK_REASON && n == 2 {
                reason = reason_from_code(get_u16(buf, span.start));
            } else if span.typ == TLV_NACK_TEXT {
                message = copy_range(buf, span.start, span.end);
            }
            pos = span.end;
        }
        assert(buf@.subrange(pos as int, end2 as int) =~= Seq::<u8>::empty());
        Ok(Nack { interest, reason, message })
    }
}

} // verus!
