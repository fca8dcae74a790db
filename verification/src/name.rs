//! Hierarchical names: an ordered sequence of opaque byte components.

use vstd::prelude::*;
use vstd::slice::slice_to_vec;
use vstd::string::StringSliceAdditionalSpecFns;
use crate::error::Error;
use crate::tlv::{tlv, parse_tlv, put_tlv, read_tlv, lemma_parse_tlv, lemma_parse_tlv_shrinks, MAX_VALUE_LEN};

verus! {

/// TLV type of a name.
pub const TLV_NAME: u8 = 0x07;

/// TLV type of a name component.
pub const TLV_COMPONENT: u8 = 0x08;

/// The octet `/`, which separates components in the textual form.
pub const SLASH: u8 = 0x2F;

/// The octet `%`, which introduces an escape in the textual form.
pub const PERCENT: u8 = 0x25;

/// One component of a name.
#[derive(Debug, Clone, PartialEq, Eq, Hash, PartialOrd, Ord)]
pub struct Component {
    pub value: Vec<u8>,
}

impl View for Component {
    type V = Seq<u8>;

    open spec fn view(&self) -> Seq<u8> {
        self.value@
    }
}

/// A name: its components, first to last.
#[derive(Debug, Clone, PartialEq, Eq, Hash, PartialOrd, Ord)]
pub struct Name {
    pub components: Vec<Component>,
}

impl View for Name {
    type V = Seq<Seq<u8>>;

    open spec fn view(&self) -> Seq<Seq<u8>> {
        Seq::new(self.components@.len(), |i: int| self.components@[i]@)
    }
}

/// `a` is a prefix of `b`: no longer, and equal component by component.
pub open spec fn is_prefix(a: Seq<Seq<u8>>, b: Seq<Seq<u8>>) -> bool {
    a.len() <= b.len() && forall|i: int| 0 <= i < a.len() ==> a[i] == b[i]
}

/// Lexicographic order on byte strings: at the first place where they
/// differ the smaller octet decides; a proper prefix comes first.
pub open spec fn bytes_lt(a: Seq<u8>, b: Seq<u8>) -> bool {
    exists|k: int|
        0 <= k <= a.len() && k <= b.len() && #[trigger] a.take(k) == b.take(k) && (if k == a.len() {
            k < b.len()
        } else {
            k < b.len() && a[k] < b[k]
        })
}

/// Lexicographic order on names, component by component: at the first
/// component where they differ the smaller component decides; a proper
/// prefix comes first.
pub open spec fn name_lt(a: Seq<Seq<u8>>, b: Seq<Seq<u8>>) -> bool {
    exists|k: int|
        0 <= k <= a.len() && k <= b.len() && #[trigger] a.take(k) == b.take(k) && (if k == a.len() {
            k < b.len()
        } else {
            k < b.len() && bytes_lt(a[k], b[k])
        })
}

/// The concatenated component elements of a name, that is the value of its
/// name element.
pub open spec fn name_value(comps: Seq<Seq<u8>>) -> Seq<u8>
    decreases comps.len(),
{
    if comps.len() == 0 {
        Seq::empty()
    } else {
        tlv(TLV_COMPONENT, comps[0]) + name_value(comps.skip(1))
    }
}

/// The components held in the value of a name element, or `None` where an
/// element is truncated or is no component.
pub open spec fn parse_components(s: Seq<u8>) -> Option<Seq<Seq<u8>>>
    decreases s.len(),
{
    if s.len() == 0 {
        Some(Seq::empty())
    } else {
        match parse_tlv(s) {
            Some(e) => if e.typ == TLV_COMPONENT && e.rest.len() < s.len() {
                match parse_components(e.rest) {
                    Some(r) => Some(seq![e.value] + r),
                    None => None,
                }
            } else {
                None
            },
            None => None,
        }
    }
}

/// All the octets of a name's components, one after the other.
pub open spec fn flatten(comps: Seq<Seq<u8>>) -> Seq<u8>
    decreases comps.len(),
{
    if comps.len() == 0 {
        Seq::empty()
    } else {
        flatten(comps.drop_last()) + comps.last()
    }
}

/// Number of octets before the first `/` of `s`.
pub open spec fn segment_len(s: Seq<u8>) -> int
    decreases s.len(),
{
    if s.len() == 0 || s[0] == SLASH {
        0
    } else {
        1 + segment_len(s.skip(1))
    }
}

/// The non-empty segments between the `/` octets of `s`.
pub open spec fn split_uri(s: Seq<u8>) -> Seq<Seq<u8>>
    decreases s.len(),
{
    if s.len() == 0 {
        Seq::empty()
    } else if s[0] == SLASH {
        split_uri(s.skip(1))
    } else {
        let n = segment_len(s);
        if 0 < n <= s.len() {
            seq![s.take(n)] + split_uri(s.skip(n))
        } else {
            Seq::empty()
        }
    }
}

/// Whether an octet stands for itself in the textual form.
pub open spec fn is_plain(b: u8) -> bool {
    0x21 <= b <= 0x7E && b != SLASH && b != PERCENT
}

/// The upper-case hexadecimal digit for a value below 16.
pub open spec fn hex_digit(v: u8) -> u8 {
    if v < 10 {
        (0x30 + v) as u8
    } else {
        (0x41 + v - 10) as u8
    }
}

/// The textual form of one octet: itself, or `%` and two hexadecimal digits.
pub open spec fn escape_byte(b: u8) -> Seq<u8> {
    if is_plain(b) {
        seq![b]
    } else {
        seq![PERCENT, hex_digit(b / 16), hex_digit(b % 16)]
    }
}

/// The textual form of a component.
pub open spec fn escape(s: Seq<u8>) -> Seq<u8>
    decreases s.len(),
{
    if s.len() == 0 {
        Seq::empty()
    } else {
        escape(s.drop_last()) + escape_byte(s.last())
    }
}

/// `/` and the textual form of each component, in order.
pub open spec fn render_components(comps: Seq<Seq<u8>>) -> Seq<u8>
    decreases comps.len(),
{
    if comps.len() == 0 {
        Seq::empty()
    } else {
        render_components(comps.drop_last()) + seq![SLASH] + escape(comps.last())
    }
}

/// The octets of the URI scheme `ndn:`.
pub open spec fn uri_scheme() -> Seq<u8> {
    seq![0x6Eu8, 0x64u8, 0x6Eu8, 0x3Au8]
}

/// The canonical textual form of a name: `/` alone for the empty name.
pub open spec fn render(comps: Seq<Seq<u8>>) -> Seq<u8> {
    if comps.len() == 0 {
        seq![SLASH]
    } else {
        render_components(comps)
    }
}

/// Appending a component appends its element to the value.
pub proof fn lemma_name_value_push(comps: Seq<Seq<u8>>, c: Seq<u8>)
    ensures
        name_value(comps.push(c)) == name_value(comps) + tlv(TLV_COMPONENT, c),
    decreases comps.len(),
{
    if comps.len() == 0 {
        assert(comps.push(c).skip(1) =~= Seq::<Seq<u8>>::empty());
        assert(comps.push(c)[0] == c);
        assert(name_value(comps.push(c).skip(1)) =~= Seq::<u8>::empty());
        assert(name_value(comps) =~= Seq::<u8>::empty());
        assert(name_value(comps.push(c)) =~= name_value(comps) + tlv(TLV_COMPONENT, c));
    } else {
        lemma_name_value_push(comps.skip(1), c);
        assert(comps.push(c).skip(1) =~= comps.skip(1).push(c));
        assert(comps.push(c)[0] == comps[0]);
        assert(name_value(comps.push(c)) =~= name_value(comps) + tlv(TLV_COMPONENT, c));
    }
}

/// Decoding the value of an encoded name gives the components back.
pub proof fn lemma_components_round_trip(comps: Seq<Seq<u8>>)
    requires
        forall|i: int| 0 <= i < comps.len() ==> (#[trigger] comps[i]).len() <= 65535,
    ensures
        parse_components(name_value(comps)) == Some(comps),
    decreases comps.len(),
{
    if comps.len() > 0 {
        let rest = name_value(comps.skip(1));
        lemma_components_round_trip(comps.skip(1));
        lemma_parse_tlv(TLV_COMPONENT, comps[0], rest);
        assert(name_value(comps).len() > rest.len());
        assert(seq![comps[0]] + comps.skip(1) =~= comps);
    }
}

/// Every component of an encoded name is at most as long as the encoding.
pub proof fn lemma_name_value_bounds(comps: Seq<Seq<u8>>)
    ensures
        forall|i: int| 0 <= i < comps.len() ==> (#[trigger] comps[i]).len() + 2 <= name_value(comps).len(),
    decreases comps.len(),
{
    if comps.len() > 0 {
        lemma_name_value_bounds(comps.skip(1));
        assert forall|i: int| 0 <= i < comps.len() implies (#[trigger] comps[i]).len() + 2
            <= name_value(comps).len() by {
            if i > 0 {
                assert(comps.skip(1)[i - 1] == comps[i]);
            }
        }
    }
}

/// The prefix relation is reflexive.
pub proof fn lemma_prefix_reflexive(a: Seq<Seq<u8>>)
    ensures
        is_prefix(a, a),
{
}

/// The prefix relation is transitive.
pub proof fn lemma_prefix_transitive(a: Seq<Seq<u8>>, b: Seq<Seq<u8>>, c: Seq<Seq<u8>>)
    requires
        is_prefix(a, b),
        is_prefix(b, c),
    ensures
        is_prefix(a, c),
{
}

/// Two names that are prefixes of each other are equal.
pub proof fn lemma_prefix_antisymmetric(a: Seq<Seq<u8>>, b: Seq<Seq<u8>>)
    requires
        is_prefix(a, b),
        is_prefix(b, a),
    ensures
        a == b,
{
    assert(a =~= b);
}

proof fn lemma_segment_len(s: Seq<u8>, j: int)
    requires
        0 <= j <= s.len(),
        forall|k: int| 0 <= k < j ==> s[k] != SLASH,
        j == s.len() || s[j] == SLASH,
    ensures
        segment_len(s) == j,
    decreases s.len(),
{
    if j > 0 {
        let t = s.skip(1);
        assert forall|k: int| 0 <= k < j - 1 implies t[k] != SLASH by {
            assert(t[k] == s[k + 1]);
        }
        lemma_segment_len(t, j - 1);
    }
}

/// Whether two byte strings are equal.
pub fn bytes_eq(a: &[u8], b: &[u8]) -> (r: bool)
    ensures
        r == (a@ == b@),
{
    if a.len() != b.len() {
        return false;
    }
    let mut i: usize = 0;
    while i < a.len()
        invariant
            a@.len() == b@.len(),
            0 <= i <= a@.len(),
            forall|k: int| 0 <= k < i ==> a@[k] == b@[k],
        decreases a@.len() - i,
    {
        if a[i] != b[i] {
            return false;
        }
        i += 1;
    }
    assert(a@ =~= b@);
    true
}

/// Whether `a` comes before `b` in lexicographic order.
pub fn bytes_less(a: &[u8], b: &[u8]) -> (r: bool)
    ensures
        r == bytes_lt(a@, b@),
{
    let mut i: usize = 0;
    assert(a@.take(0) =~= b@.take(0));
    while i < a.len() && i < b.len()
        invariant
            0 <= i <= a@.len(),
            i <= b@.len(),
            a@.take(i as int) == b@.take(i as int),
        decreases a@.len() - i,
    {
        if a[i] != b[i] {
            let less = a[i] < b[i];
            proof {
                lemma_first_difference(a@, b@, i as int);
            }
            return less;
        }
        assert(a@.take(i + 1) =~= a@.take(i as int).push(a@[i as int]));
        assert(b@.take(i + 1) =~= b@.take(i as int).push(b@[i as int]));
        i += 1;
    }
    proof {
        lemma_first_difference(a@, b@, i as int);
    }
    i < b.len()
}

proof fn lemma_first_difference<T>(a: Seq<T>, b: Seq<T>, i: int)
    requires
        0 <= i <= a.len(),
        i <= b.len(),
        a.take(i) == b.take(i),
        i == a.len() || i == b.len() || a[i] != b[i],
    ensures
        forall|k: int| 0 <= k <= a.len() && k <= b.len() && #[trigger] a.take(k) == b.take(k) ==> k <= i,
        forall|k: int|
            0 <= k < i ==> !(#[trigger] a.take(k) == b.take(k) && (k == a.len() || k == b.len() || a[k] != b[k])),
{
    assert forall|k: int| 0 <= k <= a.len() && k <= b.len() && #[trigger] a.take(k) == b.take(k) implies k
        <= i by {
        if k > i {
            assert(a.take(k)[i] == a[i]);
            assert(b.take(k)[i] == b[i]);
        }
    }
    assert forall|k: int| 0 <= k < i implies !(#[trigger] a.take(k) == b.take(k) && (k == a.len() || k
        == b.len() || a[k] != b[k])) by {
        assert(a.take(i)[k] == a[k]);
        assert(b.take(i)[k] == b[k]);
    }
}

fn hex_digit_of(v: u8) -> (r: u8)
    requires
        v < 16,
    ensures
        r == hex_digit(v),
        r < 128,
{
    if v < 10 {
        0x30 + v
    } else {
        0x41 + (v - 10)
    }
}

/// What `String::from_utf8_lossy` makes of a byte string.
pub uninterp spec fn utf8_lossy(bytes: Seq<u8>) -> Seq<char>;

/// Turns octets into a string with `String::from_utf8_lossy`, which replaces
/// each invalid sequence by U+FFFD. On octets that are all below 128 it
/// substitutes nothing: the string then has one character for each octet,
/// with the octet's code.
#[verifier::external_body]
pub(crate) fn string_from_utf8_lossy(bytes: &[u8]) -> (s: String)
    ensures
        s@ == utf8_lossy(bytes@),
        (forall|i: int| 0 <= i < bytes@.len() ==> bytes@[i] < 128) ==> s@.len() == bytes@.len() && (forall|
            i: int,
        | 0 <= i < bytes@.len() ==> s@[i] == bytes@[i] as char),
{
    String::from_utf8_lossy(bytes).into_owned()
}

impl Component {
    /// A component holding `value`.
    pub fn new(value: Vec<u8>) -> (r: Self)
        ensures
            r@ == value@,
    {
        Component { value }
    }

    /// A component holding the UTF-8 octets of `s`.
    pub fn from_str(s: &str) -> (r: Self)
        ensures
            r@ == s.spec_bytes(),
    {
        Component { value: slice_to_vec(s.as_bytes()) }
    }

    /// The octets of the component.
    pub fn value(&self) -> (r: &[u8])
        ensures
            r@ == self@,
    {
        self.value.as_slice()
    }

    /// Number of octets.
    pub fn len(&self) -> (r: usize)
        ensures
            r == self@.len(),
    {
        self.value.len()
    }

    /// Whether the component holds no octet.
    pub fn is_empty(&self) -> (r: bool)
        ensures
            r == (self@.len() == 0),
    {
        self.value.len() == 0
    }

    /// A copy of the component.
    pub fn duplicate(&self) -> (r: Self)
        ensures
            r@ == self@,
    {
        Component { value: slice_to_vec(self.value.as_slice()) }
    }

    /// Whether two components hold the same octets.
    pub fn same(&self, other: &Component) -> (r: bool)
        ensures
            r == (self@ == other@),
    {
        bytes_eq(self.value.as_slice(), other.value.as_slice())
    }

    /// The component as a TLV element, or `InvalidArgument` where it is too
    /// long for a length field.
    pub fn to_tlv(&self) -> (r: Result<Vec<u8>, Error>)
        ensures
            self@.len() <= MAX_VALUE_LEN ==> r is Ok && r->Ok_0@ == tlv(TLV_COMPONENT, self@),
            self@.len() > MAX_VALUE_LEN ==> r == Err::<Vec<u8>, Error>(Error::InvalidArgument),
    {
        if self.value.len() > MAX_VALUE_LEN {
            return Err(Error::InvalidArgument);
        }
        let mut out: Vec<u8> = Vec::new();
        put_tlv(&mut out, TLV_COMPONENT, self.value.as_slice());
        assert(out@ =~= tlv(TLV_COMPONENT, self@));
        Ok(out)
    }

    /// Reads one component element from the front of `buf`; `Parse` where the
    /// element is truncated or of another type.
    pub fn from_tlv(buf: &[u8]) -> (r: Result<Component, Error>)
        ensures
            match parse_tlv(buf@) {
                Some(e) => if e.typ == TLV_COMPONENT {
                    r is Ok && r->Ok_0@ == e.value
                } else {
                    r == Err::<Component, Error>(Error::Parse)
                },
                None => r == Err::<Component, Error>(Error::Parse),
            },
    {
        assert(buf@.subrange(0, buf@.len() as int) =~= buf@);
        match read_tlv(buf, 0, buf.len()) {
            Some(span) => {
                if span.typ != TLV_COMPONENT {
                    return Err(Error::Parse);
                }
                Ok(Component { value: copy_range(buf, span.start, span.end) })
            },
            None => Err(Error::Parse),
        }
    }

    /// The textual form of the component, in ASCII octets.
    pub fn escaped(&self) -> (r: Vec<u8>)
        ensures
            r@ == escape(self@),
            forall|i: int| 0 <= i < r@.len() ==> r@[i] < 128,
    {
        let mut out: Vec<u8> = Vec::new();
        push_escaped(&mut out, self.value.as_slice());
        out
    }

    /// The textual form of the component.
    pub fn to_string(&self) -> (r: String)
        ensures
            r@.len() == escape(self@).len(),
            forall|i: int| 0 <= i < r@.len() ==> r@[i] == escape(self@)[i] as char,
    {
        let out = self.escaped();
        string_from_utf8_lossy(out.as_slice())
    }
}

/// A copy of `buf[start..end]`.
pub fn copy_range(buf: &[u8], start: usize, end: usize) -> (r: Vec<u8>)
    requires
        start <= end <= buf@.len(),
    ensures
        r@ == buf@.subrange(start as int, end as int),
{
    let mut out: Vec<u8> = Vec::new();
    let mut i: usize = start;
    while i < end
        invariant
            start <= i <= end <= buf@.len(),
            out@ == buf@.subrange(start as int, i as int),
        decreases end - i,
    {
        out.push(buf[i]);
        assert(out@ =~= buf@.subrange(start as int, i + 1));
        i += 1;
    }
    out
}

fn push_escaped(out: &mut Vec<u8>, s: &[u8])
    requires
        forall|i: int| 0 <= i < old(out)@.len() ==> old(out)@[i] < 128,
    ensures
        final(out)@ == old(out)@ + escape(s@),
        forall|i: int| 0 <= i < final(out)@.len() ==> final(out)@[i] < 128,
{
    let mut i: usize = 0;
    assert(s@.take(0) =~= Seq::<u8>::empty());
    assert(out@ =~= old(out)@ + escape(s@.take(0)));
    while i < s.len()
        invariant
            0 <= i <= s@.len(),
            out@ == old(out)@ + escape(s@.take(i as int)),
            forall|k: int| 0 <= k < out@.len() ==> out@[k] < 128,
        decreases s@.len() - i,
    {
        let b: u8 = s[i];
        let ghost before = out@;
        if 0x21 <= b && b <= 0x7E && b != SLASH && b != PERCENT {
            out.push(b);
        } else {
            out.push(PERCENT);
            out.push(hex_digit_of(b / 16));
            out.push(hex_digit_of(b % 16));
        }
        assert(out@ =~= before + escape_byte(b));
        assert(s@.take(i + 1).drop_last() =~= s@.take(i as int));
        assert(s@.take(i + 1).last() == b);
        i += 1;
    }
    assert(s@.take(s@.len() as int) =~= s@);
}

impl Name {
    /// The empty name.
    pub fn new() -> (r: Self)
        ensures
            r@.len() == 0,
    {
        Name { components: Vec::new() }
    }

    /// The name made of `components`, in order.
    pub fn from_components(components: Vec<Component>) -> (r: Self)
        ensures
            r.components == components,
    {
        Name { components }
    }

    /// Parses the textual form: the URI must start with `/`; its components
    /// are the non-empty segments between the `/` characters.
    pub fn from_uri(uri: &str) -> (r: Result<Name, Error>)
        ensures
            uri.spec_bytes().len() > 0 && uri.spec_bytes()[0] == SLASH ==> r is Ok && r->Ok_0@ == split_uri(
                uri.spec_bytes(),
            ),
            !(uri.spec_bytes().len() > 0 && uri.spec_bytes()[0] == SLASH) ==> r == Err::<Name, Error>(
                Error::InvalidArgument,
            ),
    {
        let s = uri.as_bytes();
        if s.len() == 0 || s[0] != SLASH {
            return Err(Error::InvalidArgument);
        }
        let mut name = Name::new();
        let mut i: usize = 0;
        assert(s@.skip(0) =~= s@);
        assert(name@ =~= Seq::<Seq<u8>>::empty());
        while i < s.len()
            invariant
                0 <= i <= s@.len(),
                split_uri(s@) == name@ + split_uri(s@.skip(i as int)),
            decreases s@.len() - i,
        {
            let ghost tail = s@.skip(i as int);
            if s[i] == SLASH {
                assert(tail[0] == SLASH);
                assert(tail.skip(1) =~= s@.skip(i + 1));
                i += 1;
            } else {
                let mut j: usize = i;
                while j < s.len() && s[j] != SLASH
                    invariant
                        i <= j <= s@.len(),
                        forall|k: int| i <= k < j ==> s@[k] != SLASH,
                    decreases s@.len() - j,
                {
                    j += 1;
                }
                proof {
                    assert forall|k: int| 0 <= k < j - i implies tail[k] != SLASH by {
                        assert(tail[k] == s@[i + k]);
                    }
                    lemma_segment_len(tail, j - i);
                    assert(tail.take(j - i) =~= s@.subrange(i as int, j as int));
                    assert(tail.skip(j - i) =~= s@.skip(j as int));
                }
                let ghost before = name@;
                let c = Component { value: copy_range(s, i, j) };
                name.components.push(c);
                assert(name@ =~= before + seq![tail.take(j - i)]);
                assert(before + (seq![tail.take(j - i)] + split_uri(s@.skip(j as int))) =~= name@ + split_uri(
                    s@.skip(j as int),
                ));
                i = j;
            }
        }
        assert(name@ + Seq::<Seq<u8>>::empty() =~= name@);
        Ok(name)
    }

    /// The name for `uri`, or the empty name where `uri` does not parse.
    pub fn from(uri: &str) -> (r: Name)
        ensures
            uri.spec_bytes().len() > 0 && uri.spec_bytes()[0] == SLASH ==> r@ == split_uri(uri.spec_bytes()),
            !(uri.spec_bytes().len() > 0 && uri.spec_bytes()[0] == SLASH) ==> r@.len() == 0,
    {
        match Name::from_uri(uri) {
            Ok(n) => n,
            Err(_) => Name::new(),
        }
    }

    /// Appends a component.
    pub fn push(&mut self, component: Component)
        ensures
            final(self)@ == old(self)@.push(component@),
    {
        self.components.push(component);
        assert(self@ =~= old(self)@.push(component@));
    }

    /// Appends a component holding the UTF-8 octets of `s`.
    pub fn push_str(&mut self, s: &str)
        ensures
            final(self)@ == old(self)@.push(s.spec_bytes()),
    {
        self.push(Component::from_str(s));
    }

    /// Keeps the first `len` components, where the name has more.
    pub fn truncate(&mut self, len: usize)
        ensures
            final(self)@ == if len <= old(self)@.len() { old(self)@.take(len as int) } else { old(self)@ },
    {
        self.components.truncate(len);
        assert(self@ =~= if len <= old(self)@.len() { old(self)@.take(len as int) } else { old(self)@ });
    }

    /// Removes every component.
    pub fn clear(&mut self)
        ensures
            final(self)@.len() == 0,
    {
        self.components.clear();
    }

    /// The components, first to last.
    pub fn components(&self) -> (r: &[Component])
        ensures
            r@ == self.components@,
    {
        self.components.as_slice()
    }

    /// Number of components.
    pub fn len(&self) -> (r: usize)
        ensures
            r == self@.len(),
    {
        self.components.len()
    }

    /// Whether the name has no component.
    pub fn is_empty(&self) -> (r: bool)
        ensures
            r == (self@.len() == 0),
    {
        self.components.len() == 0
    }

    /// The component at `index`, if the name is that long.
    pub fn get(&self, index: usize) -> (r: Option<&Component>)
        ensures
            index < self@.len() ==> r is Some && r->0@ == self@[index as int],
            index >= self@.len() ==> r is None,
    {
        if index < self.components.len() {
            Some(&self.components[index])
        } else {
            None
        }
    }

    /// A copy of the name.
    pub fn duplicate(&self) -> (r: Name)
        ensures
            r@ == self@,
    {
        let mut out = Name::new();
        let mut i: usize = 0;
        while i < self.components.len()
            invariant
                0 <= i <= self@.len(),
                out@ == self@.take(i as int),
            decreases self@.len() - i,
        {
            out.push(self.components[i].duplicate());
            assert(out@ =~= self@.take(i + 1));
            i += 1;
        }
        assert(self@.take(self@.len() as int) =~= self@);
        out
    }

    /// Whether two names are equal, component by component.
    pub fn same(&self, other: &Name) -> (r: bool)
        ensures
            r == (self@ == other@),
    {
        if self.components.len() != other.components.len() {
            return false;
        }
        let mut i: usize = 0;
        while i < self.components.len()
            invariant
                self@.len() == other@.len(),
                0 <= i <= self@.len(),
                forall|k: int| 0 <= k < i ==> self@[k] == other@[k],
            decreases self@.len() - i,
        {
            if !self.components[i].same(&other.components[i]) {
                assert(self@[i as int] != other@[i as int]);
                return false;
            }
            i += 1;
        }
        assert(self@ =~= other@);
        true
    }

    /// Whether this name comes before `other` in component-wise
    /// lexicographic order.
    pub fn precedes(&self, other: &Name) -> (r: bool)
        ensures
            r == name_lt(self@, other@),
    {
        let mut i: usize = 0;
        assert(self@.take(0) =~= other@.take(0));
        while i < self.components.len() && i < other.components.len()
            invariant
                0 <= i <= self@.len(),
                i <= other@.len(),
                self@.take(i as int) == other@.take(i as int),
            decreases self@.len() - i,
        {
            if !self.components[i].same(&other.components[i]) {
                let less = bytes_less(self.components[i].value.as_slice(), other.components[i].value.as_slice());
                proof {
                    lemma_first_difference(self@, other@, i as int);
                }
                return less;
            }
            assert(self@.take(i + 1) =~= self@.take(i as int).push(self@[i as int]));
            assert(other@.take(i + 1) =~= other@.take(i as int).push(other@[i as int]));
            i += 1;
        }
        proof {
            lemma_first_difference(self@, other@, i as int);
        }
        i < other.components.len()
    }

    /// Whether `prefix` is a prefix of this name.
    pub fn starts_with(&self, prefix: &Name) -> (r: bool)
        ensures
            r == is_prefix(prefix@, self@),
    {
        if prefix.components.len() > self.components.len() {
            return false;
        }
        let mut i: usize = 0;
        while i < prefix.components.len()
            invariant
                prefix@.len() <= self@.len(),
                0 <= i <= prefix@.len(),
                forall|k: int| 0 <= k < i ==> prefix@[k] == self@[k],
            decreases prefix@.len() - i,
        {
            if !self.components[i].same(&prefix.components[i]) {
                assert(prefix@[i as int] != self@[i as int]);
                return false;
            }
            i += 1;
        }
        true
    }

    /// Whether this name has the prefix `prefix`.
    pub fn has_prefix(&self, prefix: &Name) -> (r: bool)
        ensures
            r == is_prefix(prefix@, self@),
    {
        self.starts_with(prefix)
    }

    /// Whether this name is a prefix of `other`.
    pub fn is_prefix_of(&self, other: &Name) -> (r: bool)
        ensures
            r == is_prefix(self@, other@),
    {
        other.starts_with(self)
    }

    /// The value of the name element: the component elements in order, or
    /// `InvalidArgument` where a component is too long for a length field.
    pub fn value_bytes(&self) -> (r: Result<Vec<u8>, Error>)
        ensures
            (forall|i: int| 0 <= i < self@.len() ==> (#[trigger] self@[i]).len() <= MAX_VALUE_LEN) ==> r is Ok
                && r->Ok_0@ == name_value(self@),
            !(forall|i: int| 0 <= i < self@.len() ==> (#[trigger] self@[i]).len() <= MAX_VALUE_LEN) ==> r
                == Err::<Vec<u8>, Error>(Error::InvalidArgument),
    {
        let mut out: Vec<u8> = Vec::new();
        let mut i: usize = 0;
        assert(self@.take(0) =~= Seq::<Seq<u8>>::empty());
        while i < self.components.len()
            invariant
                0 <= i <= self@.len(),
                out@ == name_value(self@.take(i as int)),
                forall|k: int| 0 <= k < i ==> (#[trigger] self@[k]).len() <= MAX_VALUE_LEN,
            decreases self@.len() - i,
        {
            let c = &self.components[i];
            if c.value.len() > MAX_VALUE_LEN {
                assert(self@[i as int].len() > MAX_VALUE_LEN);
                return Err(Error::InvalidArgument);
            }
            put_tlv(&mut out, TLV_COMPONENT, c.value.as_slice());
            proof {
                lemma_name_value_push(self@.take(i as int), c@);
                assert(self@.take(i as int).push(c@) =~= self@.take(i + 1));
            }
            i += 1;
        }
        assert(self@.take(self@.len() as int) =~= self@);
        Ok(out)
    }

    /// Whether the name fits a name element.
    pub open spec fn encodable(&self) -> bool {
        name_value(self@).len() <= MAX_VALUE_LEN
    }

    /// The name as a TLV element, or `InvalidArgument` where it does not fit.
    pub fn to_tlv(&self) -> (r: Result<Vec<u8>, Error>)
        ensures
            self.encodable() ==> r is Ok && r->Ok_0@ == tlv(TLV_NAME, name_value(self@)),
            !self.encodable() ==> r == Err::<Vec<u8>, Error>(Error::InvalidArgument),
    {
        proof {
            lemma_name_value_bounds(self@);
        }
        match self.value_bytes() {
            Ok(v) => {
                if v.len() > MAX_VALUE_LEN {
                    return Err(Error::InvalidArgument);
                }
                let mut out: Vec<u8> = Vec::new();
                put_tlv(&mut out, TLV_NAME, v.as_slice());
                assert(out@ =~= tlv(TLV_NAME, name_value(self@)));
                Ok(out)
            },
            Err(e) => Err(Error::InvalidArgument),
        }
    }

    /// Reads the components in `buf[start..end]`, the value of a name
    /// element.
    pub fn from_value(buf: &[u8], start: usize, end: usize) -> (r: Result<Name, Error>)
        requires
            start <= end <= buf@.len(),
        ensures
            match parse_components(buf@.subrange(start as int, end as int)) {
                Some(c) => r is Ok && r->Ok_0@ == c,
                None => r == Err::<Name, Error>(Error::Parse),
            },
    {
        let mut name = Name::new();
        let mut pos: usize = start;
        let ghost whole = buf@.subrange(start as int, end as int);
        assert(name@ =~= Seq::<Seq<u8>>::empty());
        while pos < end
            invariant
                start <= pos <= end <= buf@.len(),
                whole == buf@.subrange(start as int, end as int),
                parse_components(whole) == match parse_components(buf@.subrange(pos as int, end as int)) {
                    Some(c) => Some(name@ + c),
                    None => None,
                },
            decreases end - pos,
        {
            let ghost cur = buf@.subrange(pos as int, end as int);
            proof {
                lemma_parse_tlv_shrinks(cur);
            }
            match read_tlv(buf, pos, end) {
                Some(span) => {
                    if span.typ != TLV_COMPONENT {
                        return Err(Error::Parse);
                    }
                    let ghost before = name@;
                    let c = Component { value: copy_range(buf, span.start, span.end) };
                    name.components.push(c);
                    proof {
                        assert(name@ =~= before.push(c@));
                        let rest = buf@.subrange(span.end as int, end as int);
                        match parse_components(rest) {
                            Some(r) => {
                                assert(before + (seq![c@] + r) =~= name@ + r);
                            },
                            None => {},
                        }
                    }
                    pos = span.end;
                },
                None => {
                    return Err(Error::Parse);
                },
            }
        }
        assert(buf@.subrange(pos as int, end as int) =~= Seq::<u8>::empty());
        assert(name@ + Seq::<Seq<u8>>::empty() =~= name@);
        Ok(name)
    }

    /// Reads a name element from the front of `buf`.
    pub fn from_tlv(buf: &[u8]) -> (r: Result<Name, Error>)
        ensures
            r is Ok <==> decode_name(buf@) is Some,
            r is Ok ==> r->Ok_0@ == decode_name(buf@)->0,
            r is Err ==> r == Err::<Name, Error>(Error::Parse),
    {
        assert(buf@.subrange(0, buf@.len() as int) =~= buf@);
        match read_tlv(buf, 0, buf.len()) {
            Some(span) => {
                if span.typ != TLV_NAME {
                    return Err(Error::Parse);
                }
                Name::from_value(buf, span.start, span.end)
            },
            None => Err(Error::Parse),
        }
    }

    /// The canonical textual form in ASCII octets: `/` before each component,
    /// each octet that is not a printable character other than `/` and `%`
    /// written as `%` and two hexadecimal digits.
    pub fn to_uri_bytes(&self) -> (r: Vec<u8>)
        ensures
            r@ == render(self@),
            forall|i: int| 0 <= i < r@.len() ==> r@[i] < 128,
    {
        let mut out: Vec<u8> = Vec::new();
        if self.components.len() == 0 {
            out.push(SLASH);
            assert(out@ =~= render(self@));
            return out;
        }
        let mut i: usize = 0;
        assert(self@.take(0) =~= Seq::<Seq<u8>>::empty());
        while i < self.components.len()
            invariant
                0 <= i <= self@.len(),
                out@ == render_components(self@.take(i as int)),
                forall|k: int| 0 <= k < out@.len() ==> out@[k] < 128,
            decreases self@.len() - i,
        {
            let ghost before = out@;
            out.push(SLASH);
            push_escaped(&mut out, self.components[i].value.as_slice());
            proof {
                assert(self@.take(i + 1).drop_last() =~= self@.take(i as int));
                assert(self@.take(i + 1).last() == self@[i as int]);
                assert(out@ =~= before + seq![SLASH] + escape(self@[i as int]));
            }
            i += 1;
        }
        assert(self@.take(self@.len() as int) =~= self@);
        out
    }

    /// The canonical textual form.
    pub fn to_string(&self) -> (r: String)
        ensures
            r@.len() == render(self@).len(),
            forall|i: int| 0 <= i < r@.len() ==> r@[i] == render(self@)[i] as char,
    {
        let out = self.to_uri_bytes();
        string_from_utf8_lossy(out.as_slice())
    }

    /// The name as a URI: the scheme `ndn:` and the canonical textual form.
    pub fn to_uri(&self) -> (r: String)
        ensures
            r@.len() == (uri_scheme() + render(self@)).len(),
            forall|i: int| 0 <= i < r@.len() ==> r@[i] == (uri_scheme() + render(self@))[i] as char,
    {
        let mut out: Vec<u8> = Vec::new();
        out.push(0x6E);
        out.push(0x64);
        out.push(0x6E);
        out.push(0x3A);
        let text = self.to_uri_bytes();
        out.extend_from_slice(text.as_slice());
        assert(out@ =~= uri_scheme() + render(self@));
        string_from_utf8_lossy(out.as_slice())
    }

    /// All the octets of the components, one after the other.
    pub fn flat_bytes(&self) -> (r: Vec<u8>)
        ensures
            r@ == flatten(self@),
    {
        let mut out: Vec<u8> = Vec::new();
        let mut i: usize = 0;
        assert(self@.take(0) =~= Seq::<Seq<u8>>::empty());
        while i < self.components.len()
            invariant
                0 <= i <= self@.len(),
                out@ == flatten(self@.take(i as int)),
            decreases self@.len() - i,
        {
            out.extend_from_slice(self.components[i].value.as_slice());
            proof {
                assert(self@.take(i + 1).drop_last() =~= self@.take(i as int));
                assert(self@.take(i + 1).last() == self@[i as int]);
            }
            i += 1;
        }
        assert(self@.take(self@.len() as int) =~= self@);
        out
    }

    /// The SHA-256 digest of the components' octets.
    pub fn digest(&self) -> (r: [u8; 32])
        ensures
            r@ == sha256_of(flatten(self@)),
    {
        let flat = self.flat_bytes();
        sha256(flat.as_slice())
    }
}

/// The name held in the name element at the front of `s`.
pub open spec fn decode_name(s: Seq<u8>) -> Option<Seq<Seq<u8>>> {
    match parse_tlv(s) {
        Some(e) => if e.typ == TLV_NAME {
            parse_components(e.value)
        } else {
            None
        },
        None => None,
    }
}

/// The SHA-256 digest of a byte string.
pub uninterp spec fn sha256_of(data: Seq<u8>) -> Seq<u8>;

/// Computes a SHA-256 digest with `sha2::Sha256::digest`: the 32 octets that
/// the hash function gives for `data`.
#[verifier::external_body]
pub(crate) fn sha256(data: &[u8]) -> (r: [u8; 32])
    ensures
        r@ == sha256_of(data@),
        r@.len() == 32,
{
    <sha2::Sha256 as sha2::Digest>::digest(data).into()
}

} // verus!
