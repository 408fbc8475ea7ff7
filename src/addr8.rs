//! The 64-bit address (EUI-64).
use crate::addr::MacAddr;
use crate::error::ParseMacAddrError;
use crate::order::{cmp_from, compare_octets, lemma_cmp_lexicographic, lex_less};
use crate::text::{
    as_chars, format_bytes, format_octets, lemma_format_ascii, lemma_parse_format, parse_octets,
    parse_spec,
};
use core::cmp::Ordering;
use vstd::prelude::*;
use vstd::std_specs::cmp::PartialOrdSpec;
use vstd::std_specs::convert::TryFromSpec;
use vstd::string::StringSliceAdditionalSpecFns;
use vstd::utf8::{encode_utf8, is_ascii_chars, is_ascii_chars_encode_utf8};

verus! {

/// 64-bit MAC-like address (IEEE EUI-64), octets in transmission order.
#[derive(Clone, Copy, Debug, PartialEq, Eq, Structural, Ord, Hash)]
pub struct MacAddr8(
    pub u8,
    pub u8,
    pub u8,
    pub u8,
    pub u8,
    pub u8,
    pub u8,
    pub u8,
);

impl View for MacAddr8 {
    type V = Seq<u8>;

    open spec fn view(&self) -> Seq<u8> {
        seq![self.0, self.1, self.2, self.3, self.4, self.5, self.6, self.7]
    }
}

impl MacAddr8 {
    /// The address whose octets are the eight of `o`.
    pub open spec fn from_seq(o: Seq<u8>) -> MacAddr8 {
        MacAddr8(o[0], o[1], o[2], o[3], o[4], o[5], o[6], o[7])
    }

    /// The text form, two hexadecimal digits per octet joined by colons.
    pub open spec fn text(self, upper: bool) -> Seq<char> {
        as_chars(format_bytes(self@, upper))
    }

    /// What the strict parser makes of the UTF-8 bytes `b`.
    pub open spec fn parse_bytes(b: Seq<u8>) -> Result<MacAddr8, ParseMacAddrError> {
        match parse_spec(b, 8) {
            Ok(o) => Ok(MacAddr8::from_seq(o)),
            Err(e) => Err(e),
        }
    }

    /// Bit 0 of the first octet is set.
    pub open spec fn spec_is_multicast(self) -> bool {
        self.0 & 1 == 1
    }

    /// Bit 0 of the first octet is clear.
    pub open spec fn spec_is_unicast(self) -> bool {
        self.0 & 1 == 0
    }

    /// Bit 1 of the first octet is set.
    pub open spec fn spec_is_locally_administered(self) -> bool {
        self.0 & 2 == 2
    }

    /// Bit 1 of the first octet is clear.
    pub open spec fn spec_is_universal(self) -> bool {
        self.0 & 2 == 0
    }

    /// Constructs a new address from eight octets.
    pub fn new(a: u8, b: u8, c: u8, d: u8, e: u8, f: u8, g: u8, h: u8) -> (r: MacAddr8)
        ensures
            r@ == seq![a, b, c, d, e, f, g, h],
    {
        MacAddr8(a, b, c, d, e, f, g, h)
    }

    /// Constructs an address from a `[u8; 8]` array.
    pub fn from_octets(octets: [u8; 8]) -> (r: MacAddr8)
        ensures
            r@ == octets@,
    {
        let r = MacAddr8(
            octets[0],
            octets[1],
            octets[2],
            octets[3],
            octets[4],
            octets[5],
            octets[6],
            octets[7],
        );
        assert(r@ =~= octets@);
        r
    }

    /// Returns the eight octets of this address.
    pub fn octets(&self) -> (r: [u8; 8])
        ensures
            r@ == self@,
    {
        let r = [self.0, self.1, self.2, self.3, self.4, self.5, self.6, self.7];
        assert(r@ =~= self@);
        r
    }

    /// The all-zero address.
    pub fn zero() -> (r: MacAddr8)
        ensures
            r@ == seq![0u8, 0, 0, 0, 0, 0, 0, 0],
    {
        MacAddr8(0, 0, 0, 0, 0, 0, 0, 0)
    }

    /// The broadcast address, all octets `0xff`.
    pub fn broadcast() -> (r: MacAddr8)
        ensures
            r@ == seq![0xffu8, 0xff, 0xff, 0xff, 0xff, 0xff, 0xff, 0xff],
    {
        MacAddr8(0xff, 0xff, 0xff, 0xff, 0xff, 0xff, 0xff, 0xff)
    }

    /// Returns the address as lowercase colon-separated hex (`xx:xx:xx:xx:xx:xx:xx:xx`).
    pub fn address(&self) -> (r: String)
        ensures
            r@ == self.text(false),
    {
        let o = self.octets();
        format_octets(&o, false)
    }

    /// The display form: the same text as [`MacAddr8::address`].
    pub fn to_string(&self) -> (r: String)
        ensures
            r@ == self.text(false),
    {
        self.address()
    }

    /// Uppercase colon-separated hex (`XX:XX:XX:XX:XX:XX:XX:XX`).
    pub fn to_upper_hex(&self) -> (r: String)
        ensures
            r@ == self.text(true),
    {
        let o = self.octets();
        format_octets(&o, true)
    }

    /// Returns `true` if the address is multicast.
    pub fn is_multicast(&self) -> (r: bool)
        ensures
            r == self.spec_is_multicast(),
    {
        self.0 & 0x01 == 0x01
    }

    /// Returns `true` if the address is unicast.
    pub fn is_unicast(&self) -> (r: bool)
        ensures
            r == self.spec_is_unicast(),
    {
        let x = self.0;
        assert((x & 1 == 1) == !(x & 1 == 0)) by (bit_vector);
        !self.is_multicast()
    }

    /// Returns `true` if the address is locally administered.
    pub fn is_locally_administered(&self) -> (r: bool)
        ensures
            r == self.spec_is_locally_administered(),
    {
        self.0 & 0x02 == 0x02
    }

    /// Returns `true` if the address is universally administered.
    pub fn is_universal(&self) -> (r: bool)
        ensures
            r == self.spec_is_universal(),
    {
        let x = self.0;
        assert((x & 2 == 2) == !(x & 2 == 0)) by (bit_vector);
        !self.is_locally_administered()
    }

    /// Returns the OUI (the first three octets).
    pub fn oui(&self) -> (r: [u8; 3])
        ensures
            r@ == self@.subrange(0, 3),
    {
        let r = [self.0, self.1, self.2];
        assert(r@ =~= self@.subrange(0, 3));
        r
    }

    /// Parses the strict form: exactly eight colon-separated hexadecimal octets.
    pub fn parse(s: &str) -> (r: Result<MacAddr8, ParseMacAddrError>)
        ensures
            r == MacAddr8::parse_bytes(s.spec_bytes()),
    {
        match parse_octets(s.as_bytes(), 8) {
            Ok(v) => Ok(MacAddr8(v[0], v[1], v[2], v[3], v[4], v[5], v[6], v[7])),
            Err(e) => Err(e),
        }
    }

    /// The modified EUI-64 embedding of a 48-bit address: its OUI, then
    /// `ff:fe`, then its last three octets.
    pub open spec fn spec_from_eui48(mac: MacAddr) -> MacAddr8 {
        MacAddr8(mac.0, mac.1, mac.2, 0xff, 0xfe, mac.3, mac.4, mac.5)
    }

    /// The 48-bit address embedded here, where octets 3 and 4 are `ff:fe`.
    pub open spec fn spec_to_eui48(self) -> Option<MacAddr> {
        if self.3 == 0xff && self.4 == 0xfe {
            Some(MacAddr(self.0, self.1, self.2, self.5, self.6, self.7))
        } else {
            None
        }
    }

    /// Converts an EUI-48 address to EUI-64 by inserting `ff:fe` after the OUI.
    pub fn from_eui48(mac: MacAddr) -> (r: MacAddr8)
        ensures
            r == MacAddr8::spec_from_eui48(mac),
            r@ == mac@.subrange(0, 3) + seq![0xffu8, 0xfe] + mac@.subrange(3, 6),
    {
        let o = mac.octets();
        let r = MacAddr8(o[0], o[1], o[2], 0xff, 0xfe, o[3], o[4], o[5]);
        assert(r@ =~= mac@.subrange(0, 3) + seq![0xffu8, 0xfe] + mac@.subrange(3, 6));
        r
    }

    /// Converts to EUI-48 when this address carries the `ff:fe` embedding
    /// pattern in octets 3 and 4; otherwise returns `None`.
    pub fn to_eui48(&self) -> (r: Option<MacAddr>)
        ensures
            r == self.spec_to_eui48(),
            r is Some <==> (self@[3] == 0xff && self@[4] == 0xfe),
            r is Some ==> r->0@ == self@.subrange(0, 3) + self@.subrange(5, 8),
    {
        if self.3 == 0xff && self.4 == 0xfe {
            let r = MacAddr::new(self.0, self.1, self.2, self.5, self.6, self.7);
            assert(r@ =~= self@.subrange(0, 3) + self@.subrange(5, 8));
            Some(r)
        } else {
            None
        }
    }
}

impl MacAddr8 {
    /// An address and its eight octets determine each other.
    pub proof fn lemma_octets_round_trip(m: MacAddr8, o: Seq<u8>)
        requires
            o.len() == 8,
        ensures
            MacAddr8::from_seq(o)@ == o,
            MacAddr8::from_seq(m@) == m,
    {
        assert(MacAddr8::from_seq(o)@ =~= o);
    }

    /// The text form of an address, in either case, parses back to the same address.
    pub proof fn lemma_text_round_trip(m: MacAddr8, upper: bool)
        ensures
            MacAddr8::parse_bytes(encode_utf8(m.text(upper))) == Ok::<MacAddr8, ParseMacAddrError>(m),
    {
        let b = format_bytes(m@, upper);
        lemma_format_ascii(m@, upper);
        assert(is_ascii_chars(m.text(upper)));
        is_ascii_chars_encode_utf8(m.text(upper));
        assert(encode_utf8(m.text(upper)) =~= b);
        lemma_parse_format(m@, upper);
    }

    /// Multicast and unicast are complements, and so are locally administered and universal.
    pub proof fn lemma_classification(m: MacAddr8)
        ensures
            m.spec_is_multicast() != m.spec_is_unicast(),
            m.spec_is_locally_administered() != m.spec_is_universal(),
    {
        let x = m.0;
        assert((x & 1 == 1) != (x & 1 == 0)) by (bit_vector);
        assert((x & 2 == 2) != (x & 2 == 0)) by (bit_vector);
    }

    /// Addresses are ordered lexicographically by their octets, first octet most significant.
    pub proof fn lemma_order_lexicographic(a: MacAddr8, b: MacAddr8)
        ensures
            (a.partial_cmp_spec(&b) == Some(Ordering::Less)) <==> lex_less(a@, b@),
            (a.partial_cmp_spec(&b) == Some(Ordering::Greater)) <==> lex_less(b@, a@),
            (a.partial_cmp_spec(&b) == Some(Ordering::Equal)) <==> a == b,
    {
        lemma_cmp_lexicographic(a@, b@);
        if a@ == b@ {
            MacAddr8::lemma_octets_round_trip(a, a@);
            MacAddr8::lemma_octets_round_trip(b, b@);
        }
    }
}

impl MacAddr8 {
    /// Embedding a 48-bit address and taking it back out gives the same address.
    pub proof fn lemma_eui48_round_trip(m: MacAddr)
        ensures
            MacAddr8::spec_from_eui48(m).spec_to_eui48() == Some(m),
    {
    }

    /// An address without `ff` in octet 3 and `fe` in octet 4 has no 48-bit form.
    pub proof fn lemma_eui48_rejected(m: MacAddr8)
        requires
            m@[3] != 0xff || m@[4] != 0xfe,
        ensures
            m.spec_to_eui48() is None,
    {
    }

    /// The binary form is the eight octets: a byte slice decodes only when it
    /// holds exactly eight bytes, and the octets of an address decode to it.
    pub proof fn lemma_binary_form(m: MacAddr8, b: &[u8])
        ensures
            m@.len() == 8,
            <MacAddr8 as TryFromSpec<&[u8]>>::try_from_spec(b) is Ok <==> b@.len() == 8,
            b@ == m@ ==> <MacAddr8 as TryFromSpec<&[u8]>>::try_from_spec(b) == Ok::<MacAddr8, ()>(m),
    {
    }
}

impl core::str::FromStr for MacAddr8 {
    type Err = ParseMacAddrError;

    fn from_str(s: &str) -> (r: Result<MacAddr8, ParseMacAddrError>)
        ensures
            r == MacAddr8::parse_bytes(s.spec_bytes()),
    {
        MacAddr8::parse(s)
    }
}

impl TryFrom<&[u8]> for MacAddr8 {
    type Error = ();

    fn try_from(s: &[u8]) -> (r: Result<MacAddr8, ()>) {
        if s.len() == 8 {
            Ok(MacAddr8(s[0], s[1], s[2], s[3], s[4], s[5], s[6], s[7]))
        } else {
            Err(())
        }
    }
}

impl vstd::std_specs::convert::TryFromSpecImpl<&[u8]> for MacAddr8 {
    open spec fn obeys_try_from_spec() -> bool {
        true
    }

    open spec fn try_from_spec(s: &[u8]) -> Result<MacAddr8, ()> {
        if s@.len() == 8 {
            Ok(MacAddr8::from_seq(s@))
        } else {
            Err(())
        }
    }
}

impl Default for MacAddr8 {
    fn default() -> (r: MacAddr8)
        ensures
            r@ == seq![0u8, 0, 0, 0, 0, 0, 0, 0],
    {
        MacAddr8::zero()
    }
}

impl PartialOrd for MacAddr8 {
    fn partial_cmp(&self, other: &MacAddr8) -> (r: Option<Ordering>) {
        let a = self.octets();
        let b = other.octets();
        Some(compare_octets(&a, &b))
    }
}

impl vstd::std_specs::cmp::PartialOrdSpecImpl for MacAddr8 {
    open spec fn obeys_partial_cmp_spec() -> bool {
        true
    }

    open spec fn partial_cmp_spec(&self, other: &MacAddr8) -> Option<Ordering> {
        Some(cmp_from(self@, other@, 0))
    }
}

impl From<[u8; 8]> for MacAddr8 {
    fn from(v: [u8; 8]) -> (r: MacAddr8) {
        MacAddr8::from_octets(v)
    }
}

impl vstd::std_specs::convert::FromSpecImpl<[u8; 8]> for MacAddr8 {
    open spec fn obeys_from_spec() -> bool {
        true
    }

    open spec fn from_spec(v: [u8; 8]) -> MacAddr8 {
        MacAddr8::from_seq(v@)
    }
}

impl From<MacAddr8> for [u8; 8] {
    fn from(m: MacAddr8) -> (r: [u8; 8]) {
        m.octets()
    }
}

impl vstd::std_specs::convert::FromSpecImpl<MacAddr8> for [u8; 8] {
    open spec fn obeys_from_spec() -> bool {
        true
    }

    open spec fn from_spec(m: MacAddr8) -> [u8; 8] {
        [m.0, m.1, m.2, m.3, m.4, m.5, m.6, m.7]
    }
}

} // verus!
