//! The 48-bit address (EUI-48).
use crate::error::ParseMacAddrError;
use crate::order::{cmp_from, compare_octets, lemma_cmp_lexicographic, lex_less};
use crate::text::{
    as_chars, format_bytes, format_octets, lemma_format_ascii, lemma_parse_format, lenient_octets,
    lenient_spec, parse_octets, parse_spec,
};
use core::cmp::Ordering;
use vstd::prelude::*;
use vstd::std_specs::cmp::PartialOrdSpec;
use vstd::std_specs::convert::TryFromSpec;
use vstd::string::StringSliceAdditionalSpecFns;
use vstd::utf8::{encode_utf8, is_ascii_chars, is_ascii_chars_encode_utf8};

verus! {

/// 48-bit MAC address (IEEE EUI-48), octets in transmission order.
#[derive(Clone, Copy, Debug, PartialEq, Eq, Structural, Ord, Hash)]
pub struct MacAddr(pub u8, pub u8, pub u8, pub u8, pub u8, pub u8);

impl View for MacAddr {
    type V = Seq<u8>;

    open spec fn view(&self) -> Seq<u8> {
        seq![self.0, self.1, self.2, self.3, self.4, self.5]
    }
}

impl MacAddr {
    /// The address whose octets are the six of `o`.
    pub open spec fn from_seq(o: Seq<u8>) -> MacAddr {
        MacAddr(o[0], o[1], o[2], o[3], o[4], o[5])
    }

    /// The text form, two hexadecimal digits per octet joined by colons.
    pub open spec fn text(self, upper: bool) -> Seq<char> {
        as_chars(format_bytes(self@, upper))
    }

    /// What the strict parser makes of the UTF-8 bytes `b`.
    pub open spec fn parse_bytes(b: Seq<u8>) -> Result<MacAddr, ParseMacAddrError> {
        match parse_spec(b, 6) {
            Ok(o) => Ok(MacAddr::from_seq(o)),
            Err(e) => Err(e),
        }
    }

    /// Bit 0 of the first octet is set.
    pub open spec fn spec_is_multicast(self) -> bool {
        self.0 & 1 == 1
    }

    /// Bit 0 of the first octet is clear.
    pub open spec fn spec_is_unicast(self) -> bool {
        self.0 & 1 == 0
    }

    /// Bit 1 of the first octet is set.
    pub open spec fn spec_is_locally_administered(self) -> bool {
        self.0 & 2 == 2
    }

    /// Bit 1 of the first octet is clear.
    pub open spec fn spec_is_universal(self) -> bool {
        self.0 & 2 == 0
    }

    /// Constructs a new address from six octets.
    pub fn new(a: u8, b: u8, c: u8, d: u8, e: u8, f: u8) -> (r: MacAddr)
        ensures
            r@ == seq![a, b, c, d, e, f],
    {
        MacAddr(a, b, c, d, e, f)
    }

    /// Constructs an address from a `[u8; 6]` array.
    pub fn from_octets(octets: [u8; 6]) -> (r: MacAddr)
        ensures
            r@ == octets@,
    {
        let r = MacAddr(octets[0], octets[1], octets[2], octets[3], octets[4], octets[5]);
        assert(r@ =~= octets@);
        r
    }

    /// Returns the six octets of this address.
    pub fn octets(&self) -> (r: [u8; 6])
        ensures
            r@ == self@,
    {
        let r = [self.0, self.1, self.2, self.3, self.4, self.5];
        assert(r@ =~= self@);
        r
    }

    /// The all-zero address.
    pub fn zero() -> (r: MacAddr)
        ensures
            r@ == seq![0u8, 0, 0, 0, 0, 0],
    {
        MacAddr(0, 0, 0, 0, 0, 0)
    }

    /// The broadcast address, all octets `0xff`.
    pub fn broadcast() -> (r: MacAddr)
        ensures
            r@ == seq![0xffu8, 0xff, 0xff, 0xff, 0xff, 0xff],
    {
        MacAddr(0xff, 0xff, 0xff, 0xff, 0xff, 0xff)
    }

    /// Returns the address as lowercase colon-separated hex (`xx:xx:xx:xx:xx:xx`).
    pub fn address(&self) -> (r: String)
        ensures
            r@ == self.text(false),
    {
        let o = self.octets();
        format_octets(&o, false)
    }

    /// The display form: the same text as [`MacAddr::address`].
    pub fn to_string(&self) -> (r: String)
        ensures
            r@ == self.text(false),
    {
        self.address()
    }

    /// Uppercase colon-separated hex (`XX:XX:XX:XX:XX:XX`).
    pub fn to_upper_hex(&self) -> (r: String)
        ensures
            r@ == self.text(true),
    {
        let o = self.octets();
        format_octets(&o, true)
    }

    /// Returns `true` if the address is multicast.
    pub fn is_multicast(&self) -> (r: bool)
        ensures
            r == self.spec_is_multicast(),
    {
        self.0 & 0x01 == 0x01
    }

    /// Returns `true` if the address is unicast.
    pub fn is_unicast(&self) -> (r: bool)
        ensures
            r == self.spec_is_unicast(),
    {
        let x = self.0;
        assert((x & 1 == 1) == !(x & 1 == 0)) by (bit_vector);
        !self.is_multicast()
    }

    /// Returns `true` if the address is locally administered.
    pub fn is_locally_administered(&self) -> (r: bool)
        ensures
            r == self.spec_is_locally_administered(),
    {
        self.0 & 0x02 == 0x02
    }

    /// Returns `true` if the address is universally administered.
    pub fn is_universal(&self) -> (r: bool)
        ensures
            r == self.spec_is_universal(),
    {
        let x = self.0;
        assert((x & 2 == 2) == !(x & 2 == 0)) by (bit_vector);
        !self.is_locally_administered()
    }

    /// Returns the OUI (the first three octets).
    pub fn oui(&self) -> (r: [u8; 3])
        ensures
            r@ == self@.subrange(0, 3),
    {
        let r = [self.0, self.1, self.2];
        assert(r@ =~= self@.subrange(0, 3));
        r
    }

    /// Parses the strict form: exactly six colon-separated hexadecimal octets.
    pub fn parse(s: &str) -> (r: Result<MacAddr, ParseMacAddrError>)
        ensures
            r == MacAddr::parse_bytes(s.spec_bytes()),
    {
        match parse_octets(s.as_bytes(), 6) {
            Ok(v) => Ok(MacAddr(v[0], v[1], v[2], v[3], v[4], v[5])),
            Err(e) => Err(e),
        }
    }

    /// Parses the legacy fixed form of exactly 17 bytes. Any other length
    /// gives the all-zero address; a malformed or missing field gives a zero
    /// octet.
    pub fn from_hex_format(hex: &str) -> (r: MacAddr)
        ensures
            hex.spec_bytes().len() != 17 ==> r@ == seq![0u8, 0, 0, 0, 0, 0],
            hex.spec_bytes().len() == 17 ==> r@ == lenient_spec(hex.spec_bytes(), 6),
    {
        let b = hex.as_bytes();
        if b.len() != 17 {
            return MacAddr::zero();
        }
        let v = lenient_octets(b, 6);
        let r = MacAddr(v[0], v[1], v[2], v[3], v[4], v[5]);
        assert(r@ =~= v@);
        r
    }
}

impl MacAddr {
    /// An address and its six octets determine each other.
    pub proof fn lemma_octets_round_trip(m: MacAddr, o: Seq<u8>)
        requires
            o.len() == 6,
        ensures
            MacAddr::from_seq(o)@ == o,
            MacAddr::from_seq(m@) == m,
    {
        assert(MacAddr::from_seq(o)@ =~= o);
    }

    /// The text form of an address, in either case, parses back to the same address.
    pub proof fn lemma_text_round_trip(m: MacAddr, upper: bool)
        ensures
            MacAddr::parse_bytes(encode_utf8(m.text(upper))) == Ok::<MacAddr, ParseMacAddrError>(m),
    {
        let b = format_bytes(m@, upper);
        lemma_format_ascii(m@, upper);
        assert(is_ascii_chars(m.text(upper)));
        is_ascii_chars_encode_utf8(m.text(upper));
        assert(encode_utf8(m.text(upper)) =~= b);
        lemma_parse_format(m@, upper);
    }

    /// Multicast and unicast are complements, and so are locally administered and universal.
    pub proof fn lemma_classification(m: MacAddr)
        ensures
            m.spec_is_multicast() != m.spec_is_unicast(),
            m.spec_is_locally_administered() != m.spec_is_universal(),
    {
        let x = m.0;
        assert((x & 1 == 1) != (x & 1 == 0)) by (bit_vector);
        assert((x & 2 == 2) != (x & 2 == 0)) by (bit_vector);
    }

    /// Addresses are ordered lexicographically by their octets, first octet most significant.
    pub proof fn lemma_order_lexicographic(a: MacAddr, b: MacAddr)
        ensures
            (a.partial_cmp_spec(&b) == Some(Ordering::Less)) <==> lex_less(a@, b@),
            (a.partial_cmp_spec(&b) == Some(Ordering::Greater)) <==> lex_less(b@, a@),
            (a.partial_cmp_spec(&b) == Some(Ordering::Equal)) <==> a == b,
    {
        lemma_cmp_lexicographic(a@, b@);
        if a@ == b@ {
            MacAddr::lemma_octets_round_trip(a, a@);
            MacAddr::lemma_octets_round_trip(b, b@);
        }
    }

    /// The binary form is the six octets: a byte slice decodes only when it
    /// holds exactly six bytes, and the octets of an address decode to it.
    pub proof fn lemma_binary_form(m: MacAddr, b: &[u8])
        ensures
            m@.len() == 6,
            <MacAddr as TryFromSpec<&[u8]>>::try_from_spec(b) is Ok <==> b@.len() == 6,
            b@ == m@ ==> <MacAddr as TryFromSpec<&[u8]>>::try_from_spec(b) == Ok::<MacAddr, ()>(m),
    {
    }
}

impl core::str::FromStr for MacAddr {
    type Err = ParseMacAddrError;

    fn from_str(s: &str) -> (r: Result<MacAddr, ParseMacAddrError>)
        ensures
            r == MacAddr::parse_bytes(s.spec_bytes()),
    {
        MacAddr::parse(s)
    }
}

impl TryFrom<&[u8]> for MacAddr {
    type Error = ();

    fn try_from(s: &[u8]) -> (r: Result<MacAddr, ()>) {
        if s.len() == 6 {
            Ok(MacAddr(s[0], s[1], s[2], s[3], s[4], s[5]))
        } else {
            Err(())
        }
    }
}

impl vstd::std_specs::convert::TryFromSpecImpl<&[u8]> for MacAddr {
    open spec fn obeys_try_from_spec() -> bool {
        true
    }

    open spec fn try_from_spec(s: &[u8]) -> Result<MacAddr, ()> {
        if s@.len() == 6 {
            Ok(MacAddr::from_seq(s@))
        } else {
            Err(())
        }
    }
}

impl Default for MacAddr {
    fn default() -> (r: MacAddr)
        ensures
            r@ == seq![0u8, 0, 0, 0, 0, 0],
    {
        MacAddr::zero()
    }
}

impl PartialOrd for MacAddr {
    fn partial_cmp(&self, other: &MacAddr) -> (r: Option<Ordering>) {
        let a = self.octets();
        let b = other.octets();
        Some(compare_octets(&a, &b))
    }
}

impl vstd::std_specs::cmp::PartialOrdSpecImpl for MacAddr {
    open spec fn obeys_partial_cmp_spec() -> bool {
        true
    }

    open spec fn partial_cmp_spec(&self, other: &MacAddr) -> Option<Ordering> {
        Some(cmp_from(self@, other@, 0))
    }
}

impl From<[u8; 6]> for MacAddr {
    fn from(v: [u8; 6]) -> (r: MacAddr) {
        MacAddr::from_octets(v)
    }
}

impl vstd::std_specs::convert::FromSpecImpl<[u8; 6]> for MacAddr {
    open spec fn obeys_from_spec() -> bool {
        true
    }

    open spec fn from_spec(v: [u8; 6]) -> MacAddr {
        MacAddr::from_seq(v@)
    }
}

impl From<MacAddr> for [u8; 6] {
    fn from(m: MacAddr) -> (r: [u8; 6]) {
        m.octets()
    }
}

impl vstd::std_specs::convert::FromSpecImpl<MacAddr> for [u8; 6] {
    open spec fn obeys_from_spec() -> bool {
        true
    }

    open spec fn from_spec(m: MacAddr) -> [u8; 6] {
        [m.0, m.1, m.2, m.3, m.4, m.5]
    }
}

} // verus!
