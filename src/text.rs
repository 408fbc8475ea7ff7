//! The colon-separated hexadecimal text form shared by both address widths.
use crate::error::ParseMacAddrError;
use vstd::prelude::*;

verus! {

/// The byte that separates the components of an address in text.
pub const COLON: u8 = 0x3a;

/// The fields of `b` between colons, in order; there is always at least one.
pub open spec fn split_colon(b: Seq<u8>) -> Seq<Seq<u8>>
    decreases b.len(),
{
    if b.len() == 0 {
        seq![Seq::empty()]
    } else {
        let head = split_colon(b.drop_last());
        if b.last() == COLON {
            head.push(Seq::empty())
        } else {
            head.update(head.len() - 1, head.last().push(b.last()))
        }
    }
}

pub open spec fn is_hex_digit(c: u8) -> bool {
    (0x30 <= c <= 0x39) || (0x61 <= c <= 0x66) || (0x41 <= c <= 0x46)
}

/// The value of a hexadecimal digit, in either case.
pub open spec fn hex_digit_value(c: u8) -> nat {
    if 0x30 <= c <= 0x39 {
        (c - 0x30) as nat
    } else if 0x61 <= c <= 0x66 {
        (c - 0x61 + 10) as nat
    } else {
        (c - 0x41 + 10) as nat
    }
}

/// The number that a sequence of hexadecimal digits denotes, most significant first.
pub open spec fn digits_value(d: Seq<u8>) -> nat
    decreases d.len(),
{
    if d.len() == 0 {
        0
    } else {
        digits_value(d.drop_last()) * 16 + hex_digit_value(d.last())
    }
}

/// The digits of a field: the field without one optional leading `+`.
pub open spec fn field_digits(f: Seq<u8>) -> Seq<u8> {
    if f.len() > 0 && f[0] == 0x2b {
        f.drop_first()
    } else {
        f
    }
}

/// The byte that a field denotes: at least one hexadecimal digit, after an
/// optional `+`, whose value fits in a byte.
pub open spec fn field_value(f: Seq<u8>) -> Option<u8> {
    let d = field_digits(f);
    if d.len() > 0 && (forall|i: int| 0 <= i < d.len() ==> is_hex_digit(#[trigger] d[i]))
        && digits_value(d) <= 255 {
        Some(digits_value(d) as u8)
    } else {
        None
    }
}

/// The strict reading of `b` as `n` colon-separated octets. An empty or
/// malformed field among the first `n` fields wins over a count mismatch.
pub open spec fn parse_spec(b: Seq<u8>, n: nat) -> Result<Seq<u8>, ParseMacAddrError> {
    let f = split_colon(b);
    if exists|k: int| 0 <= k < f.len() && k < n && (#[trigger] field_value(f[k])) is None {
        Err(ParseMacAddrError::InvalidComponent)
    } else if f.len() > n {
        Err(ParseMacAddrError::TooManyComponents)
    } else if f.len() < n {
        Err(ParseMacAddrError::TooFewComponents)
    } else {
        Ok(Seq::new(n, |k: int| field_value(f[k])->0))
    }
}

proof fn lemma_split_nonempty(b: Seq<u8>)
    ensures
        split_colon(b).len() >= 1,
    decreases b.len(),
{
    if b.len() > 0 {
        lemma_split_nonempty(b.drop_last());
    }
}

/// Appending text keeps every completed field and never removes a field.
proof fn lemma_split_prefix(p: Seq<u8>, q: Seq<u8>)
    ensures
        split_colon(p + q).len() >= split_colon(p).len(),
        forall|k: int|
            0 <= k < split_colon(p).len() - 1 ==> #[trigger] split_colon(p + q)[k]
                == split_colon(p)[k],
    decreases q.len(),
{
    lemma_split_nonempty(p);
    if q.len() > 0 {
        lemma_split_prefix(p, q.drop_last());
        assert((p + q).drop_last() =~= p + q.drop_last());
        lemma_split_nonempty(p + q.drop_last());
    } else {
        assert(p + q =~= p);
    }
}

/// Value of a digit sequence is at least the value of any of its prefixes.
proof fn lemma_digits_prefix(d: Seq<u8>, k: int)
    requires
        0 <= k <= d.len(),
    ensures
        digits_value(d) >= digits_value(d.subrange(0, k)),
    decreases d.len(),
{
    if k < d.len() {
        lemma_digits_prefix(d.drop_last(), k);
        assert(d.drop_last().subrange(0, k) =~= d.subrange(0, k));
    } else {
        assert(d.subrange(0, k) =~= d);
    }
}

/// Reads the field `b[start..end]` as a byte.
fn parse_field(b: &[u8], start: usize, end: usize) -> (r: Option<u8>)
    requires
        start <= end <= b@.len(),
    ensures
        r == field_value(b@.subrange(start as int, end as int)),
{
    let ghost f = b@.subrange(start as int, end as int);
    let mut i: usize = start;
    if i < end && b[i] == 0x2b {
        i = i + 1;
    }
    let ds: usize = i;
    let ghost d = b@.subrange(ds as int, end as int);
    assert(field_digits(f) =~= d);
    if i == end {
        return None;
    }
    let mut v: u32 = 0;
    while i < end
        invariant
            start <= ds <= i <= end <= b@.len(),
            d == b@.subrange(ds as int, end as int),
            f == b@.subrange(start as int, end as int),
            d == field_digits(f),
            v <= 255,
            v == digits_value(b@.subrange(ds as int, i as int)),
            forall|j: int| ds <= j < i ==> is_hex_digit(#[trigger] b@[j]),
        decreases end - i,
    {
        let c = b[i];
        let x: u32;
        if 0x30 <= c && c <= 0x39 {
            x = (c - 0x30) as u32;
        } else if 0x61 <= c && c <= 0x66 {
            x = (c - 0x61 + 10) as u32;
        } else if 0x41 <= c && c <= 0x46 {
            x = (c - 0x41 + 10) as u32;
        } else {
            assert(d[i - ds] == c);
            return None;
        }
        assert(b@.subrange(ds as int, i + 1).drop_last() =~= b@.subrange(ds as int, i as int));
        assert(b@.subrange(ds as int, i + 1).last() == c);
        assert(digits_value(b@.subrange(ds as int, i + 1)) == v * 16 + x);
        let nv = v * 16 + x;
        if nv > 255 {
            proof {
                lemma_digits_prefix(d, i + 1 - ds);
                assert(d.subrange(0, i + 1 - ds) =~= b@.subrange(ds as int, i + 1));
            }
            return None;
        }
        v = nv;
        i = i + 1;
    }
    assert(b@.subrange(ds as int, i as int) =~= d);
    Some(v as u8)
}

/// Reads `b` strictly as `n` colon-separated octets.
pub fn parse_octets(b: &[u8], n: usize) -> (r: Result<Vec<u8>, ParseMacAddrError>)
    ensures
        parse_spec(b@, n as nat) == match r {
            Ok(v) => Ok(v@),
            Err(e) => Err(e),
        },
{
    let len = b.len();
    let mut out: Vec<u8> = Vec::new();
    let mut start: usize = 0;
    let mut j: usize = 0;
    let ghost mut fields: Seq<Seq<u8>> = Seq::empty();
    assert(b@.subrange(0, 0) =~= Seq::<u8>::empty());
    assert(b@.subrange(0, len as int) =~= b@);
    loop
        invariant
            len == b@.len(),
            0 <= start <= j <= len,
            b@.subrange(0, len as int) == b@,
            split_colon(b@.subrange(0, j as int)) == fields.push(b@.subrange(start as int, j as int)),
            fields.len() == out@.len(),
            out@.len() <= n,
            forall|k: int| 0 <= k < fields.len() ==> field_value(#[trigger] fields[k]) == Some(out@[k]),
        decreases len - j,
    {
        if j == len || b[j] == COLON {
            let ghost cur = b@.subrange(start as int, j as int);
            let ghost p = b@.subrange(0, j as int);
            proof {
                lemma_split_prefix(p, b@.subrange(j as int, len as int));
                assert(p + b@.subrange(j as int, len as int) =~= b@);
            }
            if out.len() == n {
                proof {
                    let f = split_colon(b@);
                    assert forall|k: int| 0 <= k < f.len() && k < n implies field_value(#[trigger] f[k]) is Some by {
                        assert(f[k] == fields[k]);
                    }
                }
                return Err(ParseMacAddrError::TooManyComponents);
            }
            proof {
                if j < len {
                    let q = b@.subrange(0, j + 1);
                    assert(q.drop_last() =~= p);
                    lemma_split_prefix(q, b@.subrange(j + 1, len as int));
                    assert(q + b@.subrange(j + 1, len as int) =~= b@);
                    assert(split_colon(q) == fields.push(cur).push(Seq::empty()));
                }
                assert(split_colon(b@)[fields.len() as int] == cur);
            }
            match parse_field(b, start, j) {
                None => {
                    return Err(ParseMacAddrError::InvalidComponent);
                },
                Some(v) => {
                    out.push(v);
                    proof {
                        fields = fields.push(cur);
                    }
                },
            }
            if j == len {
                proof {
                    let f = split_colon(b@);
                    assert(f =~= fields);
                    assert forall|k: int| 0 <= k < f.len() && k < n implies field_value(#[trigger] f[k]) is Some by {
                        assert(f[k] == fields[k]);
                    }
                }
                if out.len() == n {
                    assert(Seq::new(n as nat, |k: int| field_value(split_colon(b@)[k])->0) =~= out@);
                    return Ok(out);
                } else {
                    return Err(ParseMacAddrError::TooFewComponents);
                }
            }
            start = j + 1;
            assert(b@.subrange(0, j + 1).drop_last() =~= b@.subrange(0, j as int));
            assert(b@.subrange(start as int, j + 1) =~= Seq::<u8>::empty());
        } else {
            proof {
                let q = b@.subrange(0, j + 1);
                assert(q.drop_last() =~= b@.subrange(0, j as int));
                assert(b@.subrange(start as int, j as int).push(b@[j as int]) =~= b@.subrange(start as int, j + 1));
            }
        }
        j = j + 1;
    }
}

/// The ASCII character for a digit value below 16.
pub open spec fn hex_char(d: nat, upper: bool) -> u8 {
    if d < 10 {
        (0x30 + d) as u8
    } else if upper {
        (0x41 + d - 10) as u8
    } else {
        (0x61 + d - 10) as u8
    }
}

/// Two hexadecimal digits for one octet.
pub open spec fn octet_text(x: u8, upper: bool) -> Seq<u8> {
    seq![hex_char(x as nat / 16, upper), hex_char(x as nat % 16, upper)]
}

/// The octets as two-digit hexadecimal fields joined by colons.
pub open spec fn format_bytes(o: Seq<u8>, upper: bool) -> Seq<u8>
    decreases o.len(),
{
    if o.len() == 0 {
        Seq::empty()
    } else if o.len() == 1 {
        octet_text(o[0], upper)
    } else {
        format_bytes(o.drop_last(), upper) + seq![COLON] + octet_text(o.last(), upper)
    }
}

/// ASCII bytes read as characters.
pub open spec fn as_chars(b: Seq<u8>) -> Seq<char> {
    b.map_values(|c: u8| c as char)
}

/// Relies on `String::push`: the character is appended to the end of the string.
#[verifier::external_body]
fn push_char(s: &mut String, c: char)
    ensures
        final(s)@ == old(s)@.push(c),
{
    s.push(c);
}

fn hex_digit_char(d: u8, upper: bool) -> (c: char)
    requires
        d < 16,
    ensures
        c == hex_char(d as nat, upper) as char,
{
    if d < 10 {
        (0x30 + d) as char
    } else if upper {
        (0x41 + d - 10) as char
    } else {
        (0x61 + d - 10) as char
    }
}

/// Writes the octets as two-digit hexadecimal fields joined by colons.
pub fn format_octets(o: &[u8], upper: bool) -> (r: String)
    ensures
        r@ == as_chars(format_bytes(o@, upper)),
{
    let mut s = String::new();
    let mut i: usize = 0;
    assert(o@.subrange(0, 0) =~= Seq::<u8>::empty());
    assert(s@ =~= as_chars(format_bytes(Seq::empty(), upper)));
    while i < o.len()
        invariant
            i <= o@.len(),
            s@ == as_chars(format_bytes(o@.subrange(0, i as int), upper)),
        decreases o@.len() - i,
    {
        let ghost prev = s@;
        if i > 0 {
            push_char(&mut s, ':');
        }
        let x = o[i];
        push_char(&mut s, hex_digit_char(x / 16, upper));
        push_char(&mut s, hex_digit_char(x % 16, upper));
        proof {
            let q = o@.subrange(0, i + 1);
            assert(q.drop_last() =~= o@.subrange(0, i as int));
            assert(q.last() == x);
            assert(s@ =~= as_chars(format_bytes(q, upper)));
        }
        i = i + 1;
    }
    assert(o@.subrange(0, i as int) =~= o@);
    s
}

proof fn lemma_split_no_colon(t: Seq<u8>)
    requires
        forall|i: int| 0 <= i < t.len() ==> t[i] != COLON,
    ensures
        split_colon(t) == seq![t],
    decreases t.len(),
{
    if t.len() > 0 {
        lemma_split_no_colon(t.drop_last());
        assert(t.last() != COLON);
        assert(t.drop_last().push(t.last()) =~= t);
        assert(split_colon(t) =~= seq![t]);
    } else {
        assert(t =~= Seq::<u8>::empty());
    }
}

proof fn lemma_split_after_colon(a: Seq<u8>, t: Seq<u8>)
    requires
        forall|i: int| 0 <= i < t.len() ==> t[i] != COLON,
    ensures
        split_colon(a + seq![COLON] + t) == split_colon(a).push(t),
    decreases t.len(),
{
    let s = a + seq![COLON] + t;
    if t.len() == 0 {
        assert(s.drop_last() =~= a);
        assert(s.last() == COLON);
        assert(t =~= Seq::<u8>::empty());
    } else {
        lemma_split_after_colon(a, t.drop_last());
        assert(s.drop_last() =~= a + seq![COLON] + t.drop_last());
        assert(s.last() == t.last());
        assert(t.last() != COLON);
        assert(t.drop_last().push(t.last()) =~= t);
        assert(split_colon(s) =~= split_colon(a).push(t));
    }
}

proof fn lemma_hex_char(d: nat, upper: bool)
    requires
        d < 16,
    ensures
        is_hex_digit(hex_char(d, upper)),
        hex_digit_value(hex_char(d, upper)) == d,
        hex_char(d, upper) != COLON,
        hex_char(d, upper) != 0x2b,
        hex_char(d, upper) < 128,
{
}

proof fn lemma_octet_text(x: u8, upper: bool)
    ensures
        field_value(octet_text(x, upper)) == Some(x),
        forall|i: int| 0 <= i < 2 ==> #[trigger] octet_text(x, upper)[i] != COLON,
        forall|i: int| 0 <= i < 2 ==> #[trigger] octet_text(x, upper)[i] < 128,
{
    let t = octet_text(x, upper);
    lemma_hex_char(x as nat / 16, upper);
    lemma_hex_char(x as nat % 16, upper);
    assert(field_digits(t) == t);
    assert(t.drop_last() =~= seq![t[0]]);
    assert(seq![t[0]].drop_last() =~= Seq::<u8>::empty());
    assert(digits_value(Seq::<u8>::empty()) == 0);
    assert(seq![t[0]].last() == t[0]);
    assert(digits_value(seq![t[0]]) == hex_digit_value(t[0]));
    assert(t.last() == t[1]);
    assert(digits_value(t) == digits_value(seq![t[0]]) * 16 + hex_digit_value(t[1]));
    assert(digits_value(t) == (x as nat / 16) * 16 + x as nat % 16);
}

proof fn lemma_split_format(o: Seq<u8>, upper: bool)
    requires
        o.len() >= 1,
    ensures
        split_colon(format_bytes(o, upper)) == Seq::new(o.len(), |k: int| octet_text(o[k], upper)),
    decreases o.len(),
{
    lemma_octet_text(o.last(), upper);
    if o.len() == 1 {
        lemma_split_no_colon(octet_text(o[0], upper));
        assert(Seq::new(o.len(), |k: int| octet_text(o[k], upper)) =~= seq![octet_text(o[0], upper)]);
    } else {
        lemma_split_format(o.drop_last(), upper);
        lemma_split_after_colon(format_bytes(o.drop_last(), upper), octet_text(o.last(), upper));
        assert(split_colon(format_bytes(o, upper)) =~= Seq::new(o.len(), |k: int| octet_text(o[k], upper)));
    }
}

/// Every character of formatted octets is ASCII.
pub proof fn lemma_format_ascii(o: Seq<u8>, upper: bool)
    ensures
        forall|i: int| 0 <= i < format_bytes(o, upper).len() ==> #[trigger] format_bytes(o, upper)[i] < 128,
    decreases o.len(),
{
    if o.len() >= 1 {
        lemma_octet_text(o.last(), upper);
        if o.len() > 1 {
            lemma_format_ascii(o.drop_last(), upper);
            let a = format_bytes(o.drop_last(), upper);
            let t = octet_text(o.last(), upper);
            let f = format_bytes(o, upper);
            assert forall|i: int| 0 <= i < f.len() implies #[trigger] f[i] < 128 by {
                if i < a.len() {
                    assert(f[i] == a[i]);
                } else if i > a.len() {
                    assert(f[i] == t[i - a.len() - 1]);
                }
            }
        }
    }
}

/// Reading formatted octets back, in either case, gives the same octets.
pub proof fn lemma_parse_format(o: Seq<u8>, upper: bool)
    requires
        o.len() >= 1,
    ensures
        parse_spec(format_bytes(o, upper), o.len()) == Ok::<Seq<u8>, ParseMacAddrError>(o),
{
    lemma_split_format(o, upper);
    let f = split_colon(format_bytes(o, upper));
    assert forall|k: int| 0 <= k < f.len() implies field_value(#[trigger] f[k]) == Some(o[k]) by {
        lemma_octet_text(o[k], upper);
    }
    assert(Seq::new(o.len(), |k: int| field_value(f[k])->0) =~= o);
}

/// The octet of field `k` in a lenient reading: its value where it reads as a
/// byte, zero where it is malformed or missing.
pub open spec fn lenient_octet(f: Seq<Seq<u8>>, k: int) -> u8 {
    if k < f.len() && field_value(f[k]) is Some {
        field_value(f[k])->0
    } else {
        0
    }
}

/// The lenient reading of `b` as `n` colon-separated octets; fields past the
/// `n`-th are ignored.
pub open spec fn lenient_spec(b: Seq<u8>, n: nat) -> Seq<u8> {
    Seq::new(n, |k: int| lenient_octet(split_colon(b), k))
}

/// Reads `b` leniently as `n` colon-separated octets.
pub fn lenient_octets(b: &[u8], n: usize) -> (r: Vec<u8>)
    ensures
        r@ == lenient_spec(b@, n as nat),
{
    let len = b.len();
    let mut out: Vec<u8> = Vec::new();
    let mut start: usize = 0;
    let mut j: usize = 0;
    let ghost mut fields: Seq<Seq<u8>> = Seq::empty();
    assert(b@.subrange(0, 0) =~= Seq::<u8>::empty());
    loop
        invariant
            len == b@.len(),
            0 <= start <= j <= len,
            split_colon(b@.subrange(0, j as int)) == fields.push(b@.subrange(start as int, j as int)),
            out@.len() <= n,
            out@.len() == n || out@.len() == fields.len(),
            out@.len() <= fields.len(),
            forall|k: int| 0 <= k < out@.len() ==> #[trigger] out@[k] == lenient_octet(fields, k),
        decreases len - j,
    {
        if j == len || b[j] == COLON {
            let ghost cur = b@.subrange(start as int, j as int);
            if out.len() < n {
                let v = match parse_field(b, start, j) {
                    Some(v) => v,
                    None => 0,
                };
                out.push(v);
            }
            proof {
                let old_fields = fields;
                fields = fields.push(cur);
                assert forall|k: int| 0 <= k < out@.len() implies #[trigger] out@[k] == lenient_octet(fields, k) by {
                    if k < old_fields.len() {
                        assert(fields[k] == old_fields[k]);
                    }
                }
            }
            if j == len {
                assert(b@.subrange(0, len as int) =~= b@);
                while out.len() < n
                    invariant
                        out@.len() <= n,
                        out@.len() >= fields.len() || out@.len() == n,
                        fields == split_colon(b@),
                        forall|k: int| 0 <= k < out@.len() ==> #[trigger] out@[k] == lenient_octet(fields, k),
                    decreases n - out@.len(),
                {
                    out.push(0);
                }
                assert(out@ =~= lenient_spec(b@, n as nat));
                return out;
            }
            start = j + 1;
            assert(b@.subrange(0, j + 1).drop_last() =~= b@.subrange(0, j as int));
            assert(b@.subrange(start as int, j + 1) =~= Seq::<u8>::empty());
        } else {
            proof {
                let q = b@.subrange(0, j + 1);
                assert(q.drop_last() =~= b@.subrange(0, j as int));
                assert(b@.subrange(start as int, j as int).push(b@[j as int]) =~= b@.subrange(start as int, j + 1));
            }
        }
        j = j + 1;
    }
}

} // verus!
