use vstd::prelude::*;
use vstd::string::StrSliceExecFns;

verus! {

/// The character set and sort flags of a text column.
#[derive(Clone, Copy, Debug, PartialEq, Eq, Structural)]
pub struct Collation {
    pub codepage: u16,
    pub sort_flags: u8,
}

/// How the bytes of a text column map to characters.
#[derive(Clone, Copy, Debug, PartialEq, Eq, Structural)]
pub enum TextEncoding {
    /// One byte per character, `0x00..=0x7F` only.
    Ascii,
    /// One byte per character, each byte naming the code point of equal value.
    Latin1,
    /// UTF-16 code units, little-endian.
    Utf16Le,
}

/// Why text could not be decoded or encoded.
#[derive(Clone, Copy, Debug, PartialEq, Eq, Structural)]
pub enum TextError {
    /// The collation names a codepage without a known table.
    UnknownCodepage,
    /// The bytes are not valid in the column's encoding.
    Malformed,
    /// A character has no representation in the target codepage.
    Unrepresentable,
}

/// Codepage of US-ASCII.
pub const CODEPAGE_ASCII: u16 = 20127;

/// Codepage of ISO-8859-1.
pub const CODEPAGE_LATIN1: u16 = 28591;

/// The encoding a column uses: wide columns carry no collation.
pub open spec fn spec_encoding_for(collation: Option<Collation>) -> Result<TextEncoding, TextError> {
    match collation {
        None => Ok(TextEncoding::Utf16Le),
        Some(c) => if c.codepage == CODEPAGE_ASCII {
            Ok(TextEncoding::Ascii)
        } else if c.codepage == CODEPAGE_LATIN1 {
            Ok(TextEncoding::Latin1)
        } else {
            Err(TextError::UnknownCodepage)
        },
    }
}

/// The largest code point a single-byte encoding holds.
pub open spec fn single_byte_max(enc: TextEncoding) -> u32 {
    if enc == TextEncoding::Ascii {
        0x7F
    } else {
        0xFF
    }
}

/// A scalar value that `char` can hold.
pub open spec fn is_scalar(u: u32) -> bool {
    u < 0xD800 || 0xE000 <= u <= 0x10FFFF
}

/// The UTF-16 code units of `bytes`, read little-endian in pairs.
pub open spec fn units_of(bytes: Seq<u8>) -> Seq<u16> {
    Seq::new(bytes.len() / 2, |i: int| (bytes[2 * i] + 256 * bytes[2 * i + 1]) as u16)
}

/// The characters that the code units `u` denote, if they pair up correctly.
pub open spec fn decode_units(u: Seq<u16>) -> Option<Seq<char>>
    decreases u.len(),
{
    if u.len() == 0 {
        Some(Seq::empty())
    } else if u[0] < 0xD800 || u[0] >= 0xE000 {
        match decode_units(u.drop_first()) {
            Some(rest) => Some(seq![(u[0] as u32) as char] + rest),
            None => None,
        }
    } else if u[0] < 0xDC00 && u.len() >= 2 && 0xDC00 <= u[1] < 0xE000 {
        match decode_units(u.subrange(2, u.len() as int)) {
            Some(rest) => Some(
                seq![(0x10000 + (u[0] - 0xD800) * 0x400 + (u[1] - 0xDC00)) as u32 as char] + rest,
            ),
            None => None,
        }
    } else {
        None
    }
}

/// What decoding `bytes` in `enc` yields.
pub open spec fn spec_decode_text(bytes: Seq<u8>, enc: TextEncoding) -> Result<Seq<char>, TextError> {
    if enc == TextEncoding::Utf16Le {
        if bytes.len() % 2 != 0 {
            Err(TextError::Malformed)
        } else {
            match decode_units(units_of(bytes)) {
                Some(s) => Ok(s),
                None => Err(TextError::Malformed),
            }
        }
    } else if exists|i: int| 0 <= i < bytes.len() && bytes[i] as u32 > single_byte_max(enc) {
        Err(TextError::Malformed)
    } else {
        Ok(bytes.map_values(|b: u8| (b as u32) as char))
    }
}

/// The UTF-16LE bytes of one character.
pub open spec fn char_utf16(c: char) -> Seq<u8> {
    let u = c as u32;
    if u < 0x10000 {
        seq![(u % 256) as u8, (u / 256) as u8]
    } else {
        let v = (u - 0x10000) as u32;
        let hi = (0xD800 + v / 0x400) as u32;
        let lo = (0xDC00 + v % 0x400) as u32;
        seq![(hi % 256) as u8, (hi / 256) as u8, (lo % 256) as u8, (lo / 256) as u8]
    }
}

/// The UTF-16LE bytes of a string.
pub open spec fn utf16_bytes(s: Seq<char>) -> Seq<u8>
    decreases s.len(),
{
    if s.len() == 0 {
        Seq::empty()
    } else {
        utf16_bytes(s.drop_last()) + char_utf16(s.last())
    }
}

/// What encoding `s` in `enc` yields.
pub open spec fn spec_encode_text(s: Seq<char>, enc: TextEncoding) -> Result<Seq<u8>, TextError> {
    if enc == TextEncoding::Utf16Le {
        Ok(utf16_bytes(s))
    } else if exists|i: int| 0 <= i < s.len() && s[i] as u32 > single_byte_max(enc) {
        Err(TextError::Unrepresentable)
    } else {
        Ok(s.map_values(|c: char| (c as u32) as u8))
    }
}

proof fn lemma_utf16_bytes_prepend(c: char, rest: Seq<char>)
    ensures
        utf16_bytes(seq![c] + rest) == char_utf16(c) + utf16_bytes(rest),
    decreases rest.len(),
{
    let s = seq![c] + rest;
    if rest.len() == 0 {
        assert(s.drop_last() =~= Seq::<char>::empty());
        assert(s.last() == c);
        assert(utf16_bytes(s) =~= char_utf16(c) + utf16_bytes(rest));
    } else {
        assert(s.drop_last() =~= seq![c] + rest.drop_last());
        assert(s.last() == rest.last());
        lemma_utf16_bytes_prepend(c, rest.drop_last());
        assert(utf16_bytes(s) == utf16_bytes(s.drop_last()) + char_utf16(s.last()));
        assert(utf16_bytes(rest) == utf16_bytes(rest.drop_last()) + char_utf16(rest.last()));
        assert(utf16_bytes(s) =~= char_utf16(c) + utf16_bytes(rest));
    }
}

proof fn lemma_utf16_bytes_even(s: Seq<char>)
    ensures
        utf16_bytes(s).len() % 2 == 0,
    decreases s.len(),
{
    if s.len() > 0 {
        lemma_utf16_bytes_even(s.drop_last());
    }
}

proof fn lemma_units_of_concat(a: Seq<u8>, b: Seq<u8>)
    requires
        a.len() % 2 == 0,
        b.len() % 2 == 0,
    ensures
        units_of(a + b) == units_of(a) + units_of(b),
{
    let k = a.len() / 2;
    assert(a.len() == 2 * k);
    let ab = a + b;
    assert forall|i: int| 0 <= i < units_of(ab).len() implies #[trigger] units_of(ab)[i] == (
    units_of(a) + units_of(b))[i] by {
        if i < k {
            assert(ab[2 * i] == a[2 * i]);
            assert(ab[2 * i + 1] == a[2 * i + 1]);
        } else {
            assert(ab[2 * i] == b[2 * (i - k)]);
            assert(ab[2 * i + 1] == b[2 * (i - k) + 1]);
        }
    }
    assert(units_of(ab) =~= units_of(a) + units_of(b));
}

proof fn lemma_char_units(c: char, u: Seq<u16>)
    ensures
        decode_units(units_of(char_utf16(c)) + u) == match decode_units(u) {
            Some(r) => Some(seq![c] + r),
            None => None,
        },
{
    broadcast use vstd::utf8::char_is_scalar, vstd::utf8::char_u32_cast;

    let v = c as u32;
    let w = units_of(char_utf16(c));
    let all = w + u;
    if v < 0x10000 {
        assert(((v % 256) as u8 + 256 * ((v / 256) as u8)) as u16 == v as u16);
        assert(w =~= seq![v as u16]);
        assert(all[0] == v as u16);
        assert(all.drop_first() =~= u);
        assert(((v as u16) as u32) == v);
    } else {
        let x = (v - 0x10000) as u32;
        let hi = (0xD800 + x / 0x400) as u32;
        let lo = (0xDC00 + x % 0x400) as u32;
        assert(x < 0x100000);
        assert(x / 0x400 < 0x400);
        assert(0x400 * (x / 0x400) + x % 0x400 == x) by (nonlinear_arith);
        assert(((hi % 256) as u8 + 256 * ((hi / 256) as u8)) as u16 == hi as u16);
        assert(((lo % 256) as u8 + 256 * ((lo / 256) as u8)) as u16 == lo as u16);
        assert(w =~= seq![hi as u16, lo as u16]);
        assert(all[0] == hi as u16);
        assert(all[1] == lo as u16);
        assert(all.subrange(2, all.len() as int) =~= u);
        assert((0x10000 + (hi as u16 - 0xD800) * 0x400 + (lo as u16 - 0xDC00)) as u32 == v);
    }
}

/// Decoding UTF-16LE bytes that encoding produced gives back the string.
pub proof fn lemma_utf16_round_trip(s: Seq<char>)
    ensures
        spec_decode_text(utf16_bytes(s), TextEncoding::Utf16Le) == Ok::<Seq<char>, TextError>(s),
{
    lemma_utf16_bytes_even(s);
    lemma_utf16_units_round_trip(s);
}

proof fn lemma_utf16_units_round_trip(s: Seq<char>)
    ensures
        decode_units(units_of(utf16_bytes(s))) == Some(s),
    decreases s.len(),
{
    if s.len() == 0 {
        assert(units_of(utf16_bytes(s)) =~= Seq::<u16>::empty());
    } else {
        let c = s[0];
        let rest = s.drop_first();
        assert(s =~= seq![c] + rest);
        lemma_utf16_bytes_prepend(c, rest);
        lemma_utf16_bytes_even(rest);
        lemma_units_of_concat(char_utf16(c), utf16_bytes(rest));
        lemma_utf16_units_round_trip(rest);
        lemma_char_units(c, units_of(utf16_bytes(rest)));
    }
}

/// In a single-byte encoding, text that encodes decodes back to itself.
pub proof fn lemma_single_byte_round_trip(s: Seq<char>, enc: TextEncoding)
    requires
        enc != TextEncoding::Utf16Le,
        spec_encode_text(s, enc) is Ok,
    ensures
        spec_decode_text(s.map_values(|c: char| (c as u32) as u8), enc) == Ok::<
            Seq<char>,
            TextError,
        >(s),
{
    let b = s.map_values(|c: char| (c as u32) as u8);
    assert forall|i: int| 0 <= i < s.len() implies s[i] as u32 <= single_byte_max(enc) by {
        if s[i] as u32 > single_byte_max(enc) {
            assert(spec_encode_text(s, enc) is Err);
        }
    }
    assert forall|i: int| 0 <= i < b.len() implies b[i] as u32 <= single_byte_max(enc) by {
        assert(s[i] as u32 <= single_byte_max(enc));
    }
    assert(b.map_values(|x: u8| (x as u32) as char) =~= s) by {
        assert forall|i: int| 0 <= i < s.len() implies ((b[i] as u32) as char) == s[i] by {
            assert(s[i] as u32 <= 0xFF);
            assert((b[i] as u32) == s[i] as u32);
            vstd::utf8::char_u32_cast(s[i], b[i] as u32);
        }
    }
}

/// Relies on `char::from_u32`: `Some` exactly for scalar values, holding that code point.
#[verifier::external_body]
fn char_from_u32(u: u32) -> (r: Option<char>)
    ensures
        is_scalar(u) ==> r == Some(u as char),
        !is_scalar(u) ==> r is None,
{
    char::from_u32(u)
}

/// Relies on collecting `char`s into a `String`: the string holds them in order.
#[verifier::external_body]
fn string_of(chars: &Vec<char>) -> (r: String)
    ensures
        r@ == chars@,
{
    chars.iter().collect()
}

/// The encoding a column uses, from its collation; a column without one is wide.
pub fn encoding_for(collation: Option<Collation>) -> (r: Result<TextEncoding, TextError>)
    ensures
        r == spec_encoding_for(collation),
{
    match collation {
        None => Ok(TextEncoding::Utf16Le),
        Some(c) => if c.codepage == CODEPAGE_ASCII {
            Ok(TextEncoding::Ascii)
        } else if c.codepage == CODEPAGE_LATIN1 {
            Ok(TextEncoding::Latin1)
        } else {
            Err(TextError::UnknownCodepage)
        },
    }
}

fn decode_single_byte(bytes: &Vec<u8>, enc: TextEncoding) -> (r: Result<Vec<char>, TextError>)
    requires
        enc != TextEncoding::Utf16Le,
    ensures
        match (r, spec_decode_text(bytes@, enc)) {
            (Ok(v), Ok(s)) => v@ == s,
            (Err(e), Err(f)) => e == f,
            _ => false,
        },
{
    let max: u8 = if enc == TextEncoding::Ascii {
        0x7F
    } else {
        0xFF
    };
    let mut out: Vec<char> = Vec::new();
    let mut i: usize = 0;
    while i < bytes.len()
        invariant
            i <= bytes@.len(),
            max as u32 == single_byte_max(enc),
            out@ == bytes@.subrange(0, i as int).map_values(|b: u8| (b as u32) as char),
            forall|j: int| 0 <= j < i ==> bytes@[j] <= max,
        decreases bytes@.len() - i,
    {
        let b = bytes[i];
        if b > max {
            return Err(TextError::Malformed);
        }
        let c = match char_from_u32(b as u32) {
            Some(c) => c,
            None => return Err(TextError::Malformed),
        };
        out.push(c);
        proof {
            assert(bytes@.subrange(0, i + 1).map_values(|b: u8| (b as u32) as char) =~= out@);
        }
        i = i + 1;
    }
    proof {
        assert(bytes@.subrange(0, i as int) =~= bytes@);
    }
    Ok(out)
}

fn decode_utf16(bytes: &Vec<u8>) -> (r: Result<Vec<char>, TextError>)
    ensures
        match (r, spec_decode_text(bytes@, TextEncoding::Utf16Le)) {
            (Ok(v), Ok(s)) => v@ == s,
            (Err(e), Err(f)) => e == f,
            _ => false,
        },
{
    if bytes.len() % 2 != 0 {
        return Err(TextError::Malformed);
    }
    let n = bytes.len() / 2;
    assert(bytes@.len() == 2 * n);
    let ghost units = units_of(bytes@);
    let mut out: Vec<char> = Vec::new();
    let mut i: usize = 0;
    proof {
        assert(units.skip(0) =~= units);
        assert forall|rest: Seq<char>| true implies out@ + rest == rest by {
            assert(out@ + rest =~= rest);
        }
    }
    while i < n
        invariant
            n == units.len(),
            bytes@.len() == 2 * n,
            bytes@.len() <= usize::MAX,
            units == units_of(bytes@),
            i <= n,
            decode_units(units) == match decode_units(units.skip(i as int)) {
                Some(rest) => Some(out@ + rest),
                None => None,
            },
        decreases n - i,
    {
        let ghost tail = units.skip(i as int);
        let ghost before = out@;
        let k: usize = i + i;
        let u: u16 = (bytes[k] as u16) + 256 * (bytes[k + 1] as u16);
        assert(u == units[i as int]);
        assert(tail[0] == u);
        if u < 0xD800 || u >= 0xE000 {
            let c = match char_from_u32(u as u32) {
                Some(c) => c,
                None => return Err(TextError::Malformed),
            };
            out.push(c);
            proof {
                assert(tail.drop_first() =~= units.skip(i + 1));
                assert forall|rest: Seq<char>| true implies before + (seq![c] + rest) == out@
                    + rest by {
                    assert(before + (seq![c] + rest) =~= out@ + rest);
                }
            }
            i = i + 1;
        } else {
            if u >= 0xDC00 || i + 1 >= n {
                return Err(TextError::Malformed);
            }
            let w: u16 = (bytes[k + 2] as u16) + 256 * (bytes[k + 3] as u16);
            assert(w == units[i + 1]);
            assert(tail[1] == w);
            if w < 0xDC00 || w >= 0xE000 {
                return Err(TextError::Malformed);
            }
            let code: u32 = 0x10000 + ((u - 0xD800) as u32) * 0x400 + ((w - 0xDC00) as u32);
            let c = match char_from_u32(code) {
                Some(c) => c,
                None => return Err(TextError::Malformed),
            };
            out.push(c);
            proof {
                assert(tail.subrange(2, tail.len() as int) =~= units.skip(i + 2));
                assert forall|rest: Seq<char>| true implies before + (seq![c] + rest) == out@
                    + rest by {
                    assert(before + (seq![c] + rest) =~= out@ + rest);
                }
            }
            i = i + 2;
        }
    }
    proof {
        assert(units.skip(i as int) =~= Seq::<u16>::empty());
        assert(out@ + Seq::<char>::empty() =~= out@);
    }
    Ok(out)
}

/// Decodes the bytes of a text column in the given encoding.
pub fn decode_text(bytes: &Vec<u8>, enc: TextEncoding) -> (r: Result<String, TextError>)
    ensures
        match (r, spec_decode_text(bytes@, enc)) {
            (Ok(v), Ok(s)) => v@ == s,
            (Err(e), Err(f)) => e == f,
            _ => false,
        },
{
    let chars = if enc == TextEncoding::Utf16Le {
        decode_utf16(bytes)
    } else {
        decode_single_byte(bytes, enc)
    };
    match chars {
        Ok(v) => Ok(string_of(&v)),
        Err(e) => Err(e),
    }
}

/// The UTF-16LE bytes of `s`, a surrogate pair for each character beyond the first plane.
pub fn encode_utf16(s: &str) -> (r: Vec<u8>)
    ensures
        r@ == utf16_bytes(s@),
{
    let n = s.unicode_len();
    let mut out: Vec<u8> = Vec::new();
    let mut i: usize = 0;
    while i < n
        invariant
            n == s@.len(),
            i <= n,
            out@ == utf16_bytes(s@.subrange(0, i as int)),
        decreases n - i,
    {
        let c = s.get_char(i);
        let u = c as u32;
        if u < 0x10000 {
            out.push((u % 256) as u8);
            out.push((u / 256) as u8);
        } else {
            let v: u32 = u - 0x10000;
            let hi: u32 = 0xD800 + v / 0x400;
            let lo: u32 = 0xDC00 + v % 0x400;
            out.push((hi % 256) as u8);
            out.push((hi / 256) as u8);
            out.push((lo % 256) as u8);
            out.push((lo / 256) as u8);
        }
        proof {
            let p = s@.subrange(0, i + 1);
            assert(p.drop_last() =~= s@.subrange(0, i as int));
            assert(p.last() == c);
            assert(out@ =~= utf16_bytes(p));
        }
        i = i + 1;
    }
    proof {
        assert(s@.subrange(0, n as int) =~= s@);
    }
    out
}

/// Encodes text in the given encoding; fails on a character the codepage cannot hold.
pub fn encode_text(s: &str, enc: TextEncoding) -> (r: Result<Vec<u8>, TextError>)
    ensures
        match (r, spec_encode_text(s@, enc)) {
            (Ok(v), Ok(t)) => v@ == t,
            (Err(e), Err(f)) => e == f,
            _ => false,
        },
{
    if enc == TextEncoding::Utf16Le {
        Ok(encode_utf16(s))
    } else {
        let n = s.unicode_len();
        let mut out: Vec<u8> = Vec::new();
        let mut i: usize = 0;
        let max: u32 = if enc == TextEncoding::Ascii {
            0x7F
        } else {
            0xFF
        };
        while i < n
            invariant
                n == s@.len(),
                i <= n,
                max == single_byte_max(enc),
                enc != TextEncoding::Utf16Le,
                out@ == s@.subrange(0, i as int).map_values(|c: char| (c as u32) as u8),
                forall|j: int| 0 <= j < i ==> s@[j] as u32 <= max,
            decreases n - i,
        {
            let c = s.get_char(i);
            if c as u32 > max {
                assert(s@[i as int] as u32 > single_byte_max(enc));
                assert(exists|j: int| 0 <= j < s@.len() && s@[j] as u32 > single_byte_max(enc));
                assert(spec_encode_text(s@, enc) == Err::<Seq<u8>, TextError>(
                    TextError::Unrepresentable,
                ));
                return Err(TextError::Unrepresentable);
            }
            out.push(c as u32 as u8);
            proof {
                assert(s@.subrange(0, i + 1).map_values(|c: char| (c as u32) as u8) =~= out@);
            }
            i = i + 1;
        }
        proof {
            assert(s@.subrange(0, n as int) =~= s@);
        }
        Ok(out)
    }
}

} // verus!
