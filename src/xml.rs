use vstd::prelude::*;

use crate::collation::{
    decode_text, encode_utf16, lemma_utf16_round_trip, spec_decode_text, utf16_bytes, TextEncoding,
    TextError,
};
use crate::wire::{append_range, le_bytes, le_value, lemma_le_round_trip, pow256, read_le, write_le};

verus! {

/// Marker in the total-length field of a null value.
pub const PLP_NULL: u64 = 0xFFFF_FFFF_FFFF_FFFF;

/// The schema collection an XML value is typed by.
#[derive(Debug)]
pub struct XmlSchema {
    pub db_name: String,
    pub owner: String,
    pub collection: String,
}

/// An XML value: its text and, where it is typed, its schema collection.
#[derive(Debug)]
pub struct XmlData {
    pub schema: Option<XmlSchema>,
    pub text: String,
}

/// Why an XML value could not be decoded.
#[derive(Clone, Copy, Debug, PartialEq, Eq, Structural)]
pub enum XmlError {
    /// The bytes end early, carry trailing bytes, or hold an unknown flag.
    Malformed,
    /// The text is not valid UTF-16.
    Text,
}

/// The payload of a chunked value: each chunk is a 4-byte little-endian length and that many
/// bytes, and a zero length ends the value, which must also end the bytes.
pub open spec fn plp_chunks(b: Seq<u8>) -> Option<Seq<u8>>
    decreases b.len(),
{
    if b.len() < 4 {
        None
    } else {
        let n = le_value(b.subrange(0, 4)) as int;
        if n == 0 {
            if b.len() == 4 {
                Some(Seq::empty())
            } else {
                None
            }
        } else if b.len() < 4 + n {
            None
        } else {
            match plp_chunks(b.subrange(4 + n, b.len() as int)) {
                Some(rest) => Some(b.subrange(4, 4 + n) + rest),
                None => None,
            }
        }
    }
}

/// Concatenates the chunks of `bytes[start..]`.
pub fn read_chunks(bytes: &Vec<u8>, start: usize) -> (r: Option<Vec<u8>>)
    requires
        start <= bytes@.len(),
    ensures
        match r {
            Some(v) => plp_chunks(bytes@.subrange(start as int, bytes@.len() as int)) == Some(v@),
            None => plp_chunks(bytes@.subrange(start as int, bytes@.len() as int)) is None,
        },
{
    let len = bytes.len();
    let ghost whole = bytes@.subrange(start as int, len as int);
    let mut acc: Vec<u8> = Vec::new();
    let mut pos: usize = start;
    proof {
        assert forall|rest: Seq<u8>| true implies acc@ + rest == rest by {
            assert(acc@ + rest =~= rest);
        }
    }
    while len - pos >= 4
        invariant
            start <= pos <= len,
            len == bytes@.len(),
            whole == bytes@.subrange(start as int, len as int),
            plp_chunks(whole) == match plp_chunks(bytes@.subrange(pos as int, len as int)) {
                Some(rest) => Some(acc@ + rest),
                None => None,
            },
        decreases len - pos,
    {
        let ghost tail = bytes@.subrange(pos as int, len as int);
        let n = read_le(bytes, pos, pos + 4);
        proof {
            assert(tail.subrange(0, 4) =~= bytes@.subrange(pos as int, pos + 4));
        }
        if n == 0 {
            if pos + 4 == len {
                proof {
                    assert(acc@ + Seq::<u8>::empty() =~= acc@);
                }
                return Some(acc);
            }
            return None;
        }
        if n > (len - pos - 4) as u128 {
            return None;
        }
        let end: usize = pos + 4 + n as usize;
        let ghost before = acc@;
        append_range(&mut acc, bytes, pos + 4, end);
        proof {
            assert(tail.subrange(4, 4 + n as int) =~= bytes@.subrange(pos + 4, end as int));
            assert(tail.subrange(4 + n as int, tail.len() as int) =~= bytes@.subrange(end as int, len as int));
            assert forall|rest: Seq<u8>| true implies before + (tail.subrange(4, 4 + n as int) + rest) == acc@
                + rest by {
                assert(before + (tail.subrange(4, 4 + n as int) + rest) =~= acc@ + rest);
            }
        }
        pos = end;
    }
    None
}

/// Where the UTF-16 bytes of a name start and end, for a name at `pos` whose unit count is
/// one byte, or two little-endian bytes when `wide`.
pub open spec fn name_span(b: Seq<u8>, pos: int, wide: bool) -> Option<(int, int)> {
    let hdr: int = if wide {
        2
    } else {
        1
    };
    if pos < 0 || pos + hdr > b.len() {
        None
    } else {
        let n = le_value(b.subrange(pos, pos + hdr)) as int;
        if pos + hdr + 2 * n > b.len() {
            None
        } else {
            Some((pos + hdr, pos + hdr + 2 * n))
        }
    }
}

/// The spans of the three schema names, if the value is typed, and where its body starts.
pub open spec fn xml_layout(b: Seq<u8>) -> Option<(Option<(int, int, int, int, int, int)>, int)> {
    if b.len() < 1 {
        None
    } else if b[0] == 0 {
        Some((None, 1))
    } else if b[0] == 1 {
        match name_span(b, 1, false) {
            None => None,
            Some((a1, e1)) => match name_span(b, e1, false) {
                None => None,
                Some((a2, e2)) => match name_span(b, e2, true) {
                    None => None,
                    Some((a3, e3)) => Some((Some((a1, e1, a2, e2, a3, e3)), e3)),
                },
            },
        }
    } else {
        None
    }
}

/// The text of UTF-16LE bytes.
pub open spec fn wide_text(b: Seq<u8>) -> Result<Seq<char>, TextError> {
    spec_decode_text(b, TextEncoding::Utf16Le)
}

/// The schema names that the spans select.
pub open spec fn spec_names(b: Seq<u8>, spans: Option<(int, int, int, int, int, int)>) -> Result<
    Option<(Seq<char>, Seq<char>, Seq<char>)>,
    XmlError,
> {
    match spans {
        None => Ok(None),
        Some((a1, e1, a2, e2, a3, e3)) => match (
            wide_text(b.subrange(a1, e1)),
            wide_text(b.subrange(a2, e2)),
            wide_text(b.subrange(a3, e3)),
        ) {
            (Ok(x), Ok(y), Ok(z)) => Ok(Some((x, y, z))),
            _ => Err(XmlError::Text),
        },
    }
}

/// What decoding an XML value yields: `None` for a null value, else its schema names and text.
pub open spec fn spec_decode_xml(b: Seq<u8>) -> Result<
    Option<(Option<(Seq<char>, Seq<char>, Seq<char>)>, Seq<char>)>,
    XmlError,
> {
    match xml_layout(b) {
        None => Err(XmlError::Malformed),
        Some((spans, p)) => match spec_names(b, spans) {
            Err(e) => Err(e),
            Ok(names) => if p + 8 > b.len() {
                Err(XmlError::Malformed)
            } else if le_value(b.subrange(p, p + 8)) == PLP_NULL as nat {
                if p + 8 == b.len() {
                    Ok(None)
                } else {
                    Err(XmlError::Malformed)
                }
            } else {
                match plp_chunks(b.subrange(p + 8, b.len() as int)) {
                    None => Err(XmlError::Malformed),
                    Some(d) => match wide_text(d) {
                        Ok(t) => Ok(Some((names, t))),
                        Err(_) => Err(XmlError::Text),
                    },
                }
            },
        },
    }
}

fn span(bytes: &Vec<u8>, pos: usize, wide: bool) -> (r: Option<(usize, usize)>)
    ensures
        match r {
            Some((a, e)) => name_span(bytes@, pos as int, wide) == Some((a as int, e as int)),
            None => name_span(bytes@, pos as int, wide) is None,
        },
{
    let len = bytes.len();
    let hdr: usize = if wide {
        2
    } else {
        1
    };
    if pos > len || len - pos < hdr {
        return None;
    }
    let n = read_le(bytes, pos, pos + hdr);
    proof {
        if wide {
            crate::wire::lemma_le_value_bound(bytes@.subrange(pos as int, pos + hdr));
            reveal_with_fuel(crate::wire::pow256, 3);
        } else {
            crate::wire::lemma_le_value_bound(bytes@.subrange(pos as int, pos + hdr));
            reveal_with_fuel(crate::wire::pow256, 2);
        }
    }
    if 2 * (n as usize) > len - pos - hdr {
        return None;
    }
    Some((pos + hdr, pos + hdr + 2 * (n as usize)))
}

fn wide_text_of(bytes: &Vec<u8>, start: usize, end: usize) -> (r: Result<String, XmlError>)
    requires
        start <= end <= bytes@.len(),
    ensures
        match (r, wide_text(bytes@.subrange(start as int, end as int))) {
            (Ok(s), Ok(t)) => s@ == t,
            (Err(e), Err(_)) => e == XmlError::Text,
            _ => false,
        },
{
    let mut part: Vec<u8> = Vec::new();
    append_range(&mut part, bytes, start, end);
    proof {
        assert(part@ =~= bytes@.subrange(start as int, end as int));
    }
    match decode_text(&part, TextEncoding::Utf16Le) {
        Ok(s) => Ok(s),
        Err(_) => Err(XmlError::Text),
    }
}

/// Decodes an XML value: a flag byte, the schema names when the flag is 1, then a chunked
/// UTF-16 body whose 8-byte total length is all ones for a null value.
pub fn decode_xml(bytes: &Vec<u8>) -> (r: Result<Option<XmlData>, XmlError>)
    ensures
        match (r, spec_decode_xml(bytes@)) {
            (Ok(None), Ok(None)) => true,
            (Ok(Some(x)), Ok(Some((names, t)))) => x.text@ == t && match (x.schema, names) {
                (None, None) => true,
                (Some(s), Some((a, b, c))) => s.db_name@ == a && s.owner@ == b && s.collection@
                    == c,
                _ => false,
            },
            (Err(e), Err(f)) => e == f,
            _ => false,
        },
{
    let len = bytes.len();
    if len < 1 || bytes[0] > 1 {
        return Err(XmlError::Malformed);
    }
    let mut p: usize = 1;
    let mut schema: Option<XmlSchema> = None;
    if bytes[0] == 1 {
        let (a1, e1) = match span(bytes, 1, false) {
            Some(s) => s,
            None => return Err(XmlError::Malformed),
        };
        let (a2, e2) = match span(bytes, e1, false) {
            Some(s) => s,
            None => return Err(XmlError::Malformed),
        };
        let (a3, e3) = match span(bytes, e2, true) {
            Some(s) => s,
            None => return Err(XmlError::Malformed),
        };
        let db_name = match wide_text_of(bytes, a1, e1) {
            Ok(t) => t,
            Err(e) => return Err(e),
        };
        let owner = match wide_text_of(bytes, a2, e2) {
            Ok(t) => t,
            Err(e) => return Err(e),
        };
        let collection = match wide_text_of(bytes, a3, e3) {
            Ok(t) => t,
            Err(e) => return Err(e),
        };
        schema = Some(XmlSchema { db_name, owner, collection });
        p = e3;
    }
    if len - p < 8 {
        return Err(XmlError::Malformed);
    }
    let total = read_le(bytes, p, p + 8);
    if total == PLP_NULL as u128 {
        if p + 8 == len {
            return Ok(None);
        }
        return Err(XmlError::Malformed);
    }
    let data = match read_chunks(bytes, p + 8) {
        Some(d) => d,
        None => return Err(XmlError::Malformed),
    };
    match decode_text(&data, TextEncoding::Utf16Le) {
        Ok(text) => Ok(Some(XmlData { schema, text })),
        Err(_) => Err(XmlError::Text),
    }
}

/// `data` as chunks of at most `chunk` bytes, each after its 4-byte length, then a zero length.
pub open spec fn plp_encode(data: Seq<u8>, chunk: nat) -> Seq<u8>
    decreases data.len(),
{
    if data.len() == 0 || chunk == 0 {
        le_bytes(0, 4)
    } else {
        let k = if data.len() < chunk {
            data.len()
        } else {
            chunk
        };
        le_bytes(k, 4) + data.subrange(0, k as int) + plp_encode(
            data.subrange(k as int, data.len() as int),
            chunk,
        )
    }
}

/// The wire form of untyped XML text: flag 0, the total byte length, then the chunked
/// UTF-16LE text.
pub open spec fn spec_encode_xml(text: Seq<char>, chunk: nat) -> Seq<u8> {
    seq![0u8] + le_bytes(utf16_bytes(text).len(), 8) + plp_encode(utf16_bytes(text), chunk)
}

/// Encodes untyped XML text in chunks of at most `chunk_size` bytes.
pub fn encode_xml(text: &str, chunk_size: u32) -> (r: Vec<u8>)
    requires
        chunk_size >= 1,
    ensures
        r@ == spec_encode_xml(text@, chunk_size as nat),
{
    let data = encode_utf16(text);
    let mut out: Vec<u8> = Vec::new();
    out.push(0u8);
    proof {
        reveal_with_fuel(crate::wire::pow256, 9);
        assert(crate::wire::pow256(8) == 0x1_0000_0000_0000_0000);
        reveal_with_fuel(crate::wire::pow256, 5);
    }
    write_le(&mut out, data.len() as u128, 8);
    let ghost head = out@;
    let len = data.len();
    let chunk = chunk_size as usize;
    let mut pos: usize = 0;
    proof {
        assert(data@.subrange(0, len as int) =~= data@);
    }
    while pos < len
        invariant
            pos <= len == data@.len(),
            chunk == chunk_size,
            chunk >= 1,
            crate::wire::pow256(4) == 0x1_0000_0000,
            out@ + plp_encode(data@.subrange(pos as int, len as int), chunk as nat) == head
                + plp_encode(data@, chunk as nat),
        decreases len - pos,
    {
        let k: usize = if len - pos < chunk {
            len - pos
        } else {
            chunk
        };
        let ghost rest = data@.subrange(pos as int, len as int);
        let ghost before = out@;
        write_le(&mut out, k as u128, 4);
        append_range(&mut out, &data, pos, pos + k);
        proof {
            assert(rest.subrange(0, k as int) =~= data@.subrange(pos as int, pos + k));
            assert(rest.subrange(k as int, rest.len() as int) =~= data@.subrange(
                pos + k,
                len as int,
            ));
            assert(out@ + plp_encode(data@.subrange(pos + k, len as int), chunk as nat) =~= before
                + plp_encode(rest, chunk as nat));
        }
        pos = pos + k;
    }
    write_le(&mut out, 0, 4);
    proof {
        assert(data@.subrange(pos as int, len as int) =~= Seq::<u8>::empty());
        assert(out@ =~= head + plp_encode(data@, chunk as nat));
    }
    out
}

proof fn lemma_plp_round_trip(d: Seq<u8>, chunk: nat)
    requires
        1 <= chunk < 0x1_0000_0000,
    ensures
        plp_chunks(plp_encode(d, chunk)) == Some(d),
    decreases d.len(),
{
    reveal_with_fuel(pow256, 5);
    let e = plp_encode(d, chunk);
    if d.len() == 0 {
        lemma_le_round_trip(0, 4);
        assert(e.subrange(0, 4) =~= e);
    } else {
        let k = if d.len() < chunk {
            d.len()
        } else {
            chunk
        };
        let rest = d.subrange(k as int, d.len() as int);
        lemma_le_round_trip(k, 4);
        lemma_plp_round_trip(rest, chunk);
        assert(e.subrange(0, 4) =~= le_bytes(k, 4));
        assert(e.subrange(4, 4 + k as int) =~= d.subrange(0, k as int));
        assert(e.subrange(4 + k as int, e.len() as int) =~= plp_encode(rest, chunk));
        assert(d.subrange(0, k as int) + rest =~= d);
    }
}

/// Decoding what `encode_xml` produced gives back the text, untyped and not null.
pub proof fn lemma_xml_round_trip(text: Seq<char>, chunk: nat)
    requires
        1 <= chunk < 0x1_0000_0000,
        utf16_bytes(text).len() < PLP_NULL,
    ensures
        spec_decode_xml(spec_encode_xml(text, chunk)) == Ok::<
            Option<(Option<(Seq<char>, Seq<char>, Seq<char>)>, Seq<char>)>,
            XmlError,
        >(Some((None, text))),
{
    let data = utf16_bytes(text);
    let b = spec_encode_xml(text, chunk);
    reveal_with_fuel(pow256, 9);
    assert(pow256(8) == 0x1_0000_0000_0000_0000);
    lemma_le_round_trip(data.len(), 8);
    lemma_plp_round_trip(data, chunk);
    lemma_utf16_round_trip(text);
    let p = plp_encode(data, chunk);
    assert(p.len() >= 4) by {
        reveal_with_fuel(pow256, 5);
        if data.len() > 0 {
            let k = if data.len() < chunk {
                data.len()
            } else {
                chunk
            };
            lemma_le_round_trip(k, 4);
        } else {
            lemma_le_round_trip(0, 4);
        }
    }
    assert(b[0] == 0);
    assert(b.subrange(1, 9) =~= le_bytes(data.len(), 8));
    assert(b.subrange(9, b.len() as int) =~= p);
}

} // verus!
