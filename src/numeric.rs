use vstd::prelude::*;

use crate::wire::{
    le_bytes, le_value, lemma_le_round_trip, lemma_pow256_16,
    lemma_pow256_monotonic, pow10, pow256, power_of_ten, read_le, write_le,
};

verus! {

/// A decimal value: `magnitude * 10^-scale`, negated when `positive` is false.
#[derive(Clone, Copy, Debug, PartialEq, Eq, Structural)]
pub struct Numeric {
    pub precision: u8,
    pub scale: u8,
    pub positive: bool,
    pub magnitude: u128,
}

/// Why a numeric value could not be encoded or decoded.
#[derive(Clone, Copy, Debug, PartialEq, Eq, Structural)]
pub enum NumericError {
    /// Precision outside 1..=38, scale above precision, or malformed bytes.
    ProtocolViolation,
    /// The magnitude does not fit the width that the precision selects.
    Overflow,
}

/// Precision is in 1..=38 and scale does not exceed it.
pub open spec fn valid_shape(precision: u8, scale: u8) -> bool {
    1 <= precision <= 38 && scale <= precision
}

/// Bytes that carry the magnitude for a given precision.
pub open spec fn spec_width(precision: u8) -> nat {
    if precision <= 9 {
        4
    } else if precision <= 19 {
        8
    } else if precision <= 28 {
        12
    } else {
        16
    }
}

/// The wire form: a sign byte (1 positive, 0 negative), then the magnitude little-endian.
pub open spec fn spec_encoding(n: Numeric) -> Seq<u8> {
    seq![if n.positive { 1u8 } else { 0u8 }] + le_bytes(n.magnitude as nat, spec_width(n.precision))
}

/// What encoding `n` yields.
pub open spec fn spec_encode(n: Numeric) -> Result<Seq<u8>, NumericError> {
    if !valid_shape(n.precision, n.scale) {
        Err(NumericError::ProtocolViolation)
    } else if n.magnitude as nat >= pow256(spec_width(n.precision)) {
        Err(NumericError::Overflow)
    } else {
        Ok(spec_encoding(n))
    }
}

/// What decoding `b` under the column's precision and scale yields.
pub open spec fn spec_decode(b: Seq<u8>, precision: u8, scale: u8) -> Result<Numeric, NumericError> {
    if !valid_shape(precision, scale) || b.len() != 1 + spec_width(precision) || b[0] > 1 {
        Err(NumericError::ProtocolViolation)
    } else {
        Ok(
            Numeric {
                precision,
                scale,
                positive: b[0] == 1,
                magnitude: le_value(b.drop_first()) as u128,
            },
        )
    }
}

/// Bytes that carry the magnitude for a given precision, in 1..=38.
pub fn width(precision: u8) -> (r: usize)
    ensures
        r as nat == spec_width(precision),
{
    if precision <= 9 {
        4
    } else if precision <= 19 {
        8
    } else if precision <= 28 {
        12
    } else {
        16
    }
}

impl Numeric {
    /// Encodes the value as a sign byte followed by the magnitude.
    pub fn encode(&self) -> (r: Result<Vec<u8>, NumericError>)
        ensures
            match (r, spec_encode(*self)) {
                (Ok(v), Ok(s)) => v@ == s,
                (Err(e), Err(f)) => e == f,
                _ => false,
            },
    {
        if self.precision < 1 || self.precision > 38 || self.scale > self.precision {
            return Err(NumericError::ProtocolViolation);
        }
        let w = width(self.precision);
        proof {
            lemma_pow256_monotonic(w as nat, 16);
            lemma_pow256_16();
        }
        if w < 16 {
            let limit: u128 = 1u128 << ((8 * w) as u128);
            proof {
                assert(limit as nat == pow256(w as nat)) by {
                    if w == 4 {
                        assert(1u128 << 32u128 == 0x1_0000_0000u128) by (bit_vector);
                        reveal_with_fuel(pow256, 5);
                    } else if w == 8 {
                        assert(1u128 << 64u128 == 0x1_0000_0000_0000_0000u128) by (bit_vector);
                        reveal_with_fuel(pow256, 9);
                    } else {
                        assert(1u128 << 96u128 == 0x1_0000_0000_0000_0000_0000_0000u128)
                            by (bit_vector);
                        reveal_with_fuel(pow256, 13);
                    }
                }
            }
            if self.magnitude >= limit {
                return Err(NumericError::Overflow);
            }
        }
        let mut out: Vec<u8> = Vec::new();
        out.push(if self.positive { 1u8 } else { 0u8 });
        write_le(&mut out, self.magnitude, w);
        Ok(out)
    }

    /// Decodes a sign byte and magnitude written for a column of the given precision and scale.
    pub fn decode(bytes: &Vec<u8>, precision: u8, scale: u8) -> (r: Result<Numeric, NumericError>)
        ensures
            r == spec_decode(bytes@, precision, scale),
    {
        if precision < 1 || precision > 38 || scale > precision {
            return Err(NumericError::ProtocolViolation);
        }
        let w = width(precision);
        if bytes.len() != w + 1 || bytes[0] > 1 {
            return Err(NumericError::ProtocolViolation);
        }
        let magnitude = read_le(bytes, 1, w + 1);
        proof {
            assert(bytes@.subrange(1, w + 1) =~= bytes@.drop_first());
        }
        Ok(Numeric { precision, scale, positive: bytes[0] == 1, magnitude })
    }
}

impl Numeric {
    /// The digits before the decimal point: `magnitude / 10^scale`.
    pub fn integer_part(&self) -> (r: u128)
        requires
            self.scale <= 38,
        ensures
            r as nat == self.magnitude as nat / pow10(self.scale as nat),
    {
        self.magnitude / power_of_ten(self.scale)
    }

    /// The digits after the decimal point, as an integer: `magnitude % 10^scale`.
    pub fn fractional_part(&self) -> (r: u128)
        requires
            self.scale <= 38,
        ensures
            r as nat == self.magnitude as nat % pow10(self.scale as nat),
    {
        self.magnitude % power_of_ten(self.scale)
    }
}

/// Decoding what encoding produced gives back the value.
pub proof fn lemma_numeric_round_trip(n: Numeric)
    requires
        valid_shape(n.precision, n.scale),
        (n.magnitude as nat) < pow256(spec_width(n.precision)),
    ensures
        spec_encode(n) == Ok::<Seq<u8>, NumericError>(spec_encoding(n)),
        spec_decode(spec_encoding(n), n.precision, n.scale) == Ok::<Numeric, NumericError>(n),
{
    let w = spec_width(n.precision);
    let b = spec_encoding(n);
    lemma_le_round_trip(n.magnitude as nat, w);
    assert(b.drop_first() =~= le_bytes(n.magnitude as nat, w));
}

} // verus!
