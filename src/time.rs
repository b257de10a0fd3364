use vstd::prelude::*;

use crate::wire::{
    le_bytes, le_value, lemma_le_round_trip, lemma_le_value_bound, lemma_pow10_9,
    lemma_pow10_monotonic, pow10, pow256, power_of_ten, read_le, write_le,
};

verus! {

/// Why a date or time value could not be encoded or decoded.
#[derive(Clone, Copy, Debug, PartialEq, Eq, Structural)]
pub enum TimeError {
    /// Scale above 7, or a byte count that the scale does not allow.
    ProtocolViolation,
    /// The value does not fit the width that its scale selects.
    Overflow,
    /// The value has more fractional digits than the scale keeps.
    Truncation,
}

/// Time of day as a count of `10^-scale` second increments since midnight.
#[derive(Clone, Copy, Debug, PartialEq, Eq, Structural)]
pub struct Time {
    pub increments: u64,
    pub scale: u8,
}

/// A day count since the first day of year one.
#[derive(Clone, Copy, Debug, PartialEq, Eq, Structural)]
pub struct Date {
    pub days: u32,
}

/// Bytes that carry a time of the given scale.
pub open spec fn spec_time_width(scale: u8) -> nat {
    if scale <= 2 {
        3
    } else if scale <= 4 {
        4
    } else {
        5
    }
}

/// What encoding `t` yields.
pub open spec fn spec_encode_time(t: Time) -> Result<Seq<u8>, TimeError> {
    if t.scale > 7 {
        Err(TimeError::ProtocolViolation)
    } else if t.increments as nat >= pow256(spec_time_width(t.scale)) {
        Err(TimeError::Overflow)
    } else {
        Ok(le_bytes(t.increments as nat, spec_time_width(t.scale)))
    }
}

/// What decoding `b` as a time of the given scale yields.
pub open spec fn spec_decode_time(b: Seq<u8>, scale: u8) -> Result<Time, TimeError> {
    if scale > 7 || b.len() != spec_time_width(scale) {
        Err(TimeError::ProtocolViolation)
    } else {
        Ok(Time { increments: le_value(b) as u64, scale })
    }
}

/// What converting `nanos` nanoseconds to increments of the given scale yields.
pub open spec fn spec_from_nanos(nanos: u64, scale: u8) -> Result<Time, TimeError> {
    if scale > 7 {
        Err(TimeError::ProtocolViolation)
    } else if nanos as nat % pow10((9 - scale) as nat) != 0 {
        Err(TimeError::Truncation)
    } else {
        Ok(Time { increments: (nanos as nat / pow10((9 - scale) as nat)) as u64, scale })
    }
}

/// Bytes that carry a time of the given scale.
pub fn time_width(scale: u8) -> (r: usize)
    ensures
        r as nat == spec_time_width(scale),
{
    if scale <= 2 {
        3
    } else if scale <= 4 {
        4
    } else {
        5
    }
}

proof fn lemma_time_limit(w: nat)
    requires
        3 <= w <= 5,
    ensures
        pow256(w) <= 0x100_0000_0000,
{
    reveal_with_fuel(pow256, 6);
}

impl Time {
    /// The time `nanos` nanoseconds after midnight at the given scale; fails rather than drop digits.
    pub fn from_nanos(nanos: u64, scale: u8) -> (r: Result<Time, TimeError>)
        ensures
            r == spec_from_nanos(nanos, scale),
    {
        if scale > 7 {
            return Err(TimeError::ProtocolViolation);
        }
        proof {
            lemma_pow10_monotonic((9 - scale) as nat, 9);
            lemma_pow10_9();
        }
        let divisor: u64 = power_of_ten(9 - scale) as u64;
        if nanos % divisor != 0 {
            return Err(TimeError::Truncation);
        }
        Ok(Time { increments: nanos / divisor, scale })
    }

    /// The increments written little-endian in the width that the scale selects.
    pub fn encode(&self) -> (r: Result<Vec<u8>, TimeError>)
        ensures
            match (r, spec_encode_time(*self)) {
                (Ok(v), Ok(s)) => v@ == s,
                (Err(e), Err(f)) => e == f,
                _ => false,
            },
    {
        if self.scale > 7 {
            return Err(TimeError::ProtocolViolation);
        }
        let w = time_width(self.scale);
        let limit: u64 = if w == 3 {
            0x100_0000
        } else if w == 4 {
            0x1_0000_0000
        } else {
            0x100_0000_0000
        };
        proof {
            reveal_with_fuel(pow256, 6);
        }
        if self.increments >= limit {
            return Err(TimeError::Overflow);
        }
        let mut out: Vec<u8> = Vec::new();
        write_le(&mut out, self.increments as u128, w);
        proof {
            assert(out@ =~= le_bytes(self.increments as nat, w as nat));
        }
        Ok(out)
    }

    /// Reads a time of the given scale.
    pub fn decode(bytes: &Vec<u8>, scale: u8) -> (r: Result<Time, TimeError>)
        ensures
            r == spec_decode_time(bytes@, scale),
    {
        if scale > 7 {
            return Err(TimeError::ProtocolViolation);
        }
        let w = time_width(scale);
        if bytes.len() != w {
            return Err(TimeError::ProtocolViolation);
        }
        let v = read_le(bytes, 0, w);
        proof {
            assert(bytes@.subrange(0, w as int) =~= bytes@);
            lemma_le_value_bound(bytes@);
            lemma_time_limit(w as nat);
        }
        Ok(Time { increments: v as u64, scale })
    }
}

impl Date {
    /// The day count in three little-endian bytes.
    pub fn encode(&self) -> (r: Result<Vec<u8>, TimeError>)
        ensures
            match r {
                Ok(v) => self.days < 0x100_0000 && v@ == le_bytes(self.days as nat, 3),
                Err(e) => e == TimeError::Overflow && self.days >= 0x100_0000,
            },
    {
        if self.days >= 0x100_0000 {
            return Err(TimeError::Overflow);
        }
        proof {
            reveal_with_fuel(pow256, 4);
        }
        let mut out: Vec<u8> = Vec::new();
        write_le(&mut out, self.days as u128, 3);
        proof {
            assert(out@ =~= le_bytes(self.days as nat, 3));
        }
        Ok(out)
    }

    /// Reads a day count from three little-endian bytes.
    pub fn decode(bytes: &Vec<u8>) -> (r: Result<Date, TimeError>)
        ensures
            match r {
                Ok(d) => bytes@.len() == 3 && d.days as nat == le_value(bytes@),
                Err(e) => e == TimeError::ProtocolViolation && bytes@.len() != 3,
            },
    {
        if bytes.len() != 3 {
            return Err(TimeError::ProtocolViolation);
        }
        let v = read_le(bytes, 0, 3);
        proof {
            assert(bytes@.subrange(0, 3) =~= bytes@);
            lemma_le_value_bound(bytes@);
            reveal_with_fuel(pow256, 4);
        }
        Ok(Date { days: v as u32 })
    }
}

/// For every scale from 0 to 7 and every increment count that its width holds, decoding
/// the encoded time gives back the time.
pub proof fn lemma_time_round_trip(t: Time)
    requires
        t.scale <= 7,
        (t.increments as nat) < pow256(spec_time_width(t.scale)),
    ensures
        spec_encode_time(t) == Ok::<Seq<u8>, TimeError>(
            le_bytes(t.increments as nat, spec_time_width(t.scale)),
        ),
        spec_decode_time(le_bytes(t.increments as nat, spec_time_width(t.scale)), t.scale) == Ok::<
            Time,
            TimeError,
        >(t),
{
    lemma_le_round_trip(t.increments as nat, spec_time_width(t.scale));
}

/// Decoding an encoded date gives back the date.
pub proof fn lemma_date_round_trip(d: Date)
    requires
        d.days < 0x100_0000,
    ensures
        le_value(le_bytes(d.days as nat, 3)) == d.days as nat,
{
    reveal_with_fuel(pow256, 4);
    lemma_le_round_trip(d.days as nat, 3);
}

} // verus!
