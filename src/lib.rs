use vstd::prelude::*;

pub mod collation;
pub mod context;
pub mod framing;
pub mod numeric;
pub mod packet;
pub mod time;
pub mod wire;
pub mod xml;

verus! {

/// The number of bytes a packet header occupies on the wire.
pub const HEADER_BYTES: usize = 8;

} // verus!
