use vstd::prelude::*;

use crate::HEADER_BYTES;

verus! {

/// The kind of message a packet belongs to.
#[derive(Clone, Copy, Debug, PartialEq, Eq, Structural)]
pub enum PacketType {
    SqlBatch,
    PreTdsV7Login,
    Rpc,
    TabularResult,
    AttentionSignal,
    BulkLoad,
    Fat,
    TransactionManagerReq,
    TdsV7Login,
    Sspi,
    PreLogin,
}

/// The status bits of a packet header.
#[derive(Clone, Copy, Debug, PartialEq, Eq, Structural)]
pub enum PacketStatus {
    NormalMessage,
    EndOfMessage,
    IgnoreEvent,
    ResetConnection,
    ResetConnectionSkipTran,
}

/// The wire code of each packet type.
pub open spec fn spec_type_code(t: PacketType) -> u8 {
    match t {
        PacketType::SqlBatch => 1,
        PacketType::PreTdsV7Login => 2,
        PacketType::Rpc => 3,
        PacketType::TabularResult => 4,
        PacketType::AttentionSignal => 6,
        PacketType::BulkLoad => 7,
        PacketType::Fat => 8,
        PacketType::TransactionManagerReq => 14,
        PacketType::TdsV7Login => 16,
        PacketType::Sspi => 17,
        PacketType::PreLogin => 18,
    }
}

/// The wire code of each status.
pub open spec fn spec_status_code(s: PacketStatus) -> u8 {
    match s {
        PacketStatus::NormalMessage => 0x00,
        PacketStatus::EndOfMessage => 0x01,
        PacketStatus::IgnoreEvent => 0x02,
        PacketStatus::ResetConnection => 0x08,
        PacketStatus::ResetConnectionSkipTran => 0x10,
    }
}

impl PacketType {
    pub fn code(self) -> (r: u8)
        ensures
            r == spec_type_code(self),
    {
        match self {
            PacketType::SqlBatch => 1,
            PacketType::PreTdsV7Login => 2,
            PacketType::Rpc => 3,
            PacketType::TabularResult => 4,
            PacketType::AttentionSignal => 6,
            PacketType::BulkLoad => 7,
            PacketType::Fat => 8,
            PacketType::TransactionManagerReq => 14,
            PacketType::TdsV7Login => 16,
            PacketType::Sspi => 17,
            PacketType::PreLogin => 18,
        }
    }

    /// The packet type with the given wire code, if there is one.
    pub fn from_code(c: u8) -> (r: Option<PacketType>)
        ensures
            match r {
                Some(t) => spec_type_code(t) == c,
                None => forall|t: PacketType| spec_type_code(t) != c,
            },
    {
        match c {
            1 => Some(PacketType::SqlBatch),
            2 => Some(PacketType::PreTdsV7Login),
            3 => Some(PacketType::Rpc),
            4 => Some(PacketType::TabularResult),
            6 => Some(PacketType::AttentionSignal),
            7 => Some(PacketType::BulkLoad),
            8 => Some(PacketType::Fat),
            14 => Some(PacketType::TransactionManagerReq),
            16 => Some(PacketType::TdsV7Login),
            17 => Some(PacketType::Sspi),
            18 => Some(PacketType::PreLogin),
            _ => None,
        }
    }
}

impl PacketStatus {
    pub fn code(self) -> (r: u8)
        ensures
            r == spec_status_code(self),
    {
        match self {
            PacketStatus::NormalMessage => 0x00,
            PacketStatus::EndOfMessage => 0x01,
            PacketStatus::IgnoreEvent => 0x02,
            PacketStatus::ResetConnection => 0x08,
            PacketStatus::ResetConnectionSkipTran => 0x10,
        }
    }

    /// The status with the given wire code, if there is one.
    pub fn from_code(c: u8) -> (r: Option<PacketStatus>)
        ensures
            match r {
                Some(s) => spec_status_code(s) == c,
                None => forall|s: PacketStatus| spec_status_code(s) != c,
            },
    {
        match c {
            0x00 => Some(PacketStatus::NormalMessage),
            0x01 => Some(PacketStatus::EndOfMessage),
            0x02 => Some(PacketStatus::IgnoreEvent),
            0x08 => Some(PacketStatus::ResetConnection),
            0x10 => Some(PacketStatus::ResetConnectionSkipTran),
            _ => None,
        }
    }
}

/// The fixed header in front of every packet.
#[derive(Clone, Copy, Debug, PartialEq, Eq, Structural)]
pub struct PacketHeader {
    pub ty: PacketType,
    pub status: PacketStatus,
    /// Header and payload together, in bytes.
    pub length: u16,
    pub spid: u16,
    pub id: u8,
    pub window: u8,
}

/// Why a packet or a message could not be taken apart.
#[derive(Clone, Copy, Debug, PartialEq, Eq, Structural)]
pub enum FramingError {
    /// A header's length disagrees with the bytes that follow it, or is shorter than a header.
    LengthMismatch,
    /// A packet is longer than the negotiated packet size.
    PacketTooLarge,
    /// The packets ended before one marked the end of the message.
    Incomplete,
    /// A header holds an unknown type or status code.
    UnknownCode,
    /// The packet size leaves no room for payload after the header, or exceeds a header's length field.
    InvalidPacketSize,
}

/// The eight header bytes: type, status, length and process id big-endian, packet id, window.
pub open spec fn spec_header_bytes(h: PacketHeader) -> Seq<u8> {
    seq![
        spec_type_code(h.ty),
        spec_status_code(h.status),
        (h.length / 256) as u8,
        (h.length % 256) as u8,
        (h.spid / 256) as u8,
        (h.spid % 256) as u8,
        h.id,
        h.window,
    ]
}

impl PacketHeader {
    /// A login header of `length` bytes with packet id `id`; type and status are set by the caller.
    pub open spec fn spec_new(length: usize, id: u8) -> PacketHeader {
        PacketHeader {
            ty: PacketType::TdsV7Login,
            status: PacketStatus::ResetConnection,
            length: length as u16,
            spid: 0,
            id,
            window: 0,
        }
    }

    pub fn new(length: usize, id: u8) -> (r: PacketHeader)
        requires
            length <= u16::MAX,
        ensures
            r == PacketHeader::spec_new(length, id),
    {
        PacketHeader {
            ty: PacketType::TdsV7Login,
            status: PacketStatus::ResetConnection,
            length: length as u16,
            spid: 0,
            id,
            window: 0,
        }
    }

    /// The header's wire form.
    pub fn encode(&self) -> (r: Vec<u8>)
        ensures
            r@ == spec_header_bytes(*self),
    {
        let mut out: Vec<u8> = Vec::new();
        out.push(self.ty.code());
        out.push(self.status.code());
        out.push((self.length / 256) as u8);
        out.push((self.length % 256) as u8);
        out.push((self.spid / 256) as u8);
        out.push((self.spid % 256) as u8);
        out.push(self.id);
        out.push(self.window);
        proof {
            assert(out@ =~= spec_header_bytes(*self));
        }
        out
    }

    /// Reads a header from the first eight bytes of `bytes`.
    pub fn decode(bytes: &Vec<u8>) -> (r: Result<PacketHeader, FramingError>)
        ensures
            match r {
                Ok(h) => bytes@.len() >= HEADER_BYTES && spec_header_bytes(h) == bytes@.subrange(
                    0,
                    HEADER_BYTES as int,
                ),
                Err(e) => e == FramingError::LengthMismatch && bytes@.len() < HEADER_BYTES || e
                    == FramingError::UnknownCode && bytes@.len() >= HEADER_BYTES && ((forall|
                    t: PacketType,
                | spec_type_code(t) != bytes@[0]) || (forall|s: PacketStatus|
                    spec_status_code(s) != bytes@[1])),
            },
    {
        if bytes.len() < HEADER_BYTES {
            return Err(FramingError::LengthMismatch);
        }
        let ty = match PacketType::from_code(bytes[0]) {
            Some(t) => t,
            None => return Err(FramingError::UnknownCode),
        };
        let status = match PacketStatus::from_code(bytes[1]) {
            Some(s) => s,
            None => return Err(FramingError::UnknownCode),
        };
        let length: u16 = (bytes[2] as u16) * 256 + bytes[3] as u16;
        let spid: u16 = (bytes[4] as u16) * 256 + bytes[5] as u16;
        let h = PacketHeader { ty, status, length, spid, id: bytes[6], window: bytes[7] };
        proof {
            assert(spec_header_bytes(h) =~= bytes@.subrange(0, HEADER_BYTES as int));
        }
        Ok(h)
    }
}

} // verus!
