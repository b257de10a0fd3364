use vstd::prelude::*;

use crate::context::{Context, ContextView};
use crate::packet::{FramingError, PacketHeader, PacketStatus, PacketType};
use crate::wire::append_range;
use crate::HEADER_BYTES;

verus! {

/// A header together with the payload bytes it announces.
#[derive(Debug)]
pub struct Packet {
    pub header: PacketHeader,
    pub payload: Vec<u8>,
}

/// The payloads of `ps`, concatenated in order.
pub open spec fn payloads(ps: Seq<Packet>) -> Seq<u8>
    decreases ps.len(),
{
    if ps.len() == 0 {
        Seq::empty()
    } else {
        ps[0].payload@ + payloads(ps.drop_first())
    }
}

/// The message that the packets `ps` carry, read up to the first end-of-message packet.
pub open spec fn spec_defragment(ps: Seq<Packet>, packet_size: u32) -> Result<Seq<u8>, FramingError>
    decreases ps.len(),
{
    if ps.len() == 0 {
        Err(FramingError::Incomplete)
    } else if ps[0].header.length as nat != HEADER_BYTES + ps[0].payload@.len() {
        Err(FramingError::LengthMismatch)
    } else if ps[0].header.length > packet_size {
        Err(FramingError::PacketTooLarge)
    } else if ps[0].header.status == PacketStatus::EndOfMessage {
        Ok(ps[0].payload@)
    } else {
        match spec_defragment(ps.drop_first(), packet_size) {
            Ok(rest) => Ok(ps[0].payload@ + rest),
            Err(e) => Err(e),
        }
    }
}

/// A packet size that leaves room for payload and fits a header's length field.
pub open spec fn usable_packet_size(packet_size: u32) -> bool {
    HEADER_BYTES < packet_size <= u16::MAX
}

/// The header of packet `i` out of `n` in a message of type `ty` whose first packet id is `first_id`.
pub open spec fn framed_header(ty: PacketType, first_id: u8, i: int, n: int, chunk_len: nat) -> PacketHeader {
    PacketHeader {
        ty,
        status: if i == n - 1 {
            PacketStatus::EndOfMessage
        } else {
            PacketStatus::NormalMessage
        },
        length: (HEADER_BYTES + chunk_len) as u16,
        spid: 0,
        id: ((first_id + i) % 256) as u8,
        window: 0,
    }
}

/// `ps` is `payload` cut into chunks of `packet_size - HEADER_BYTES` bytes (the last one
/// shorter and, unless it is the only one, not empty), each under its own header.
pub open spec fn is_framing_of(
    ps: Seq<Packet>,
    payload: Seq<u8>,
    packet_size: u32,
    ty: PacketType,
    first_id: u8,
) -> bool {
    let n = ps.len() as int;
    let chunk = packet_size - HEADER_BYTES;
    &&& n >= 1
    &&& payloads(ps) == payload
    &&& forall|i: int|
        0 <= i < n ==> #[trigger] ps[i].header == framed_header(
            ty,
            first_id,
            i,
            n,
            ps[i].payload@.len(),
        )
    &&& forall|i: int| 0 <= i < n - 1 ==> #[trigger] ps[i].payload@.len() == chunk
    &&& ps[n - 1].payload@.len() <= chunk
    &&& (n == 1 || ps[n - 1].payload@.len() >= 1)
}

proof fn lemma_payloads_push(ps: Seq<Packet>, p: Packet)
    ensures
        payloads(ps.push(p)) == payloads(ps) + p.payload@,
    decreases ps.len(),
{
    if ps.len() == 0 {
        assert(ps.push(p).drop_first() =~= ps);
    } else {
        lemma_payloads_push(ps.drop_first(), p);
        assert(ps.push(p).drop_first() =~= ps.drop_first().push(p));
    }
}

/// Splits `payload` into packets that fit the context's packet size, drawing one packet id
/// per packet from the context.
pub fn frame(ctx: &mut Context, ty: PacketType, payload: &Vec<u8>) -> (r: Result<
    Vec<Packet>,
    FramingError,
>)
    ensures
        usable_packet_size(old(ctx)@.packet_size) <==> r is Ok,
        r is Err ==> r == Err::<Vec<Packet>, FramingError>(FramingError::InvalidPacketSize)
            && final(ctx)@ == old(ctx)@,
        r matches Ok(ps) ==> is_framing_of(
            ps@,
            payload@,
            old(ctx)@.packet_size,
            ty,
            old(ctx)@.packet_id,
        ) && final(ctx)@ == (ContextView {
            packet_id: ((old(ctx)@.packet_id + ps@.len()) % 256) as u8,
            ..old(ctx)@
        }),
{
    let size = ctx.packet_size();
    if size <= 8 || size > 65535 {
        return Err(FramingError::InvalidPacketSize);
    }
    let chunk: usize = (size - 8) as usize;
    let len = payload.len();
    let ghost first_id = old(ctx)@.packet_id;
    let ghost start = old(ctx)@;
    let mut out: Vec<Packet> = Vec::new();
    let mut pos: usize = 0;
    let mut done = false;
    while !done
        invariant
            len == payload@.len(),
            chunk == size - 8,
            8 < size <= 65535,
            start.packet_size == size,
            start.packet_id == first_id,
            pos <= len,
            payloads(out@) == payload@.subrange(0, pos as int),
            forall|i: int|
                0 <= i < out@.len() ==> #[trigger] out@[i].header == framed_header(
                    ty,
                    first_id,
                    i,
                    if done {
                        out@.len() as int
                    } else {
                        out@.len() + 1int
                    },
                    out@[i].payload@.len(),
                ),
            forall|i: int|
                0 <= i < out@.len() && (!done || i < out@.len() - 1) ==> #[trigger] out@[i].payload@.len()
                    == chunk,
            done ==> pos == len && out@.len() >= 1 && out@[out@.len() - 1].payload@.len() <= chunk
                && (out@.len() == 1 || out@[out@.len() - 1].payload@.len() >= 1),
            !done && out@.len() > 0 ==> pos < len,
            ctx@ == (ContextView {
                packet_id: ((first_id + out@.len()) % 256) as u8,
                ..start
            }),
        decreases len - pos + if done {
            0int
        } else {
            1int
        },
    {
        let end: usize = if len - pos <= chunk {
            len
        } else {
            pos + chunk
        };
        let last = end == len;
        let mut bytes: Vec<u8> = Vec::new();
        append_range(&mut bytes, payload, pos, end);
        proof {
            assert(bytes@ =~= payload@.subrange(pos as int, end as int));
        }
        let mut header = ctx.new_header(8 + (end - pos));
        header.ty = ty;
        header.status = if last {
            PacketStatus::EndOfMessage
        } else {
            PacketStatus::NormalMessage
        };
        let p = Packet { header, payload: bytes };
        let ghost before = out@;
        proof {
            lemma_payloads_push(before, p);
            assert(payload@.subrange(0, pos as int) + payload@.subrange(pos as int, end as int)
                =~= payload@.subrange(0, end as int));
            assert(((first_id + before.len()) % 256 + 1) % 256 == (first_id + before.len() + 1)
                % 256);
        }
        out.push(p);
        pos = end;
        done = last;
        proof {
            assert forall|i: int| 0 <= i < out@.len() implies #[trigger] out@[i].header
                == framed_header(
                ty,
                first_id,
                i,
                if done {
                    out@.len() as int
                } else {
                    out@.len() + 1int
                },
                out@[i].payload@.len(),
            ) by {
                if i < before.len() {
                    assert(out@[i] == before[i]);
                }
            }
        }
    }
    proof {
        assert(payload@.subrange(0, len as int) =~= payload@);
    }
    Ok(out)
}

/// Reassembles one message: concatenates payloads up to the first end-of-message packet,
/// checking each header's length against its payload and the packet size.
pub fn defragment(packets: &Vec<Packet>, packet_size: u32) -> (r: Result<Vec<u8>, FramingError>)
    ensures
        match (r, spec_defragment(packets@, packet_size)) {
            (Ok(v), Ok(s)) => v@ == s,
            (Err(e), Err(f)) => e == f,
            _ => false,
        },
{
    let mut acc: Vec<u8> = Vec::new();
    let mut i: usize = 0;
    proof {
        assert(packets@.skip(0) =~= packets@);
        assert forall|rest: Seq<u8>| true implies acc@ + rest == rest by {
            assert(acc@ + rest =~= rest);
        }
    }
    while i < packets.len()
        invariant
            i <= packets@.len(),
            spec_defragment(packets@, packet_size) == match spec_defragment(
                packets@.skip(i as int),
                packet_size,
            ) {
                Ok(rest) => Ok(acc@ + rest),
                Err(e) => Err(e),
            },
        decreases packets@.len() - i,
    {
        let p = &packets[i];
        let ghost tail = packets@.skip(i as int);
        proof {
            assert(tail.drop_first() =~= packets@.skip(i + 1));
            assert(tail[0] == packets@[i as int]);
        }
        if (p.header.length as usize) < 8 || p.payload.len() != p.header.length as usize - 8 {
            return Err(FramingError::LengthMismatch);
        }
        if p.header.length as u32 > packet_size {
            return Err(FramingError::PacketTooLarge);
        }
        let ghost before = acc@;
        append_range(&mut acc, &p.payload, 0, p.payload.len());
        proof {
            assert(p.payload@.subrange(0, p.payload@.len() as int) =~= p.payload@);
            assert forall|rest: Seq<u8>| true implies before + (p.payload@ + rest) == acc@ + rest by {
                assert(before + (p.payload@ + rest) =~= acc@ + rest);
            }
        }
        if p.header.status == PacketStatus::EndOfMessage {
            proof {
                assert(acc@ =~= before + p.payload@);
            }
            return Ok(acc);
        }
        i = i + 1;
    }
    proof {
        assert(packets@.skip(i as int) =~= Seq::<Packet>::empty());
    }
    Err(FramingError::Incomplete)
}

proof fn lemma_defragment_tail(ps: Seq<Packet>, packet_size: u32)
    requires
        ps.len() >= 1,
        forall|i: int|
            0 <= i < ps.len() ==> #[trigger] ps[i].header.length as nat == HEADER_BYTES
                + ps[i].payload@.len() && ps[i].header.length <= packet_size,
        forall|i: int| 0 <= i < ps.len() - 1 ==> #[trigger] ps[i].header.status != PacketStatus::EndOfMessage,
        ps[ps.len() - 1].header.status == PacketStatus::EndOfMessage,
    ensures
        spec_defragment(ps, packet_size) == Ok::<Seq<u8>, FramingError>(payloads(ps)),
    decreases ps.len(),
{
    assert(ps[0].header.length as nat == HEADER_BYTES + ps[0].payload@.len());
    if ps.len() == 1 {
        assert(ps.drop_first() =~= Seq::<Packet>::empty());
        assert(payloads(ps.drop_first()) == Seq::<u8>::empty());
        assert(ps[0].payload@ + Seq::<u8>::empty() =~= ps[0].payload@);
    } else {
        let rest = ps.drop_first();
        assert(ps[0].header.status != PacketStatus::EndOfMessage);
        assert forall|i: int| 0 <= i < rest.len() implies #[trigger] rest[i].header.length as nat
            == HEADER_BYTES + rest[i].payload@.len() && rest[i].header.length <= packet_size by {
            assert(rest[i] == ps[i + 1]);
        }
        assert forall|i: int| 0 <= i < rest.len() - 1 implies #[trigger] rest[i].header.status
            != PacketStatus::EndOfMessage by {
            assert(rest[i] == ps[i + 1]);
        }
        lemma_defragment_tail(rest, packet_size);
    }
}

/// Reassembling the packets that framing produced gives back the payload, whatever its
/// length and whatever usable packet size was in force.
pub proof fn lemma_defragment_frame(
    ps: Seq<Packet>,
    payload: Seq<u8>,
    packet_size: u32,
    ty: PacketType,
    first_id: u8,
)
    requires
        usable_packet_size(packet_size),
        is_framing_of(ps, payload, packet_size, ty, first_id),
    ensures
        spec_defragment(ps, packet_size) == Ok::<Seq<u8>, FramingError>(payload),
{
    let n = ps.len() as int;
    assert forall|i: int| 0 <= i < n implies #[trigger] ps[i].header.length as nat == HEADER_BYTES
        + ps[i].payload@.len() && ps[i].header.length <= packet_size by {
        assert(ps[i].header == framed_header(ty, first_id, i, n, ps[i].payload@.len()));
        if i < n - 1 {
            assert(ps[i].payload@.len() == packet_size - HEADER_BYTES);
        }
    }
    assert forall|i: int| 0 <= i < n - 1 implies #[trigger] ps[i].header.status
        != PacketStatus::EndOfMessage by {
        assert(ps[i].header == framed_header(ty, first_id, i, n, ps[i].payload@.len()));
    }
    assert(ps[n - 1].header == framed_header(ty, first_id, n - 1, n, ps[n - 1].payload@.len()));
    lemma_defragment_tail(ps, packet_size);
}

} // verus!
