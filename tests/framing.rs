use tds::context::Context;
use tds::framing::{defragment, frame, Packet};
use tds::packet::{FramingError, PacketHeader, PacketStatus, PacketType};

fn payload(n: usize) -> Vec<u8> {
    (0..n).map(|i| (i * 7 % 251) as u8).collect()
}

#[test]
fn frame_then_defragment_gives_payload() {
    for size in [9u32, 10, 17, 512, 4096] {
        for n in [0usize, 1, 2, 7, 8, 9, 100, 1000] {
            let mut ctx = Context::new();
            ctx.set_packet_size(size);
            let p = payload(n);
            let packets = frame(&mut ctx, PacketType::SqlBatch, &p).unwrap();
            let chunk = (size - 8) as usize;
            let expected = if n == 0 { 1 } else { (n + chunk - 1) / chunk };
            assert_eq!(packets.len(), expected);
            assert_eq!(defragment(&packets, size).unwrap(), p);
        }
    }
}

#[test]
fn frame_marks_last_packet_only() {
    let mut ctx = Context::new();
    ctx.set_packet_size(12);
    let packets = frame(&mut ctx, PacketType::Rpc, &payload(10)).unwrap();
    assert_eq!(packets.len(), 3);
    let statuses: Vec<PacketStatus> = packets.iter().map(|p| p.header.status).collect();
    assert_eq!(
        statuses,
        vec![PacketStatus::NormalMessage, PacketStatus::NormalMessage, PacketStatus::EndOfMessage]
    );
    let lens: Vec<u16> = packets.iter().map(|p| p.header.length).collect();
    assert_eq!(lens, vec![12, 12, 10]);
    let ids: Vec<u8> = packets.iter().map(|p| p.header.id).collect();
    assert_eq!(ids, vec![0, 1, 2]);
    assert!(packets.iter().all(|p| p.header.ty == PacketType::Rpc));
    assert_eq!(ctx.new_header(8).id, 3);
}

#[test]
fn negotiated_packet_size_changes_payload_bound() {
    let mut ctx = Context::new();
    let p = payload(9000);
    let before = frame(&mut ctx, PacketType::SqlBatch, &p).unwrap();
    assert_eq!(before[0].payload.len(), 4088);
    ctx.set_packet_size(8192);
    let after = frame(&mut ctx, PacketType::SqlBatch, &p).unwrap();
    assert_eq!(after[0].payload.len(), 8184);
    assert_eq!(after[0].header.length, 8192);
    assert_eq!(after.len(), 2);
}

#[test]
fn frame_rejects_unusable_packet_size() {
    let mut ctx = Context::new();
    ctx.set_packet_size(8);
    assert_eq!(frame(&mut ctx, PacketType::SqlBatch, &payload(3)).unwrap_err(), FramingError::InvalidPacketSize);
    ctx.set_packet_size(70000);
    assert_eq!(frame(&mut ctx, PacketType::SqlBatch, &payload(3)).unwrap_err(), FramingError::InvalidPacketSize);
    assert_eq!(ctx.new_header(8).id, 0);
}

fn packet(status: PacketStatus, length: u16, body: Vec<u8>) -> Packet {
    let mut header = PacketHeader::new(length as usize, 0);
    header.ty = PacketType::TabularResult;
    header.status = status;
    Packet { header, payload: body }
}

#[test]
fn defragment_stops_at_end_of_message() {
    let packets = vec![
        packet(PacketStatus::NormalMessage, 10, vec![1, 2]),
        packet(PacketStatus::EndOfMessage, 9, vec![3]),
        packet(PacketStatus::EndOfMessage, 9, vec![4]),
    ];
    assert_eq!(defragment(&packets, 4096).unwrap(), vec![1, 2, 3]);
}

#[test]
fn defragment_length_mismatch() {
    let packets = vec![packet(PacketStatus::EndOfMessage, 11, vec![1, 2])];
    assert_eq!(defragment(&packets, 4096).unwrap_err(), FramingError::LengthMismatch);
    let short = vec![packet(PacketStatus::EndOfMessage, 3, vec![])];
    assert_eq!(defragment(&short, 4096).unwrap_err(), FramingError::LengthMismatch);
}

#[test]
fn defragment_packet_too_large() {
    let packets = vec![packet(PacketStatus::EndOfMessage, 12, vec![0; 4])];
    assert_eq!(defragment(&packets, 11).unwrap_err(), FramingError::PacketTooLarge);
}

#[test]
fn defragment_incomplete() {
    let packets = vec![packet(PacketStatus::NormalMessage, 9, vec![5])];
    assert_eq!(defragment(&packets, 4096).unwrap_err(), FramingError::Incomplete);
    assert_eq!(defragment(&vec![], 4096).unwrap_err(), FramingError::Incomplete);
}

#[test]
fn header_wire_layout() {
    let mut h = PacketHeader::new(0x1234, 7);
    h.ty = PacketType::SqlBatch;
    h.status = PacketStatus::EndOfMessage;
    h.spid = 0x0102;
    let bytes = h.encode();
    assert_eq!(bytes, vec![1, 1, 0x12, 0x34, 0x01, 0x02, 7, 0]);
    assert_eq!(PacketHeader::decode(&bytes).unwrap(), h);
}

#[test]
fn header_decode_errors() {
    assert_eq!(PacketHeader::decode(&vec![1, 1, 0]).unwrap_err(), FramingError::LengthMismatch);
    assert_eq!(PacketHeader::decode(&vec![5, 1, 0, 8, 0, 0, 0, 0]).unwrap_err(), FramingError::UnknownCode);
    assert_eq!(PacketHeader::decode(&vec![1, 4, 0, 8, 0, 0, 0, 0]).unwrap_err(), FramingError::UnknownCode);
}

#[test]
fn type_and_status_codes() {
    assert_eq!(PacketType::PreLogin.code(), 18);
    assert_eq!(PacketType::from_code(18), Some(PacketType::PreLogin));
    assert_eq!(PacketType::from_code(0), None);
    assert_eq!(PacketStatus::ResetConnection.code(), 0x08);
    assert_eq!(PacketStatus::from_code(0x10), Some(PacketStatus::ResetConnectionSkipTran));
    assert_eq!(PacketStatus::from_code(0x03), None);
}
