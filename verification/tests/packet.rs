use udplink::bytes::{_read_u16, _read_u64, _write_u16, _write_u64, read_u32, read_u8, write_u32, write_u8};
use udplink::packet::{
    datagram, decode, decode_gives_up, encode, ConfirmPacket, Packet, PacketError, PayloadPacket,
    PACKET_CONFIRM, PACKET_CONNECT, PACKET_DENY, PACKET_DISCONNECT, PACKET_KEEPALIVE,
    PACKET_PAYLOAD,
};
use udplink::server::PROTOCOL_ID;

fn payload(bytes: Vec<u8>) -> Packet {
    Packet::Payload(PayloadPacket { bytes })
}

#[test]
fn connect_encodes_to_header_only() {
    let mut buf = [0u8; 6];
    let n = encode(&mut buf[..], PROTOCOL_ID, &Packet::Connect).unwrap();
    assert_eq!(n, 5);
    assert_eq!(buf, [0xFE, 0xEF, 0xBA, 0xAB, PACKET_CONNECT, 0]);
}

#[test]
fn payload_encodes_length_then_bytes() {
    let mut buf = [0u8; 5 + 1 + 2];
    let n = encode(&mut buf[..], PROTOCOL_ID, &payload(vec![42, 24])).unwrap();
    assert_eq!(n, 8);
    assert_eq!(buf, [0xFE, 0xEF, 0xBA, 0xAB, PACKET_PAYLOAD, 2, 42, 24]);
}

#[test]
fn confirm_encodes_client_id() {
    let mut buf = [9u8; 8];
    let n = encode(&mut buf[..], 1, &Packet::Confirm(ConfirmPacket { client_id: 7 })).unwrap();
    assert_eq!(n, 6);
    assert_eq!(buf, [0, 0, 0, 1, PACKET_CONFIRM, 7, 9, 9]);
}

#[test]
fn encode_into_short_buffer_is_cut_short() {
    let mut buf = [0u8; 3];
    let n = encode(&mut buf[..], PROTOCOL_ID, &payload(vec![1, 2, 3])).unwrap();
    assert_eq!(n, 3);
    assert_eq!(buf, [0xFE, 0xEF, 0xBA]);
    let mut empty: [u8; 0] = [];
    assert_eq!(encode(&mut empty[..], PROTOCOL_ID, &Packet::Deny).unwrap(), 0);
}

#[test]
fn long_payload_length_byte_wraps() {
    let mut buf = [0u8; 300];
    let bytes: Vec<u8> = (0..256u32).map(|i| i as u8).collect();
    let n = encode(&mut buf[..], 5, &payload(bytes)).unwrap();
    assert_eq!(n, 5 + 1 + 256);
    assert_eq!(buf[5], 0);
    assert_eq!(buf[6], 0);
    assert_eq!(buf[261], 255);
}

#[test]
fn every_packet_round_trips() {
    let packets = vec![
        Packet::Connect,
        Packet::Confirm(ConfirmPacket { client_id: 3 }),
        Packet::Deny,
        Packet::KeepAlive,
        payload(vec![96, 69]),
        payload(vec![]),
        Packet::Disconnect,
    ];
    for p in packets {
        let mut buf = [0xAAu8; 256];
        let n = encode(&mut buf[..], PROTOCOL_ID, &p).unwrap();
        assert!(n >= 5);
        let (seq, q) = decode(&buf[..], PROTOCOL_ID).unwrap();
        assert_eq!(seq, 0);
        assert_eq!(q, p);
    }
}

#[test]
fn type_ids() {
    assert_eq!(Packet::Connect.get_type_id(), PACKET_CONNECT);
    assert_eq!(Packet::Confirm(ConfirmPacket { client_id: 1 }).get_type_id(), PACKET_CONFIRM);
    assert_eq!(Packet::Deny.get_type_id(), PACKET_DENY);
    assert_eq!(Packet::KeepAlive.get_type_id(), PACKET_KEEPALIVE);
    assert_eq!(payload(vec![1]).get_type_id(), PACKET_PAYLOAD);
    assert_eq!(Packet::Disconnect.get_type_id(), PACKET_DISCONNECT);
}

#[test]
fn decode_short_header_is_io_error() {
    let buf = [0xFE, 0xEF, 0xBA, 0xAB];
    assert!(matches!(decode(&buf[..], PROTOCOL_ID), Err(PacketError::GenericIO(_))));
    assert!(matches!(decode(&[][..], PROTOCOL_ID), Err(PacketError::GenericIO(_))));
}

#[test]
fn decode_other_protocol_is_invalid() {
    let buf = [0xFE, 0xEF, 0xBA, 0xAC, PACKET_CONNECT];
    assert!(matches!(decode(&buf[..], PROTOCOL_ID), Err(PacketError::InvalidPacket)));
}

#[test]
fn decode_unknown_type_is_invalid() {
    let buf = [0xFE, 0xEF, 0xBA, 0xAB, 6];
    assert!(matches!(decode(&buf[..], PROTOCOL_ID), Err(PacketError::InvalidPacket)));
}

#[test]
fn decode_ignores_trailing_bytes() {
    let buf = [0xFE, 0xEF, 0xBA, 0xAB, PACKET_PAYLOAD, 1, 77, 1, 2, 3];
    let (_, p) = decode(&buf[..], PROTOCOL_ID).unwrap();
    assert_eq!(p, payload(vec![77]));
}

#[test]
fn decode_gives_up_on_short_bodies() {
    let confirm = [0xFE, 0xEF, 0xBA, 0xAB, PACKET_CONFIRM];
    assert!(decode_gives_up(&confirm[..], PROTOCOL_ID));
    let pay = [0xFE, 0xEF, 0xBA, 0xAB, PACKET_PAYLOAD, 3, 1, 2];
    assert!(decode_gives_up(&pay[..], PROTOCOL_ID));
    let ok = [0xFE, 0xEF, 0xBA, 0xAB, PACKET_PAYLOAD, 2, 1, 2];
    assert!(!decode_gives_up(&ok[..], PROTOCOL_ID));
    let other = [0xFE, 0xEF, 0xBA, 0xAC, PACKET_CONFIRM];
    assert!(!decode_gives_up(&other[..], PROTOCOL_ID));
}

#[test]
fn datagram_is_cut_to_what_was_written() {
    let d = datagram(256, PROTOCOL_ID, &Packet::KeepAlive);
    assert_eq!(d, vec![0xFE, 0xEF, 0xBA, 0xAB, PACKET_KEEPALIVE]);
    let d = datagram(4, PROTOCOL_ID, &Packet::KeepAlive);
    assert_eq!(d, vec![0xFE, 0xEF, 0xBA, 0xAB]);
}

#[test]
fn integers_are_big_endian() {
    let mut buf = [0u8; 16];
    let mut pos = 0usize;
    assert_eq!(write_u8(&mut buf[..], &mut pos, 0x12), 1);
    assert_eq!(_write_u16(&mut buf[..], &mut pos, 0x3456), 2);
    assert_eq!(write_u32(&mut buf[..], &mut pos, 0x789A_BCDE), 4);
    assert_eq!(_write_u64(&mut buf[..], &mut pos, 0x0102_0304_0506_0708), 8);
    assert_eq!(pos, 15);
    assert_eq!(
        buf,
        [0x12, 0x34, 0x56, 0x78, 0x9A, 0xBC, 0xDE, 1, 2, 3, 4, 5, 6, 7, 8, 0]
    );
    let mut pos = 0usize;
    assert_eq!(read_u8(&buf[..], &mut pos).unwrap(), 0x12);
    assert_eq!(_read_u16(&buf[..], &mut pos).unwrap(), 0x3456);
    assert_eq!(read_u32(&buf[..], &mut pos).unwrap(), 0x789A_BCDE);
    assert_eq!(_read_u64(&buf[..], &mut pos).unwrap(), 0x0102_0304_0506_0708);
    assert_eq!(pos, 15);
}

#[test]
fn writes_stop_at_the_end() {
    let mut buf = [0u8; 3];
    let mut pos = 1usize;
    assert_eq!(write_u32(&mut buf[..], &mut pos, 0xAABB_CCDD), 2);
    assert_eq!(pos, 3);
    assert_eq!(buf, [0, 0xAA, 0xBB]);
    assert_eq!(write_u8(&mut buf[..], &mut pos, 1), 0);
    assert_eq!(pos, 3);
}

#[test]
fn reads_past_the_end_fail() {
    let buf = [1u8, 2, 3];
    let mut pos = 1usize;
    let err = read_u32(&buf[..], &mut pos).unwrap_err();
    assert_eq!(err.kind(), std::io::ErrorKind::UnexpectedEof);
    assert_eq!(pos, 3);
    assert!(read_u8(&buf[..], &mut pos).is_err());
    let mut pos = 0usize;
    assert!(_read_u64(&buf[..], &mut pos).is_err());
    let mut pos = 2usize;
    assert!(_read_u16(&buf[..], &mut pos).is_err());
}

#[test]
fn payload_and_confirm_bodies() {
    let data = [3u8, 10, 20, 30, 40];
    let mut pos = 0usize;
    let p = PayloadPacket::from(&data[..], &mut pos).unwrap();
    assert_eq!(p.bytes, vec![10, 20, 30]);
    assert_eq!(pos, 4);
    let c = ConfirmPacket::from(&data[..], &mut pos).unwrap();
    assert_eq!(c.client_id, 40);
    assert_eq!(pos, 5);
    assert!(ConfirmPacket::from(&data[..], &mut pos).is_err());
    assert!(PayloadPacket::from(&data[..], &mut pos).is_err());

    let mut out = [0u8; 4];
    let mut pos = 0usize;
    assert_eq!(p.write(&mut out[..], &mut pos), 3);
    assert_eq!(out, [3, 10, 20, 30]);
    let mut out = [0u8; 2];
    let mut pos = 0usize;
    assert_eq!(p.write(&mut out[..], &mut pos), 1);
    assert_eq!(out, [3, 10]);
    let mut pos = 1usize;
    assert_eq!(c.write(&mut out[..], &mut pos), 1);
    assert_eq!(out, [3, 40]);
}

#[test]
fn packet_error_from_io_error() {
    let e: PacketError = std::io::Error::new(std::io::ErrorKind::Other, "x").into();
    assert!(matches!(e, PacketError::GenericIO(_)));
}

#[test]
fn cursor_past_the_end() {
    let data = [1u8, 2];
    let mut pos = 5usize;
    assert!(read_u8(&data[..], &mut pos).is_err());
    assert_eq!(pos, 2);
    let mut pos = 7usize;
    assert!(read_u32(&data[..], &mut pos).is_err());
    assert_eq!(pos, 2);
    let mut out = [0u8; 2];
    let mut pos = 3usize;
    assert_eq!(write_u32(&mut out[..], &mut pos, 0xFFFF_FFFF), 0);
    assert_eq!(pos, 3);
    assert_eq!(out, [0, 0]);
    let p = PayloadPacket { bytes: vec![1, 2] };
    assert_eq!(p.write(&mut out[..], &mut pos), 0);
    assert_eq!(out, [0, 0]);
    let mut pos = 9usize;
    assert!(PayloadPacket::from(&data[..], &mut pos).is_err());
    assert_eq!(pos, 2);
}
