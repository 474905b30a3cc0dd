use udplink::client::{Client, ClientError};
use udplink::packet::{datagram, ConfirmPacket, Packet, PayloadPacket, PACKET_KEEPALIVE};

const PID: u32 = 0x0A0B_0C0D;

fn confirmed(id: u8) -> Client {
    let buf = datagram(6, PID, &Packet::Confirm(ConfirmPacket { client_id: id }));
    Client::new(&buf, PID).unwrap()
}

#[test]
fn connect_request_is_six_bytes() {
    assert_eq!(Client::connect_request(PID), vec![0x0A, 0x0B, 0x0C, 0x0D, 0, 0]);
}

#[test]
fn confirm_gives_id() {
    let c = confirmed(3);
    assert_eq!(c.get_id(), 3);
}

#[test]
fn deny_is_refused() {
    let buf = datagram(6, PID, &Packet::Deny);
    assert!(matches!(Client::new(&buf, PID), Err(ClientError::ConnectionDenied)));
}

#[test]
fn other_answer_is_unexpected() {
    // no answer came: the buffer still holds the connect request
    let buf = Client::connect_request(PID);
    assert!(Client::accepts_response(&buf, PID));
    assert!(matches!(Client::new(&buf, PID), Err(ClientError::UnexpectedResponse)));
    let short = [0x0A, 0x0B, 0x0C, 0x0D, 1];
    assert!(!Client::accepts_response(&short, PID));
}

#[test]
fn keepalive_is_answered_in_place() {
    let mut c = confirmed(3);
    let mut buf = vec![0u8; 256];
    buf[..5].copy_from_slice(&[0x0A, 0x0B, 0x0C, 0x0D, PACKET_KEEPALIVE]);
    buf[5] = 99;
    let reply = c.handle_datagram(&mut buf);
    assert_eq!(reply, Some(5));
    assert_eq!(&buf[..6], &[0x0A, 0x0B, 0x0C, 0x0D, PACKET_KEEPALIVE, 99]);
    assert_eq!(c.poll(), None);
}

#[test]
fn disconnect_queues_marker() {
    let mut c = confirmed(3);
    let mut buf = datagram(256, PID, &Packet::Disconnect);
    assert_eq!(c.handle_datagram(&mut buf), None);
    assert_eq!(c.poll(), Some(vec![0xD, 0xE, 0xA, 0xD, 0xD, 0xE, 0xA, 0xD]));
    assert_eq!(c.poll(), None);
}

#[test]
fn payloads_are_queued_in_order() {
    let mut c = confirmed(3);
    for bytes in [vec![1u8, 2], vec![3u8]] {
        let mut buf = datagram(256, PID, &Packet::Payload(PayloadPacket { bytes }));
        assert_eq!(c.handle_datagram(&mut buf), None);
    }
    assert_eq!(c.poll(), Some(vec![1, 2]));
    assert_eq!(c.poll(), Some(vec![3]));
}

#[test]
fn other_packets_are_ignored() {
    let mut c = confirmed(3);
    let mut buf = datagram(256, PID, &Packet::Deny);
    assert!(c.accepts(&buf));
    assert_eq!(c.handle_datagram(&mut buf), None);
    assert_eq!(c.poll(), None);
}

#[test]
fn send_and_disconnect_datagrams() {
    let c = confirmed(3);
    assert_eq!(c.send(vec![42, 24]), vec![0x0A, 0x0B, 0x0C, 0x0D, 4, 2, 42, 24]);
    let ds = c.disconnect();
    assert_eq!(ds.len(), 10);
    for d in ds {
        assert_eq!(d, vec![0x0A, 0x0B, 0x0C, 0x0D, 5]);
    }
}
