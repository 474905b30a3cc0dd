use udplink::connection::{Address, Connection, UpdateResult, KEEPALIVE_TIME, TIMEOUT_TIME};
use udplink::packet::{Packet, PacketError, PACKET_KEEPALIVE};

fn addr(port: u16) -> Address {
    Address { ip: 0x7F00_0001, port, v6: false, flowinfo: 0, scope_id: 0 }
}

#[test]
fn new_connection_keeps_id_and_address() {
    let c = Connection::new(&addr(9421), 4, 77, 1000);
    assert_eq!(c.get_id(), 4);
    assert_eq!(c.get_address(), addr(9421));
}

#[test]
fn encode_gives_the_datagram() {
    let c = Connection::new(&addr(1), 4, 0x0102_0304, 0);
    let d = c.encode(&Packet::KeepAlive);
    assert_eq!(d, vec![1, 2, 3, 4, PACKET_KEEPALIVE]);
}

#[test]
fn failed_send_changes_nothing() {
    let mut c = Connection::new(&addr(1), 4, 9, 1_000);
    let err = std::io::Error::new(std::io::ErrorKind::Other, "down");
    assert!(matches!(c.send(5, Err(err), 0), Err(PacketError::GenericIO(_))));
    // last_sent is still 1_000, so no keepalive is due yet
    let (r, _) = c.tick(1_000 + KEEPALIVE_TIME);
    assert!(matches!(r, UpdateResult::Nil));
    // a send that went out counts
    assert_eq!(c.send(5, Ok(5), 0).unwrap(), 5);
    let (r, _) = c.tick(1_000 + KEEPALIVE_TIME);
    assert!(matches!(r, UpdateResult::SentKeepAlive));
}

#[test]
fn tick_sends_keepalive_when_due() {
    let mut c = Connection::new(&addr(1), 4, 9, 1_000);
    let (r, d) = c.tick(1_000 + KEEPALIVE_TIME);
    assert!(matches!(r, UpdateResult::Nil));
    assert!(d.is_none());
    let t = 1_000 + KEEPALIVE_TIME + 1;
    let (r, d) = c.tick(t);
    assert!(matches!(r, UpdateResult::SentKeepAlive));
    let d = d.unwrap();
    assert_eq!(d, vec![0, 0, 0, 9, PACKET_KEEPALIVE]);
    // once out, the keepalive counts as a send, so the next one is a second away again
    let _ = c.send(d.len(), Ok(d.len()), t);
    let (r, _) = c.tick(t + 1);
    assert!(matches!(r, UpdateResult::Nil));
}

#[test]
fn tick_expires_a_quiet_peer() {
    let mut c = Connection::new(&addr(1), 4, 9, 0);
    // keep sending so that no keepalive is due, and let the peer stay quiet
    let t = TIMEOUT_TIME + 1;
    let _ = c.send(5, Ok(5), t);
    let (r, d) = c.tick(t);
    assert!(matches!(r, UpdateResult::Expired));
    assert!(d.is_none());
}

#[test]
fn recv_marks_peer_heard() {
    let mut c = Connection::new(&addr(1), 4, 9, 0);
    let t = TIMEOUT_TIME + 1;
    let _ = c.send(5, Ok(5), t);
    let p = c.recv(&[0, 0, 0, 9, PACKET_KEEPALIVE], t).unwrap();
    assert_eq!(p, Packet::KeepAlive);
    let (r, _) = c.tick(t);
    assert!(matches!(r, UpdateResult::Nil));
}

#[test]
fn recv_rejects_other_protocol_and_keeps_state() {
    let mut c = Connection::new(&addr(1), 4, 9, 0);
    let t = TIMEOUT_TIME + 1;
    let _ = c.send(5, Ok(5), t);
    assert!(matches!(c.recv(&[0, 0, 0, 8, PACKET_KEEPALIVE], t), Err(PacketError::InvalidPacket)));
    assert!(matches!(c.recv(&[0, 0], t), Err(PacketError::GenericIO(_))));
    let (r, _) = c.tick(t);
    assert!(matches!(r, UpdateResult::Expired));
}
