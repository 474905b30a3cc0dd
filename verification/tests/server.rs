use udplink::client::Client;
use udplink::connection::{Address, KEEPALIVE_TIME, TIMEOUT_TIME};
use udplink::packet::{datagram, Packet, PayloadPacket, PACKET_CONFIRM, PACKET_DISCONNECT};
use udplink::server::{Outgoing, Server, DISCONNECT_REPEATS, PROTOCOL_ID};

fn addr(port: u16) -> Address {
    Address { ip: 0x7F00_0001, port, v6: false, flowinfo: 0, scope_id: 0 }
}

fn dgram(p: &Packet) -> Vec<u8> {
    datagram(256, PROTOCOL_ID, p)
}

/// A receive buffer as the server reads it: the datagram, then stale bytes.
fn recv_buf(d: &[u8]) -> Vec<u8> {
    let mut buf = vec![0xEEu8; 256];
    buf[..d.len()].copy_from_slice(d);
    buf
}

/// Every datagram goes out.
fn deliver(s: &mut Server, outs: &[Outgoing]) {
    for o in outs {
        s.record_sent(o, Ok(o.bytes.len()));
    }
}

fn connect(s: &mut Server, port: u16, now: u64) -> u8 {
    let buf = recv_buf(&dgram(&Packet::Connect));
    assert!(s.accepts(&buf, &addr(port)));
    let outs = s.handle_datagram_at(&buf, addr(port), now);
    assert_eq!(outs.len(), 1);
    assert_eq!(outs[0].addr, addr(port));
    assert!(!outs[0].must_send);
    assert_eq!(outs[0].record_at, Some(0));
    assert_eq!(outs[0].bytes.len(), 6);
    assert_eq!(outs[0].bytes[4], PACKET_CONFIRM);
    deliver(s, &outs);
    outs[0].bytes[5]
}

#[test]
fn ids_are_handed_out_from_one() {
    let mut s = Server::new();
    assert_eq!(connect(&mut s, 9421, 0), 1);
    assert_eq!(connect(&mut s, 9422, 0), 2);
    assert_eq!(s.find_id(1), Some(0));
    assert_eq!(s.find_id(2), Some(1));
    assert_eq!(s.find_address(&addr(9422)), Some(1));
    assert_eq!(s.find_id(3), None);
}

#[test]
fn repeated_connect_is_confirmed_again() {
    let mut s = Server::new();
    assert_eq!(connect(&mut s, 9421, 0), 1);
    assert_eq!(connect(&mut s, 9421, 0), 1);
    assert_eq!(s.find_id(2), None);
}

#[test]
fn non_connect_from_stranger_is_ignored() {
    let mut s = Server::new();
    let buf = recv_buf(&dgram(&Packet::KeepAlive));
    let outs = s.handle_datagram_at(&buf, addr(1), 0);
    assert!(outs.is_empty());
    assert_eq!(s.find_address(&addr(1)), None);
}

#[test]
fn payload_is_queued_in_order() {
    let mut s = Server::new();
    connect(&mut s, 9421, 0);
    for bytes in [vec![42u8, 24], vec![1u8]] {
        let buf = recv_buf(&dgram(&Packet::Payload(PayloadPacket { bytes })));
        let outs = s.handle_datagram(&buf, addr(9421));
        assert!(outs.is_empty());
    }
    assert_eq!(s.poll(), Some(vec![42, 24]));
    assert_eq!(s.poll(), Some(vec![1]));
    assert_eq!(s.poll(), None);
}

#[test]
fn client_disconnect_drops_it() {
    let mut s = Server::new();
    connect(&mut s, 9421, 0);
    let id = connect(&mut s, 9422, 0);
    let buf = recv_buf(&dgram(&Packet::Disconnect));
    let outs = s.handle_datagram_at(&buf, addr(9422), 5);
    assert_eq!(outs.len(), DISCONNECT_REPEATS);
    for o in &outs {
        assert_eq!(o.addr, addr(9422));
        assert_eq!(o.bytes, dgram(&Packet::Disconnect));
        assert_eq!(o.bytes[4], PACKET_DISCONNECT);
    }
    assert_eq!(s.poll(), Some(vec![0, id]));
    assert_eq!(s.find_id(id), None);
    assert_eq!(s.find_address(&addr(9422)), None);
    assert_eq!(s.find_id(1), Some(0));
}

#[test]
fn confirm_or_deny_from_client_is_refused() {
    let mut s = Server::new();
    connect(&mut s, 9421, 0);
    let buf = recv_buf(&dgram(&Packet::Deny));
    assert!(!s.accepts(&buf, &addr(9421)));
    assert!(s.accepts(&buf, &addr(9999)));
    let short = [0xFE, 0xEF, 0xBA, 0xAB, PACKET_CONFIRM];
    assert!(!s.accepts(&short, &addr(9999)));
    let other = [0, 0, 0, 0, 0];
    assert!(!s.accepts(&other, &addr(9999)));
}

#[test]
fn send_job_goes_to_recipient() {
    let mut s = Server::new();
    connect(&mut s, 9421, 0);
    connect(&mut s, 9422, 0);
    s.add_send_job(2, vec![96, 69]);
    let outs = s.perform_job();
    assert_eq!(outs.len(), 1);
    assert_eq!(outs[0].addr, addr(9422));
    assert!(outs[0].must_send);
    assert_eq!(outs[0].bytes, dgram(&Packet::Payload(PayloadPacket { bytes: vec![96, 69] })));
    assert!(s.perform_job().is_empty());
}

#[test]
fn send_job_to_unknown_client_is_dropped() {
    let mut s = Server::new();
    connect(&mut s, 9421, 0);
    s.add_send_job(0, vec![96, 69]);
    let outs = s.perform_job();
    assert!(outs.is_empty());
    assert_eq!(s.find_id(1), Some(0));
    assert!(s.perform_all_jobs().is_empty());
    // the server goes on serving: the client is still sent keepalives
    let outs = s.tick_connection_at(0, 2 * KEEPALIVE_TIME);
    assert_eq!(outs.len(), 1);
}

#[test]
fn failed_confirmation_is_not_recorded() {
    let mut s = Server::new();
    let buf = recv_buf(&dgram(&Packet::Connect));
    let now = 3_000_000_000;
    let outs = s.handle_datagram_at(&buf, addr(9421), now);
    let err = std::io::Error::new(std::io::ErrorKind::Other, "down");
    s.record_sent(&outs[0], Err(err));
    // the send never happened: the connection's last send is still its opening
    assert!(s.tick_connection_at(0, now + KEEPALIVE_TIME).is_empty());
    // had it gone out, it would have counted as a send at time 0
    s.record_sent(&outs[0], Ok(6));
    assert_eq!(s.tick_connection_at(0, now + KEEPALIVE_TIME).len(), 1);
}

#[test]
fn all_jobs_are_performed_in_order() {
    let mut s = Server::new();
    connect(&mut s, 9421, 0);
    connect(&mut s, 9422, 0);
    s.add_send_job(2, vec![1]);
    s.add_send_job(7, vec![2]);
    s.add_send_all_job(vec![3]);
    let outs = s.perform_all_jobs();
    assert!(s.perform_job().is_empty());
    assert_eq!(outs.len(), 3);
    assert_eq!(outs[0].addr, addr(9422));
    assert_eq!(outs[0].bytes, dgram(&Packet::Payload(PayloadPacket { bytes: vec![1] })));
    assert_eq!(outs[1].addr, addr(9421));
    assert_eq!(outs[2].addr, addr(9422));
    assert_eq!(outs[2].bytes, dgram(&Packet::Payload(PayloadPacket { bytes: vec![3] })));
}

#[test]
fn send_all_job_reaches_everyone() {
    let mut s = Server::new();
    connect(&mut s, 9421, 0);
    connect(&mut s, 9422, 0);
    s.add_send_all_job(vec![7]);
    let outs = s.perform_job();
    assert_eq!(outs.len(), 2);
    assert_eq!(outs[0].addr, addr(9421));
    assert_eq!(outs[1].addr, addr(9422));
    assert_eq!(outs[1].bytes, dgram(&Packet::Payload(PayloadPacket { bytes: vec![7] })));
}

#[test]
fn payload_sends_leave_keepalive_due() {
    let mut s = Server::new();
    connect(&mut s, 9421, 2_000_000_000);
    // the confirmation is recorded as sent at time 0, so a keepalive is due at once
    let outs = s.tick_connection_at(0, 2_000_000_000);
    assert_eq!(outs.len(), 1);
    assert!(outs[0].must_send);
    assert_eq!(outs[0].record_at, Some(2_000_000_000));
    assert_eq!(outs[0].bytes, dgram(&Packet::KeepAlive));
    deliver(&mut s, &outs);
    let outs = s.tick_connection_at(0, 2_000_000_000 + KEEPALIVE_TIME);
    assert!(outs.is_empty());
}

#[test]
fn quiet_client_times_out() {
    let mut s = Server::new();
    connect(&mut s, 9421, 0);
    let t = TIMEOUT_TIME + 1;
    let outs = s.tick_connection_at(0, t);
    assert_eq!(outs.len(), 1);
    deliver(&mut s, &outs);
    let outs = s.tick_connection_at(0, t);
    assert!(outs.is_empty());
    let outs = s.perform_job();
    assert_eq!(outs.len(), DISCONNECT_REPEATS);
    assert!(outs.iter().all(|o| o.record_at.is_none()));
    assert_eq!(s.poll(), Some(vec![0, 1]));
    assert_eq!(s.find_id(1), None);
}

#[test]
fn tick_all_ticks_everyone() {
    let mut s = Server::new();
    connect(&mut s, 9421, 0);
    connect(&mut s, 9422, 0);
    let outs = s.tick_all();
    assert!(outs.len() <= 2);
    for o in &outs {
        assert_eq!(o.bytes, dgram(&Packet::KeepAlive));
    }
}

#[test]
fn client_and_server_talk() {
    let mut s = Server::new();
    // the client sends its whole six-byte connect buffer
    let mut buf = Client::connect_request(PROTOCOL_ID);
    assert_eq!(buf.len(), 6);
    let outs = s.handle_datagram_at(&recv_buf(&buf), addr(9421), 0);
    // the answer is read back into the connect buffer
    buf[..outs[0].bytes.len()].copy_from_slice(&outs[0].bytes);
    assert!(Client::accepts_response(&buf, PROTOCOL_ID));
    let mut client = Client::new(&buf, PROTOCOL_ID).unwrap();
    assert_eq!(client.get_id(), 1);

    let d = client.send(vec![42, 24]);
    assert!(s.handle_datagram_at(&recv_buf(&d), addr(9421), 1).is_empty());
    assert_eq!(s.poll(), Some(vec![42, 24]));

    s.add_send_job(1, vec![96, 69]);
    let outs = s.perform_job();
    let mut cbuf = recv_buf(&outs[0].bytes);
    assert!(client.accepts(&cbuf));
    assert_eq!(client.handle_datagram(&mut cbuf), None);
    assert_eq!(client.poll(), Some(vec![96, 69]));

    let ds = client.disconnect();
    assert_eq!(ds.len(), DISCONNECT_REPEATS);
    let outs = s.handle_datagram_at(&recv_buf(&ds[0]), addr(9421), 2);
    assert_eq!(outs.len(), DISCONNECT_REPEATS);
    assert_eq!(s.poll(), Some(vec![0, 1]));
    let mut cbuf = recv_buf(&outs[0].bytes);
    assert_eq!(client.handle_datagram(&mut cbuf), None);
    assert_eq!(client.poll(), Some(vec![0xD, 0xE, 0xA, 0xD, 0xD, 0xE, 0xA, 0xD]));
}

#[test]
fn payload_too_long_for_one_datagram() {
    let mut s = Server::new();
    connect(&mut s, 9421, 0);
    let client = {
        let mut buf = Client::connect_request(PROTOCOL_ID);
        buf[..6].copy_from_slice(&dgram(&Packet::Confirm(udplink::packet::ConfirmPacket { client_id: 1 })));
        Client::new(&buf, PROTOCOL_ID).unwrap()
    };
    // 250 bytes fit in the 256-byte datagram with their header and length byte
    let d = client.send(vec![5u8; 250]);
    assert_eq!(d.len(), 256);
    assert!(s.accepts(&recv_buf(&d), &addr(9421)));
    // 251 do not: the datagram is cut short and the server cannot read it
    let d = client.send(vec![5u8; 251]);
    assert_eq!(d.len(), 256);
    assert!(!s.accepts(&recv_buf(&d), &addr(9421)));
}

#[test]
fn ids_are_not_reused_after_leaving() {
    let mut s = Server::new();
    assert_eq!(connect(&mut s, 9421, 0), 1);
    let buf = recv_buf(&dgram(&Packet::Disconnect));
    let outs = s.handle_datagram_at(&buf, addr(9421), 1);
    deliver(&mut s, &outs);
    s.add_send_all_job(vec![1]);
    let outs = s.perform_all_jobs();
    assert!(outs.is_empty());
    assert_eq!(s.poll(), Some(vec![0, 1]));
    // the same address comes back and gets a fresh id
    assert_eq!(connect(&mut s, 9421, 2), 2);
    assert_eq!(s.find_id(1), None);
}
