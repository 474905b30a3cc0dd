//! One peer of the server: where it is, and when it was last heard from and sent to.
//!
//! Times are readings of a monotonic clock in nanoseconds.
use crate::packet::{
    datagram, datagram_of, decode, decode_panics, decoded, lemma_decode_wire, lemma_wire_layout,
    well_formed, wire, Decoded, Packet, PacketError, PacketModel,
};
use vstd::prelude::*;

verus! {

/// A peer that has been quiet this long, in nanoseconds, has gone.
pub const TIMEOUT_TIME: u64 = 5_000_000_000;

/// A peer that has not been sent anything for this long, in nanoseconds, is sent a
/// keepalive.
pub const KEEPALIVE_TIME: u64 = 1_000_000_000;

/// Room for one outgoing datagram.
pub const SEND_BUFFER_LEN: usize = 256;

/// A socket address as plain values. An IPv4 address sits in the low 32 bits of `ip`,
/// with `v6` false and `flowinfo` and `scope_id` zero.
#[derive(Clone, Copy, Debug, PartialEq, Eq, Structural)]
pub struct Address {
    pub ip: u128,
    pub port: u16,
    pub v6: bool,
    pub flowinfo: u32,
    pub scope_id: u32,
}

pub enum UpdateResult {
    SentKeepAlive,
    Expired,
    Nil,
}

#[derive(Clone, Copy, Debug)]
pub struct Connection {
    addr: Address,
    sequence: u32,
    client_id: u8,
    protocol_id: u32,
    last_sent: u64,
    last_received: u64,
}

/// The state of a connection.
pub struct ConnectionView {
    pub addr: Address,
    pub sequence: u32,
    pub client_id: u8,
    pub protocol_id: u32,
    pub last_sent: u64,
    pub last_received: u64,
}

impl View for Connection {
    type V = ConnectionView;

    closed spec fn view(&self) -> ConnectionView {
        ConnectionView {
            addr: self.addr,
            sequence: self.sequence,
            client_id: self.client_id,
            protocol_id: self.protocol_id,
            last_sent: self.last_sent,
            last_received: self.last_received,
        }
    }
}

/// The sequence number after one more send; it wraps around.
pub open spec fn next_sequence(s: u32) -> u32 {
    if s == u32::MAX {
        0
    } else {
        (s + 1) as u32
    }
}

/// A connection after a datagram was sent on it at `time`.
pub open spec fn after_send(c: ConnectionView, time: u64) -> ConnectionView {
    ConnectionView { sequence: next_sequence(c.sequence), last_sent: time, ..c }
}

/// A connection after a datagram was received on it at `time`.
pub open spec fn after_recv(c: ConnectionView, time: u64) -> ConnectionView {
    ConnectionView { last_received: time, ..c }
}

/// A keepalive is due: more than `KEEPALIVE_TIME` has passed since the last send.
pub open spec fn keepalive_due(c: ConnectionView, time: u64) -> bool {
    c.last_sent + KEEPALIVE_TIME < time
}

/// The peer has gone: more than `TIMEOUT_TIME` has passed since the last receipt.
pub open spec fn timed_out(c: ConnectionView, time: u64) -> bool {
    c.last_received + TIMEOUT_TIME < time
}

/// The datagram a connection sends for a packet.
pub open spec fn connection_datagram(c: ConnectionView, m: PacketModel) -> Seq<u8> {
    datagram_of(SEND_BUFFER_LEN as nat, c.protocol_id, m)
}

/// `res` is what `recv` returns for the outcome `d`.
pub open spec fn recv_agrees(res: Result<Packet, PacketError>, d: Decoded) -> bool {
    match d {
        Decoded::Packet(m) => res is Ok && res->Ok_0@ == m,
        Decoded::Truncated => res is Err && res->Err_0 is GenericIO,
        Decoded::Invalid => res is Err && res->Err_0 is InvalidPacket,
    }
}

impl Connection {
    pub fn new(addr: &Address, client_id: u8, protocol_id: u32, time: u64) -> (c: Connection)
        ensures
            c@ == (ConnectionView {
                addr: *addr,
                sequence: 0,
                client_id,
                protocol_id,
                last_sent: time,
                last_received: time,
            }),
    {
        Connection {
            addr: *addr,
            sequence: 0,
            client_id,
            protocol_id,
            last_sent: time,
            last_received: time,
        }
    }

    /// The datagram this connection sends for `packet`, which the caller puts on the
    /// socket to this connection's address.
    pub fn encode(&self, packet: &Packet) -> (d: Vec<u8>)
        ensures
            d@ == connection_datagram(self@, packet@),
    {
        datagram(SEND_BUFFER_LEN, self.protocol_id, packet)
    }

    /// Takes the outcome `sent` of putting a datagram of `len` bytes on the socket at
    /// `time`. A datagram that went out counts as a send and `len` is returned; a socket
    /// error is returned and changes nothing.
    pub fn send(&mut self, len: usize, sent: std::io::Result<usize>, time: u64) -> (res: Result<
        usize,
        PacketError,
    >)
        ensures
            sent is Ok ==> res is Ok && res->Ok_0 == len && final(self)@ == after_send(
                old(self)@,
                time,
            ),
            sent is Err ==> res is Err && res->Err_0 == PacketError::GenericIO(sent->Err_0)
                && final(self)@ == old(self)@,
    {
        match sent {
            Ok(_) => {},
            Err(e) => return Err(PacketError::GenericIO(e)),
        }
        self.sequence = if self.sequence == u32::MAX {
            0
        } else {
            self.sequence + 1
        };
        self.last_sent = time;
        Ok(len)
    }

    /// Decodes a datagram from this connection's peer; a packet marks the peer as heard
    /// from at `time`.
    pub fn recv(&mut self, packet: &[u8], time: u64) -> (res: Result<Packet, PacketError>)
        requires
            !decode_panics(packet@, old(self)@.protocol_id),
        ensures
            recv_agrees(res, decoded(packet@, old(self)@.protocol_id)),
            res is Ok ==> final(self)@ == after_recv(old(self)@, time),
            res is Err ==> final(self)@ == old(self)@,
    {
        let (_, packet) = match decode(packet, self.protocol_id) {
            Ok(r) => r,
            Err(e) => return Err(e),
        };
        self.last_received = time;
        Ok(packet)
    }

    pub fn get_id(&self) -> (id: u8)
        ensures
            id == self@.client_id,
    {
        self.client_id
    }

    pub fn get_address(&self) -> (a: Address)
        ensures
            a == self@.addr,
    {
        self.addr
    }

    /// Decides what the connection needs at `time`: a keepalive (whose datagram is
    /// returned, for the caller to send and then record with `send`), nothing, or to be
    /// dropped.
    pub fn tick(&self, time: u64) -> (res: (UpdateResult, Option<Vec<u8>>))
        ensures
            keepalive_due(self@, time) ==> {
                &&& res.0 is SentKeepAlive
                &&& res.1 is Some
                &&& res.1->Some_0@ == connection_datagram(self@, PacketModel::KeepAlive)
            },
            !keepalive_due(self@, time) ==> {
                &&& res.1 is None
                &&& if timed_out(self@, time) {
                    res.0 is Expired
                } else {
                    res.0 is Nil
                }
            },
    {
        if time > self.last_sent && time - self.last_sent > KEEPALIVE_TIME {
            let d = self.encode(&Packet::KeepAlive);
            return (UpdateResult::SentKeepAlive, Some(d));
        }
        if time > self.last_received && time - self.last_received > TIMEOUT_TIME {
            return (UpdateResult::Expired, None);
        }
        (UpdateResult::Nil, None)
    }
}

/// A send at `t` sets the last send to `t`, moves the sequence number on and keeps the
/// rest; a receipt at `t` sets the last receipt to `t` and keeps the rest. After a send
/// at `t` a keepalive is due exactly after `t` plus one second; after a receipt at `t`
/// the peer is gone exactly after `t` plus five seconds.
pub proof fn lemma_connection_timing(c: ConnectionView, t: u64, u: u64)
    ensures
        after_send(c, t).last_sent == t,
        after_send(c, t).last_received == c.last_received,
        after_send(c, t).addr == c.addr,
        after_send(c, t).client_id == c.client_id,
        after_send(c, t).protocol_id == c.protocol_id,
        c.sequence < u32::MAX ==> after_send(c, t).sequence == c.sequence + 1,
        after_recv(c, t).last_received == t,
        after_recv(c, t).last_sent == c.last_sent,
        after_recv(c, t).sequence == c.sequence,
        after_recv(c, t).addr == c.addr,
        after_recv(c, t).client_id == c.client_id,
        keepalive_due(after_send(c, t), u) <==> t + 1_000_000_000 < u,
        timed_out(after_recv(c, t), u) <==> t + 5_000_000_000 < u,
{
}

/// A connection's datagram for a well-formed packet that fits its send buffer decodes,
/// under the connection's protocol, to that packet.
pub proof fn lemma_connection_datagram_decodes(c: ConnectionView, m: PacketModel)
    requires
        well_formed(m),
        wire(c.protocol_id, m).len() <= SEND_BUFFER_LEN,
    ensures
        connection_datagram(c, m) == wire(c.protocol_id, m),
        !decode_panics(connection_datagram(c, m), c.protocol_id),
        decoded(connection_datagram(c, m), c.protocol_id) == Decoded::Packet(m),
{
    let w = wire(c.protocol_id, m);
    lemma_wire_layout(c.protocol_id, m);
    assert(w.take(w.len() as int) =~= w);
    assert(w + Seq::<u8>::empty() =~= w);
    lemma_decode_wire(c.protocol_id, m, Seq::empty());
}

} // verus!
