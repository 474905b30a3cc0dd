//! The datagram format.
//!
//! Every datagram starts with the protocol id (four bytes, most significant first) and
//! a type byte. A confirmation carries one more byte, the client id; a payload carries
//! a length byte followed by that many bytes. The other packet kinds have no body.
use crate::bytes::{
    be_bytes, be_value, fit, lemma_be_bytes_len, lemma_be_value_of_bytes, lemma_bytes_of_be_value,
    lemma_put_bytes_concat, pow256, put_bytes, read_u32, read_u8, write_slice, write_u32, write_u8,
};
use vstd::prelude::*;

verus! {

pub const PACKET_CONNECT: u8 = 0;

pub const PACKET_CONFIRM: u8 = 1;

pub const PACKET_DENY: u8 = 2;

pub const PACKET_KEEPALIVE: u8 = 3;

pub const PACKET_PAYLOAD: u8 = 4;

pub const PACKET_DISCONNECT: u8 = 5;

#[derive(Debug, PartialEq, Eq)]
pub enum Packet {
    Connect,
    Confirm(ConfirmPacket),
    Deny,
    KeepAlive,
    Payload(PayloadPacket),
    Disconnect,
}

#[derive(Debug)]
pub enum PacketError {
    InvalidPacket,
    GenericIO(std::io::Error),
}

#[derive(Debug, PartialEq, Eq)]
pub struct PayloadPacket {
    pub bytes: Vec<u8>,
}

#[derive(Debug, PartialEq, Eq)]
pub struct ConfirmPacket {
    pub client_id: u8,
}

/// What a packet says, as a mathematical value.
pub enum PacketModel {
    Connect,
    Confirm(u8),
    Deny,
    KeepAlive,
    Payload(Seq<u8>),
    Disconnect,
}

impl View for Packet {
    type V = PacketModel;

    open spec fn view(&self) -> PacketModel {
        match self {
            Packet::Connect => PacketModel::Connect,
            Packet::Confirm(c) => PacketModel::Confirm(c.client_id),
            Packet::Deny => PacketModel::Deny,
            Packet::KeepAlive => PacketModel::KeepAlive,
            Packet::Payload(p) => PacketModel::Payload(p.bytes@),
            Packet::Disconnect => PacketModel::Disconnect,
        }
    }
}

impl From<std::io::Error> for PacketError {
    fn from(err: std::io::Error) -> (res: PacketError) {
        PacketError::GenericIO(err)
    }
}

impl vstd::std_specs::convert::FromSpecImpl<std::io::Error> for PacketError {
    open spec fn obeys_from_spec() -> bool {
        true
    }

    open spec fn from_spec(v: std::io::Error) -> PacketError {
        PacketError::GenericIO(v)
    }
}

/// The type byte of a packet.
pub open spec fn type_id_of(m: PacketModel) -> u8 {
    match m {
        PacketModel::Connect => PACKET_CONNECT,
        PacketModel::Confirm(_) => PACKET_CONFIRM,
        PacketModel::Deny => PACKET_DENY,
        PacketModel::KeepAlive => PACKET_KEEPALIVE,
        PacketModel::Payload(_) => PACKET_PAYLOAD,
        PacketModel::Disconnect => PACKET_DISCONNECT,
    }
}

/// The bytes that follow the type byte. A payload's length byte holds its length
/// modulo 256.
pub open spec fn body_of(m: PacketModel) -> Seq<u8> {
    match m {
        PacketModel::Confirm(id) => seq![id],
        PacketModel::Payload(b) => seq![(b.len() % 256) as u8] + b,
        _ => seq![],
    }
}

/// The whole datagram for a packet.
pub open spec fn wire(protocol_id: u32, m: PacketModel) -> Seq<u8> {
    be_bytes(protocol_id as nat, 4) + seq![type_id_of(m)] + body_of(m)
}

/// A packet whose datagram decodes to itself: a payload of at most 255 bytes, or any
/// other kind.
pub open spec fn well_formed(m: PacketModel) -> bool {
    match m {
        PacketModel::Payload(b) => b.len() <= 255,
        _ => true,
    }
}

/// The outcome of decoding a byte string.
pub enum Decoded {
    Packet(PacketModel),
    /// The header ends early.
    Truncated,
    /// Another protocol id, or an unknown type byte.
    Invalid,
}

/// The protocol id at the start of a byte string of at least four bytes.
pub open spec fn header_protocol(d: Seq<u8>) -> nat {
    be_value(d.take(4))
}

/// Inputs on which decoding gives up: a confirmation without its id byte, or a payload
/// without its length byte or with fewer bytes than that byte announces.
pub open spec fn decode_panics(d: Seq<u8>, protocol_id: u32) -> bool {
    &&& d.len() >= 5
    &&& header_protocol(d) == protocol_id
    &&& {
        ||| d[4] == PACKET_CONFIRM && d.len() < 6
        ||| d[4] == PACKET_PAYLOAD && (d.len() < 6 || d[5] > d.len() - 6)
    }
}

/// What decoding `d` gives, where it does not give up.
pub open spec fn decoded(d: Seq<u8>, protocol_id: u32) -> Decoded {
    if d.len() < 5 {
        Decoded::Truncated
    } else if header_protocol(d) != protocol_id {
        Decoded::Invalid
    } else if d[4] == PACKET_CONNECT {
        Decoded::Packet(PacketModel::Connect)
    } else if d[4] == PACKET_CONFIRM {
        Decoded::Packet(PacketModel::Confirm(d[5]))
    } else if d[4] == PACKET_DENY {
        Decoded::Packet(PacketModel::Deny)
    } else if d[4] == PACKET_KEEPALIVE {
        Decoded::Packet(PacketModel::KeepAlive)
    } else if d[4] == PACKET_PAYLOAD {
        Decoded::Packet(PacketModel::Payload(d.subrange(6, 6 + d[5])))
    } else if d[4] == PACKET_DISCONNECT {
        Decoded::Packet(PacketModel::Disconnect)
    } else {
        Decoded::Invalid
    }
}

/// `res` is what `decode` returns for the outcome `d`.
pub open spec fn decode_agrees(res: Result<(u64, Packet), PacketError>, d: Decoded) -> bool {
    match d {
        Decoded::Packet(m) => res is Ok && res->Ok_0.0 == 0 && res->Ok_0.1@ == m,
        Decoded::Truncated => res is Err && res->Err_0 is GenericIO,
        Decoded::Invalid => res is Err && res->Err_0 is InvalidPacket,
    }
}

impl Packet {
    pub fn get_type_id(&self) -> (id: u8)
        ensures
            id == type_id_of(self@),
    {
        match *self {
            Packet::Connect => PACKET_CONNECT,
            Packet::Confirm(_) => PACKET_CONFIRM,
            Packet::Deny => PACKET_DENY,
            Packet::KeepAlive => PACKET_KEEPALIVE,
            Packet::Payload(_) => PACKET_PAYLOAD,
            Packet::Disconnect => PACKET_DISCONNECT,
        }
    }
}

impl PayloadPacket {
    /// Reads a length byte and then that many bytes.
    pub fn from(data: &[u8], pos: &mut usize) -> (res: std::io::Result<PayloadPacket>)
        requires
            *old(pos) < data@.len() ==> data@[*old(pos) as int] <= data@.len() - *old(pos) - 1,
        ensures
            *old(pos) < data@.len() ==> ({
                let amt = data@[*old(pos) as int] as int;
                &&& res is Ok
                &&& res->Ok_0.bytes@ == data@.subrange(*old(pos) + 1, *old(pos) + 1 + amt)
                &&& *final(pos) == *old(pos) + 1 + amt
            }),
            *old(pos) >= data@.len() ==> res is Err && *final(pos) == data@.len(),
    {
        let start = *pos;
        let amt = match read_u8(data, pos) {
            Ok(a) => a as usize,
            Err(e) => return Err(e),
        };
        let first = *pos;
        let mut bytes: Vec<u8> = Vec::new();
        let mut i: usize = 0;
        while i < amt
            invariant
                first == start + 1,
                first + amt <= data.len(),
                0 <= i <= amt,
                bytes@ == data@.subrange(first as int, first + i),
            decreases amt - i,
        {
            bytes.push(data[first + i]);
            i = i + 1;
            assert(bytes@ =~= data@.subrange(first as int, first + i));
        }
        *pos = first + amt;
        Ok(PayloadPacket { bytes })
    }

    /// Writes the length byte (the length modulo 256) and the bytes, as far as they
    /// fit; returns how many of the bytes, without the length byte, were written.
    pub fn write(&self, out: &mut [u8], pos: &mut usize) -> (written: usize)
        ensures
            *old(pos) + written + fit(old(out)@.len() as int, *old(pos) as int, 1) == *final(pos),
            *final(pos) == *old(pos) + fit(
                old(out)@.len() as int,
                *old(pos) as int,
                1 + self.bytes@.len() as int,
            ),
            final(out)@ == put_bytes(
                old(out)@,
                *old(pos) as int,
                body_of(PacketModel::Payload(self.bytes@)),
            ),
    {
        let len = self.bytes.len();
        let len_byte = len as u8;
        assert(len_byte == (len % 256) as u8) by (bit_vector)
            requires
                len_byte == len as u8,
        ;
        let ghost o = out@;
        let ghost p = *pos as int;
        let ghost l = o.len() as int;
        let ghost a = seq![len_byte];
        let ghost b = self.bytes@;
        write_u8(out, pos, len_byte);
        let written = write_slice(out, pos, self.bytes.as_slice());
        proof {
            lemma_put_bytes_concat(o, p, a, b);
            assert(a + b =~= body_of(PacketModel::Payload(self.bytes@)));
        }
        written
    }
}

impl ConfirmPacket {
    /// Reads the client id byte.
    pub fn from(data: &[u8], pos: &mut usize) -> (res: std::io::Result<ConfirmPacket>)
        ensures
            *old(pos) < data@.len() ==> (res is Ok && res->Ok_0.client_id == data@[*old(
                pos,
            ) as int] && *final(pos) == *old(pos) + 1),
            *old(pos) >= data@.len() ==> res is Err && *final(pos) == data@.len(),
    {
        let client_id = match read_u8(data, pos) {
            Ok(b) => b,
            Err(e) => return Err(e),
        };
        Ok(ConfirmPacket { client_id })
    }

    /// Writes the client id byte if there is room; returns how many bytes were written.
    pub fn write(&self, out: &mut [u8], pos: &mut usize) -> (written: usize)
        ensures
            written == fit(old(out)@.len() as int, *old(pos) as int, 1),
            *final(pos) == *old(pos) + written,
            final(out)@ == put_bytes(
                old(out)@,
                *old(pos) as int,
                body_of(PacketModel::Confirm(self.client_id)),
            ),
    {
        write_u8(out, pos, self.client_id)
    }
}

/// Writes the datagram of `packet` into `out` from its start, cut short at the end of
/// `out`, and returns how many bytes were written.
pub fn encode(out: &mut [u8], protocol_id: u32, packet: &Packet) -> (res: Result<usize, PacketError>)
    ensures
        res is Ok,
        res->Ok_0 == fit(old(out)@.len() as int, 0, wire(protocol_id, packet@).len() as int),
        final(out)@ == put_bytes(old(out)@, 0, wire(protocol_id, packet@)),
{
    let ghost o = out@;
    let ghost head = be_bytes(protocol_id as nat, 4);
    let ghost t = seq![type_id_of(packet@)];
    proof {
        lemma_be_bytes_len(protocol_id as nat, 4);
        assert(wire(protocol_id, packet@) == head + t + body_of(packet@));
    }
    let mut pos: usize = 0;
    write_u32(out, &mut pos, protocol_id);
    let type_id = packet.get_type_id();
    write_u8(out, &mut pos, type_id);
    proof {
        lemma_put_bytes_concat(o, 0, head, t);
    }
    match packet {
        Packet::Payload(payload) => {
            payload.write(out, &mut pos);
            proof {
                lemma_put_bytes_concat(o, 0, head + t, body_of(packet@));
            }
        },
        Packet::Confirm(confirm) => {
            confirm.write(out, &mut pos);
            proof {
                lemma_put_bytes_concat(o, 0, head + t, body_of(packet@));
            }
        },
        _ => {
            assert(head + t + body_of(packet@) =~= head + t);
        },
    }
    Ok(pos)
}

/// Reads a datagram. The number that comes with the packet is always 0.
pub fn decode(data: &[u8], protocol_id: u32) -> (res: Result<(u64, Packet), PacketError>)
    requires
        !decode_panics(data@, protocol_id),
    ensures
        decode_agrees(res, decoded(data@, protocol_id)),
{
    let mut pos: usize = 0;
    let packet_protocol_id = match read_u32(data, &mut pos) {
        Ok(n) => n,
        Err(e) => return Err(PacketError::GenericIO(e)),
    };
    let packet_type = match read_u8(data, &mut pos) {
        Ok(b) => b,
        Err(e) => return Err(PacketError::GenericIO(e)),
    };
    assert(data@.subrange(0, 4) =~= data@.take(4));
    if protocol_id != packet_protocol_id {
        return Err(PacketError::InvalidPacket);
    }
    let packet = if packet_type == PACKET_CONNECT {
        Packet::Connect
    } else if packet_type == PACKET_CONFIRM {
        Packet::Confirm(ConfirmPacket::from(data, &mut pos).unwrap())
    } else if packet_type == PACKET_DENY {
        Packet::Deny
    } else if packet_type == PACKET_KEEPALIVE {
        Packet::KeepAlive
    } else if packet_type == PACKET_PAYLOAD {
        Packet::Payload(PayloadPacket::from(data, &mut pos).unwrap())
    } else if packet_type == PACKET_DISCONNECT {
        Packet::Disconnect
    } else {
        return Err(PacketError::InvalidPacket);
    };
    Ok((0, packet))
}

/// The datagram of a packet is its header, its type byte and its body.
pub proof fn lemma_wire_layout(protocol_id: u32, m: PacketModel)
    ensures
        wire(protocol_id, m).len() == 5 + body_of(m).len(),
        wire(protocol_id, m).take(4) == be_bytes(protocol_id as nat, 4),
        header_protocol(wire(protocol_id, m)) == protocol_id,
        wire(protocol_id, m)[4] == type_id_of(m),
{
    lemma_be_bytes_len(protocol_id as nat, 4);
    assert(pow256(4) == 0x1_0000_0000) by {
        reveal_with_fuel(pow256, 5);
    }
    lemma_be_value_of_bytes(protocol_id as nat, 4);
    assert(wire(protocol_id, m).take(4) =~= be_bytes(protocol_id as nat, 4));
}

/// Decoding the datagram of a well-formed packet, followed by any bytes, gives the
/// packet back.
pub proof fn lemma_decode_wire(protocol_id: u32, m: PacketModel, rest: Seq<u8>)
    requires
        well_formed(m),
    ensures
        !decode_panics(wire(protocol_id, m) + rest, protocol_id),
        decoded(wire(protocol_id, m) + rest, protocol_id) == Decoded::Packet(m),
{
    let w = wire(protocol_id, m);
    let d = w + rest;
    lemma_wire_layout(protocol_id, m);
    assert(d.take(4) =~= w.take(4));
    assert(d[4] == w[4]);
    match m {
        PacketModel::Confirm(id) => {
            assert(d[5] == id);
        },
        PacketModel::Payload(b) => {
            assert(d[5] == (b.len() % 256) as u8);
            assert(d.subrange(6, 6 + d[5]) =~= b);
        },
        _ => {},
    }
}

/// A datagram for one protocol id is rejected by a decoder for another.
pub proof fn lemma_decode_other_protocol(
    protocol_id: u32,
    other: u32,
    m: PacketModel,
    rest: Seq<u8>,
)
    requires
        protocol_id != other,
    ensures
        !decode_panics(wire(protocol_id, m) + rest, other),
        decoded(wire(protocol_id, m) + rest, other) == Decoded::Invalid,
{
    let w = wire(protocol_id, m);
    let d = w + rest;
    lemma_wire_layout(protocol_id, m);
    assert(d.take(4) =~= w.take(4));
}

/// Whatever decodes to a packet starts with that packet's datagram: each packet has
/// one encoding.
pub proof fn lemma_decoded_prefix(d: Seq<u8>, protocol_id: u32)
    requires
        !decode_panics(d, protocol_id),
        decoded(d, protocol_id) is Packet,
    ensures
        well_formed(decoded(d, protocol_id)->Packet_0),
        wire(protocol_id, decoded(d, protocol_id)->Packet_0).len() <= d.len(),
        d.take(wire(protocol_id, decoded(d, protocol_id)->Packet_0).len() as int) == wire(
            protocol_id,
            decoded(d, protocol_id)->Packet_0,
        ),
{
    let m = decoded(d, protocol_id)->Packet_0;
    let w = wire(protocol_id, m);
    lemma_wire_layout(protocol_id, m);
    lemma_bytes_of_be_value(d.take(4));
    assert(d.take(4).len() == 4);
    assert(w.take(4) == d.take(4));
    if d[4] == PACKET_PAYLOAD {
        assert(d[5] <= 255);
        assert((d[5] as nat) % 256 == d[5] as nat);
    }
    assert(d.take(w.len() as int) =~= w);
}

/// Encoding a well-formed packet into a buffer that can hold it and decoding the
/// buffer gives the packet back, whatever the buffer held before.
pub proof fn lemma_encode_then_decode(out: Seq<u8>, protocol_id: u32, m: PacketModel)
    requires
        well_formed(m),
        out.len() >= wire(protocol_id, m).len(),
    ensures
        fit(out.len() as int, 0, wire(protocol_id, m).len() as int) == wire(protocol_id, m).len(),
        !decode_panics(put_bytes(out, 0, wire(protocol_id, m)), protocol_id),
        decoded(put_bytes(out, 0, wire(protocol_id, m)), protocol_id) == Decoded::Packet(m),
{
    let w = wire(protocol_id, m);
    let rest = out.skip(w.len() as int);
    assert(put_bytes(out, 0, w) =~= w + rest);
    lemma_decode_wire(protocol_id, m, rest);
}

/// `n` zero bytes.
pub open spec fn zeros(n: nat) -> Seq<u8> {
    Seq::new(n, |i: int| 0u8)
}

/// The datagram an endpoint sends for a packet: the packet encoded into a buffer of
/// `capacity` bytes and cut to what was written.
pub open spec fn datagram_of(capacity: nat, protocol_id: u32, m: PacketModel) -> Seq<u8> {
    wire(protocol_id, m).take(fit(capacity as int, 0, wire(protocol_id, m).len() as int))
}

/// Encodes `packet` into a fresh zeroed buffer of `capacity` bytes; returns the buffer
/// and how many bytes the packet took in it.
pub fn encode_zeroed(capacity: usize, protocol_id: u32, packet: &Packet) -> (res: (Vec<u8>, usize))
    ensures
        res.0@ == put_bytes(zeros(capacity as nat), 0, wire(protocol_id, packet@)),
        res.1 == fit(capacity as int, 0, wire(protocol_id, packet@).len() as int),
{
    let mut buf: Vec<u8> = Vec::new();
    let mut i: usize = 0;
    while i < capacity
        invariant
            0 <= i <= capacity,
            buf@ == zeros(i as nat),
        decreases capacity - i,
    {
        buf.push(0u8);
        i = i + 1;
        assert(buf@ =~= zeros(i as nat));
    }
    let len = match encode(buf.as_mut_slice(), protocol_id, packet) {
        Ok(n) => n,
        Err(_) => 0,
    };
    (buf, len)
}

/// The datagram for `packet`: encoded into a zeroed buffer of `capacity` bytes and cut
/// to what was written.
pub fn datagram(capacity: usize, protocol_id: u32, packet: &Packet) -> (d: Vec<u8>)
    ensures
        d@ == datagram_of(capacity as nat, protocol_id, packet@),
{
    let (mut buf, len) = encode_zeroed(capacity, protocol_id, packet);
    buf.truncate(len);
    assert(buf@ =~= datagram_of(capacity as nat, protocol_id, packet@));
    buf
}

/// Whether `decode` gives up on `data`.
pub fn decode_gives_up(data: &[u8], protocol_id: u32) -> (r: bool)
    ensures
        r == decode_panics(data@, protocol_id),
{
    if data.len() < 5 {
        return false;
    }
    let mut pos: usize = 0;
    let packet_protocol_id = match read_u32(data, &mut pos) {
        Ok(n) => n,
        Err(_) => return false,
    };
    assert(data@.subrange(0, 4) =~= data@.take(4));
    if packet_protocol_id != protocol_id {
        return false;
    }
    let packet_type = data[4];
    if packet_type == PACKET_CONFIRM {
        data.len() < 6
    } else if packet_type == PACKET_PAYLOAD {
        data.len() < 6 || data[5] as usize > data.len() - 6
    } else {
        false
    }
}

} // verus!
