//! The client's state and its decisions.
//!
//! The client asks the server to connect, keeps the id it is given, answers
//! keepalives and queues what the server sends for its user. Sockets and threads stay
//! with the caller.
use crate::bytes::{fit, put_bytes};
use crate::connection::SEND_BUFFER_LEN;
use crate::packet::{
    datagram, datagram_of, decode, decode_gives_up, decode_panics, decoded, encode,
    encode_zeroed, lemma_decode_wire, lemma_wire_layout, wire, zeros, Packet, PacketModel,
    PayloadPacket,
};
use crate::server::{server_datagram, DISCONNECT_REPEATS, PROTOCOL_ID};
use std::collections::VecDeque;
use vstd::prelude::*;

verus! {

/// The connect request goes out in a buffer of this many bytes, all of them, and the
/// answer is read back into it.
pub const CONNECT_BUFFER_LEN: usize = 6;

#[derive(Debug)]
pub enum ClientError {
    ConnectionDenied,
    UnexpectedResponse,
}

pub struct Client {
    queue: VecDeque<Vec<u8>>,
    protocol_id: u32,
    client_id: u8,
}

#[verifier::ext_equal]
pub struct ClientView {
    pub queue: Seq<Seq<u8>>,
    pub protocol_id: u32,
    pub client_id: u8,
}

impl View for Client {
    type V = ClientView;

    closed spec fn view(&self) -> ClientView {
        ClientView {
            queue: self.queue@.map_values(|b: Vec<u8>| b@),
            protocol_id: self.protocol_id,
            client_id: self.client_id,
        }
    }
}

/// What the client queues for its user when the server disconnects it.
pub open spec fn disconnected_message() -> Seq<u8> {
    seq![0xDu8, 0xEu8, 0xAu8, 0xDu8, 0xDu8, 0xEu8, 0xAu8, 0xDu8]
}

/// The datagram the client sends for a packet.
pub open spec fn client_datagram(protocol_id: u32, m: PacketModel) -> Seq<u8> {
    datagram_of(SEND_BUFFER_LEN as nat, protocol_id, m)
}

/// A buffer that the client can take: it decodes to a packet.
pub open spec fn readable(d: Seq<u8>, protocol_id: u32) -> bool {
    !decode_panics(d, protocol_id) && decoded(d, protocol_id) is Packet
}

/// The packet a readable buffer holds.
pub open spec fn packet_in(d: Seq<u8>, protocol_id: u32) -> PacketModel {
    decoded(d, protocol_id)->Packet_0
}

/// The client after it takes the datagram `d`: a disconnect queues
/// `disconnected_message()` for the user, a payload queues its bytes, anything else
/// changes nothing.
pub open spec fn client_step(c: ClientView, d: Seq<u8>) -> ClientView {
    match packet_in(d, c.protocol_id) {
        PacketModel::Disconnect => ClientView { queue: c.queue.push(disconnected_message()), ..c },
        PacketModel::Payload(b) => ClientView { queue: c.queue.push(b), ..c },
        _ => c,
    }
}

/// The client after it takes the datagrams `ds` in order.
pub open spec fn client_run(c: ClientView, ds: Seq<Seq<u8>>) -> ClientView
    decreases ds.len(),
{
    if ds.len() == 0 {
        c
    } else {
        client_step(client_run(c, ds.drop_last()), ds.last())
    }
}

/// What one packet gives the user.
pub open spec fn message_of(m: PacketModel) -> Seq<Seq<u8>> {
    match m {
        PacketModel::Disconnect => seq![disconnected_message()],
        PacketModel::Payload(b) => seq![b],
        _ => seq![],
    }
}

/// What the datagrams `ds` give the user, in order.
pub open spec fn messages(ds: Seq<Seq<u8>>, protocol_id: u32) -> Seq<Seq<u8>>
    decreases ds.len(),
{
    if ds.len() == 0 {
        seq![]
    } else {
        messages(ds.drop_last(), protocol_id) + message_of(packet_in(ds.last(), protocol_id))
    }
}

/// Over any run of datagrams the client keeps its id and protocol, and its queue grows
/// by what the payloads and disconnects among them give, in the order they came.
pub proof fn lemma_client_run(c: ClientView, ds: Seq<Seq<u8>>)
    ensures
        client_run(c, ds) == (ClientView {
            queue: c.queue + messages(ds, c.protocol_id),
            ..c
        }),
    decreases ds.len(),
{
    if ds.len() == 0 {
        assert(c.queue + messages(ds, c.protocol_id) =~= c.queue);
    } else {
        lemma_client_run(c, ds.drop_last());
        let prev = client_run(c, ds.drop_last());
        let m = packet_in(ds.last(), c.protocol_id);
        assert(prev.queue + message_of(m) =~= c.queue + messages(ds, c.protocol_id));
        assert(client_step(prev, ds.last()).queue =~= prev.queue + message_of(m));
    }
}

impl Client {
    /// The connect request: a connect packet in a zeroed buffer of `CONNECT_BUFFER_LEN`
    /// bytes, all of which are sent.
    pub fn connect_request(protocol_id: u32) -> (d: Vec<u8>)
        ensures
            d@ == put_bytes(
                zeros(CONNECT_BUFFER_LEN as nat),
                0,
                wire(protocol_id, PacketModel::Connect),
            ),
    {
        let (buf, _) = encode_zeroed(CONNECT_BUFFER_LEN, protocol_id, &Packet::Connect);
        buf
    }

    /// Whether `new` can take `response`.
    pub fn accepts_response(response: &[u8], protocol_id: u32) -> (r: bool)
        ensures
            r == readable(response@, protocol_id),
    {
        if decode_gives_up(response, protocol_id) {
            return false;
        }
        decode(response, protocol_id).is_ok()
    }

    /// Reads the server's answer to the connect request: a confirmation gives a client
    /// with the id it carries.
    pub fn new(response: &[u8], protocol_id: u32) -> (res: Result<Client, ClientError>)
        requires
            readable(response@, protocol_id),
        ensures
            match packet_in(response@, protocol_id) {
                PacketModel::Confirm(id) => res is Ok && res->Ok_0@ == (ClientView {
                    queue: Seq::empty(),
                    protocol_id,
                    client_id: id,
                }),
                PacketModel::Deny => res is Err && res->Err_0 is ConnectionDenied,
                _ => res is Err && res->Err_0 is UnexpectedResponse,
            },
    {
        let (_, response) = decode(response, protocol_id).unwrap();
        match response {
            Packet::Confirm(ins) => {
                let c = Client { queue: VecDeque::new(), protocol_id, client_id: ins.client_id };
                assert(c@.queue =~= Seq::<Seq<u8>>::empty());
                Ok(c)
            },
            Packet::Deny => Err(ClientError::ConnectionDenied),
            _ => Err(ClientError::UnexpectedResponse),
        }
    }

    /// The datagram that carries `bytes` to the server.
    pub fn send(&self, bytes: Vec<u8>) -> (d: Vec<u8>)
        ensures
            d@ == client_datagram(self@.protocol_id, PacketModel::Payload(bytes@)),
    {
        let packet = Packet::Payload(PayloadPacket { bytes });
        datagram(SEND_BUFFER_LEN, self.protocol_id, &packet)
    }

    /// Takes the oldest message for the user, if any.
    pub fn poll(&mut self) -> (m: Option<Vec<u8>>)
        ensures
            old(self)@.queue.len() == 0 ==> m is None && final(self)@ == old(self)@,
            old(self)@.queue.len() > 0 ==> {
                &&& m is Some
                &&& m->Some_0@ == old(self)@.queue[0]
                &&& final(self)@ == (ClientView { queue: old(self)@.queue.drop_first(), ..old(self)@ })
            },
    {
        let m = self.queue.pop_front();
        assert(self@.queue =~= old(self)@.queue.skip(if m is Some { 1int } else { 0int }));
        assert(self@ =~= (ClientView { queue: self@.queue, ..old(self)@ }));
        m
    }

    pub fn get_id(&self) -> (id: u8)
        ensures
            id == self@.client_id,
    {
        self.client_id
    }

    /// The datagrams that tell the server this client is leaving: the disconnect,
    /// `DISCONNECT_REPEATS` times over, since datagrams can be lost. Each is sent in turn,
    /// and a failure to send one stops the client.
    pub fn disconnect(&self) -> (ds: Vec<Vec<u8>>)
        ensures
            ds@.len() == DISCONNECT_REPEATS,
            forall|k: int|
                0 <= k < ds@.len() ==> #[trigger] ds@[k]@ == client_datagram(
                    self@.protocol_id,
                    PacketModel::Disconnect,
                ),
    {
        let mut ds: Vec<Vec<u8>> = Vec::new();
        let mut k: usize = 0;
        while k < DISCONNECT_REPEATS
            invariant
                0 <= k <= DISCONNECT_REPEATS,
                ds@.len() == k,
                forall|j: int|
                    0 <= j < k ==> #[trigger] ds@[j]@ == client_datagram(
                        self@.protocol_id,
                        PacketModel::Disconnect,
                    ),
            decreases DISCONNECT_REPEATS - k,
        {
            ds.push(datagram(SEND_BUFFER_LEN, self.protocol_id, &Packet::Disconnect));
            k = k + 1;
        }
        ds
    }

    /// Whether `handle_datagram` can take `buf`.
    pub fn accepts(&self, buf: &[u8]) -> (r: bool)
        ensures
            r == readable(buf@, self@.protocol_id),
    {
        Client::accepts_response(buf, self.protocol_id)
    }

    /// Takes a received datagram, which `buf` holds. A keepalive is answered: the answer
    /// is written over the start of `buf` and its length returned. A disconnect queues
    /// `disconnected_message()` for the user, a payload queues its bytes; anything else
    /// is ignored.
    pub fn handle_datagram(&mut self, buf: &mut [u8]) -> (reply: Option<usize>)
        requires
            readable(old(buf)@, old(self)@.protocol_id),
        ensures
            final(self)@ == client_step(old(self)@, old(buf)@),
            match packet_in(old(buf)@, old(self)@.protocol_id) {
                PacketModel::KeepAlive => {
                    &&& reply is Some
                    &&& reply->Some_0 == fit(
                        old(buf)@.len() as int,
                        0,
                        wire(old(self)@.protocol_id, PacketModel::KeepAlive).len() as int,
                    )
                    &&& final(buf)@ == put_bytes(
                        old(buf)@,
                        0,
                        wire(old(self)@.protocol_id, PacketModel::KeepAlive),
                    )
                },
                _ => reply is None && final(buf)@ == old(buf)@,
            },
    {
        let (_, packet) = decode(buf, self.protocol_id).unwrap();
        match packet {
            Packet::KeepAlive => {
                let len = encode(buf, self.protocol_id, &Packet::KeepAlive).unwrap();
                Some(len)
            },
            Packet::Disconnect => {
                let mut msg: Vec<u8> = Vec::new();
                msg.push(0xD);
                msg.push(0xE);
                msg.push(0xA);
                msg.push(0xD);
                msg.push(0xD);
                msg.push(0xE);
                msg.push(0xA);
                msg.push(0xD);
                assert(msg@ =~= disconnected_message());
                self.queue.push_back(msg);
                assert(self@.queue =~= old(self)@.queue.push(disconnected_message()));
                assert(self@ =~= client_step(old(self)@, old(buf)@));
                None
            },
            Packet::Payload(payload) => {
                let ghost b = payload.bytes@;
                self.queue.push_back(payload.bytes);
                assert(self@.queue =~= old(self)@.queue.push(b));
                assert(self@ =~= client_step(old(self)@, old(buf)@));
                None
            },
            _ => None,
        }
    }
}

/// The server's confirmation fills the client's connect buffer exactly, and the client
/// reads from it the id that the server gave.
pub proof fn lemma_confirm_reaches_client(id: u8)
    ensures
        server_datagram(PacketModel::Confirm(id)).len() == CONNECT_BUFFER_LEN,
        readable(server_datagram(PacketModel::Confirm(id)), PROTOCOL_ID),
        packet_in(server_datagram(PacketModel::Confirm(id)), PROTOCOL_ID) == PacketModel::Confirm(
            id,
        ),
{
    let m = PacketModel::Confirm(id);
    let w = wire(PROTOCOL_ID, m);
    lemma_wire_layout(PROTOCOL_ID, m);
    assert(w.take(w.len() as int) =~= w);
    assert(w + Seq::<u8>::empty() =~= w);
    lemma_decode_wire(PROTOCOL_ID, m, Seq::empty());
}

/// A payload of at most 250 bytes, sent by either side, arrives whole, whatever stale
/// bytes follow it in the receiving buffer.
pub proof fn lemma_payload_crosses(protocol_id: u32, b: Seq<u8>, rest: Seq<u8>)
    requires
        b.len() <= 250,
    ensures
        readable(datagram_of(SEND_BUFFER_LEN as nat, protocol_id, PacketModel::Payload(b)) + rest, protocol_id),
        packet_in(
            datagram_of(SEND_BUFFER_LEN as nat, protocol_id, PacketModel::Payload(b)) + rest,
            protocol_id,
        ) == PacketModel::Payload(b),
{
    let m = PacketModel::Payload(b);
    let w = wire(protocol_id, m);
    lemma_wire_layout(protocol_id, m);
    assert(w.take(w.len() as int) =~= w);
    lemma_decode_wire(protocol_id, m, rest);
}

/// Taking a datagram never changes the client's id or protocol. A payload's bytes, as
/// they stand in the datagram after its length byte, go to the back of the queue; a
/// disconnect puts the marker `0D 0E 0A 0D 0D 0E 0A 0D` there; anything else leaves the
/// queue as it was.
pub proof fn lemma_client_step_law(c: ClientView, d: Seq<u8>)
    requires
        readable(d, c.protocol_id),
    ensures
        client_step(c, d).client_id == c.client_id,
        client_step(c, d).protocol_id == c.protocol_id,
        d[4] == 4 ==> client_step(c, d).queue == c.queue.push(d.subrange(6, 6 + d[5])),
        d[4] == 5 ==> client_step(c, d).queue == c.queue.push(
            seq![0xDu8, 0xEu8, 0xAu8, 0xDu8, 0xDu8, 0xEu8, 0xAu8, 0xDu8],
        ),
        d[4] != 4 && d[4] != 5 ==> client_step(c, d).queue == c.queue,
{
}

/// The client's datagrams decode, under its protocol, to what they carry: a payload
/// that fits one datagram, and the disconnect.
pub proof fn lemma_client_datagrams_decode(protocol_id: u32, b: Seq<u8>)
    requires
        b.len() <= 250,
    ensures
        readable(client_datagram(protocol_id, PacketModel::Payload(b)), protocol_id),
        packet_in(client_datagram(protocol_id, PacketModel::Payload(b)), protocol_id)
            == PacketModel::Payload(b),
        readable(client_datagram(protocol_id, PacketModel::Disconnect), protocol_id),
        packet_in(client_datagram(protocol_id, PacketModel::Disconnect), protocol_id)
            == PacketModel::Disconnect,
{
    lemma_payload_crosses(protocol_id, b, Seq::empty());
    assert(client_datagram(protocol_id, PacketModel::Payload(b)) + Seq::<u8>::empty()
        =~= client_datagram(protocol_id, PacketModel::Payload(b)));
    let m = PacketModel::Disconnect;
    let w = wire(protocol_id, m);
    lemma_wire_layout(protocol_id, m);
    assert(w.take(w.len() as int) =~= w);
    assert(w + Seq::<u8>::empty() =~= w);
    lemma_decode_wire(protocol_id, m, Seq::empty());
}

} // verus!
