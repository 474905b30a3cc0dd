//! The server's state and its decisions.
//!
//! The server keeps a table of connections, a queue of messages for its user and a
//! queue of jobs. Each operation here takes the state and an event (a datagram from an
//! address, a job, the passing of time) and returns the new state and the datagrams to
//! put on the socket; sockets and threads stay with the caller.
use crate::clock::precise_time_ns;
use crate::connection::{
    after_recv, after_send, keepalive_due, timed_out, Address, Connection, ConnectionView,
    UpdateResult, SEND_BUFFER_LEN,
};
use crate::packet::{
    datagram_of, decode, decode_gives_up, decode_panics, decoded, lemma_decode_wire,
    lemma_wire_layout, well_formed, wire, ConfirmPacket, Decoded, Packet, PacketModel,
    PayloadPacket,
};
use std::collections::VecDeque;
use vstd::prelude::*;

verus! {

pub const PROTOCOL_ID: u32 = 0xFEEFBAAB;

/// How many times a disconnect is sent, since datagrams can be lost.
pub const DISCONNECT_REPEATS: usize = 10;

pub type ConnId = u8;

pub enum Job {
    Send(ConnId, Vec<u8>),
    SendAll(Vec<u8>),
    Disconnect(ConnId),
}

pub enum JobView {
    Send(u8, Seq<u8>),
    SendAll(Seq<u8>),
    Disconnect(u8),
}

impl View for Job {
    type V = JobView;

    open spec fn view(&self) -> JobView {
        match self {
            Job::Send(id, b) => JobView::Send(*id, b@),
            Job::SendAll(b) => JobView::SendAll(b@),
            Job::Disconnect(id) => JobView::Disconnect(*id),
        }
    }
}

/// A datagram to put on the socket. Where `must_send` holds, a failure to send it
/// stops the server; otherwise the failure is ignored. Where `record_at` holds a time,
/// a datagram that went out is recorded, through `Server::record_sent`, as the
/// connection's send at that time.
pub struct Outgoing {
    pub addr: Address,
    pub bytes: Vec<u8>,
    pub must_send: bool,
    pub record_at: Option<u64>,
}

pub struct OutgoingView {
    pub addr: Address,
    pub bytes: Seq<u8>,
    pub must_send: bool,
    pub record_at: Option<u64>,
}

impl View for Outgoing {
    type V = OutgoingView;

    open spec fn view(&self) -> OutgoingView {
        OutgoingView {
            addr: self.addr,
            bytes: self.bytes@,
            must_send: self.must_send,
            record_at: self.record_at,
        }
    }
}

pub open spec fn outgoing_view(v: Seq<Outgoing>) -> Seq<OutgoingView> {
    v.map_values(|o: Outgoing| o@)
}

pub struct Server {
    connections: Vec<Connection>,
    queue: VecDeque<Vec<u8>>,
    jobs: VecDeque<Job>,
    next_id: u8,
}

#[verifier::ext_equal]
pub struct ServerView {
    pub connections: Seq<ConnectionView>,
    pub queue: Seq<Seq<u8>>,
    pub jobs: Seq<JobView>,
    pub next_id: u8,
}

impl View for Server {
    type V = ServerView;

    closed spec fn view(&self) -> ServerView {
        ServerView {
            connections: self.connections@.map_values(|c: Connection| c@),
            queue: self.queue@.map_values(|b: Vec<u8>| b@),
            jobs: self.jobs@.map_values(|j: Job| j@),
            next_id: self.next_id,
        }
    }
}

/// The datagram the server sends for a packet.
pub open spec fn server_datagram(m: PacketModel) -> Seq<u8> {
    datagram_of(SEND_BUFFER_LEN as nat, PROTOCOL_ID, m)
}

pub open spec fn out(addr: Address, m: PacketModel, must_send: bool, record_at: Option<u64>) -> OutgoingView {
    OutgoingView { addr, bytes: server_datagram(m), must_send, record_at }
}

/// What the server queues for its user when a client leaves: a zero byte, then the
/// client's id.
pub open spec fn leave_message(id: u8) -> Seq<u8> {
    seq![0u8, id]
}

impl ServerView {
    /// Ids are handed out from 1 upwards and never twice; no two connections share an id
    /// or an address; every connection speaks this protocol.
    pub open spec fn wf(self) -> bool {
        &&& 1 <= self.next_id
        &&& forall|i: int|
            0 <= i < self.connections.len() ==> {
                &&& 1 <= #[trigger] self.connections[i].client_id < self.next_id
                &&& self.connections[i].protocol_id == PROTOCOL_ID
            }
        &&& forall|i: int, j: int|
            0 <= i < self.connections.len() && 0 <= j < self.connections.len() && i != j
                ==> #[trigger] self.connections[i].client_id != #[trigger] self.connections[j].client_id
        &&& forall|i: int, j: int|
            0 <= i < self.connections.len() && 0 <= j < self.connections.len() && i != j
                ==> #[trigger] self.connections[i].addr != #[trigger] self.connections[j].addr
    }

    pub open spec fn has_id(self, id: u8) -> bool {
        exists|i: int| 0 <= i < self.connections.len() && #[trigger] self.connections[i].client_id == id
    }

    /// Where the connection with this id stands in the table.
    pub open spec fn index_of_id(self, id: u8) -> int {
        choose|i: int| 0 <= i < self.connections.len() && #[trigger] self.connections[i].client_id == id
    }

    pub open spec fn has_addr(self, addr: Address) -> bool {
        exists|i: int| 0 <= i < self.connections.len() && #[trigger] self.connections[i].addr == addr
    }

    /// Where the connection with this address stands in the table.
    pub open spec fn index_of_addr(self, addr: Address) -> int {
        choose|i: int| 0 <= i < self.connections.len() && #[trigger] self.connections[i].addr == addr
    }
}

/// In a well-formed table an id names exactly one connection.
pub proof fn lemma_index_of_id(v: ServerView, i: int)
    requires
        v.wf(),
        0 <= i < v.connections.len(),
    ensures
        v.has_id(v.connections[i].client_id),
        v.index_of_id(v.connections[i].client_id) == i,
{
    let id = v.connections[i].client_id;
    assert(v.has_id(id));
    let j = v.index_of_id(id);
    assert(v.connections[j].client_id == id);
}

/// In a well-formed table an address names exactly one connection.
pub proof fn lemma_index_of_addr(v: ServerView, i: int)
    requires
        v.wf(),
        0 <= i < v.connections.len(),
    ensures
        v.has_addr(v.connections[i].addr),
        v.index_of_addr(v.connections[i].addr) == i,
{
    let a = v.connections[i].addr;
    assert(v.has_addr(a));
    let j = v.index_of_addr(a);
    assert(v.connections[j].addr == a);
}

/// Sending `bytes` to the connection at index `i`; the send is recorded once the
/// datagram is out.
pub open spec fn send_model(v: ServerView, i: int, bytes: Seq<u8>) -> (ServerView, Seq<OutgoingView>) {
    (v, seq![out(v.connections[i].addr, PacketModel::Payload(bytes), true, Some(0))])
}

/// Sending `bytes` to every connection, in table order.
pub open spec fn send_all_model(v: ServerView, bytes: Seq<u8>) -> (ServerView, Seq<OutgoingView>) {
    (
        v,
        Seq::new(
            v.connections.len(),
            |k: int| out(v.connections[k].addr, PacketModel::Payload(bytes), true, Some(0)),
        ),
    )
}

/// Dropping the connection at index `i`: it is sent disconnects, leaves the table, and
/// the user is told.
pub open spec fn disconnect_model(v: ServerView, i: int) -> (ServerView, Seq<OutgoingView>) {
    let c = v.connections[i];
    (
        ServerView {
            connections: v.connections.remove(i),
            queue: v.queue.push(leave_message(c.client_id)),
            ..v
        },
        Seq::new(
            DISCONNECT_REPEATS as nat,
            |k: int| out(c.addr, PacketModel::Disconnect, false, None),
        ),
    )
}

/// Performing the next job, if any. A job that names a client that is not connected is
/// dropped.
pub open spec fn perform_model(v: ServerView) -> (ServerView, Seq<OutgoingView>) {
    if v.jobs.len() == 0 {
        (v, seq![])
    } else {
        let rest = ServerView { jobs: v.jobs.drop_first(), ..v };
        match v.jobs[0] {
            JobView::Send(id, b) => if v.has_id(id) {
                send_model(rest, v.index_of_id(id), b)
            } else {
                (rest, seq![])
            },
            JobView::SendAll(b) => send_all_model(rest, b),
            JobView::Disconnect(id) => if v.has_id(id) {
                disconnect_model(rest, v.index_of_id(id))
            } else {
                (rest, seq![])
            },
        }
    }
}

/// Performing jobs until none is left, in queue order.
pub open spec fn perform_all_model(v: ServerView) -> (ServerView, Seq<OutgoingView>)
    decreases v.jobs.len(),
{
    if v.jobs.len() == 0 {
        (v, seq![])
    } else {
        let (w, o) = perform_model(v);
        if w.jobs.len() < v.jobs.len() {
            let (x, p) = perform_all_model(w);
            (x, o + p)
        } else {
            (w, o)
        }
    }
}

/// The outcome of putting the datagram `o` on the socket: one that went out and
/// carries a time is recorded as a send on the connection at its address, if there
/// is one.
pub open spec fn record_model(v: ServerView, o: OutgoingView, went_out: bool) -> ServerView {
    if went_out && o.record_at is Some && v.has_addr(o.addr) {
        let i = v.index_of_addr(o.addr);
        ServerView {
            connections: v.connections.update(
                i,
                after_send(v.connections[i], o.record_at->Some_0),
            ),
            ..v
        }
    } else {
        v
    }
}

/// A datagram the server can take from `addr`: it decodes to a packet; from a known
/// client it is no confirmation or denial; from a new address, a connect finds an id
/// left.
pub open spec fn datagram_ok(v: ServerView, d: Seq<u8>, addr: Address) -> bool {
    &&& !decode_panics(d, PROTOCOL_ID)
    &&& decoded(d, PROTOCOL_ID) is Packet
    &&& if v.has_addr(addr) {
        &&& !(decoded(d, PROTOCOL_ID)->Packet_0 is Confirm)
        &&& !(decoded(d, PROTOCOL_ID)->Packet_0 is Deny)
    } else {
        decoded(d, PROTOCOL_ID)->Packet_0 is Connect ==> v.next_id < 255
    }
}

/// The connection that a connect from a new address opens at time `t`.
pub open spec fn opened(addr: Address, id: u8, t: u64) -> ConnectionView {
    ConnectionView {
        addr,
        sequence: 0,
        client_id: id,
        protocol_id: PROTOCOL_ID,
        last_sent: t,
        last_received: t,
    }
}

/// Taking the datagram `d` from `addr` at time `t`.
///
/// From a new address only a connect counts: it opens a connection under the next id
/// and is confirmed. From a known client every packet marks it as heard from; a connect
/// is confirmed again, a payload is queued for the user, and a disconnect drops the
/// client.
pub open spec fn receive_model(v: ServerView, d: Seq<u8>, addr: Address, t: u64) -> (
    ServerView,
    Seq<OutgoingView>,
) {
    let m = decoded(d, PROTOCOL_ID)->Packet_0;
    if !v.has_addr(addr) {
        if m is Connect {
            (
                ServerView {
                    connections: v.connections.push(opened(addr, v.next_id, t)),
                    next_id: (v.next_id + 1) as u8,
                    ..v
                },
                seq![out(addr, PacketModel::Confirm(v.next_id), false, Some(0))],
            )
        } else {
            (v, seq![])
        }
    } else {
        let i = v.index_of_addr(addr);
        let c = after_recv(v.connections[i], t);
        let heard = ServerView { connections: v.connections.update(i, c), ..v };
        match m {
            PacketModel::Connect => (
                heard,
                seq![out(c.addr, PacketModel::Confirm(c.client_id), false, Some(0))],
            ),
            PacketModel::Payload(b) => (ServerView { queue: v.queue.push(b), ..heard }, seq![]),
            PacketModel::Disconnect => disconnect_model(heard, i),
            _ => (heard, seq![]),
        }
    }
}

/// Ticking the connection at index `i` at time `t`: a keepalive goes out if one is due
/// (and is recorded once out); otherwise a client that has been quiet too long gets a disconnect job.
pub open spec fn tick_model(v: ServerView, i: int, t: u64) -> (ServerView, Seq<OutgoingView>) {
    let c = v.connections[i];
    if keepalive_due(c, t) {
        (v, seq![out(c.addr, PacketModel::KeepAlive, true, Some(t))])
    } else if timed_out(c, t) {
        (ServerView { jobs: v.jobs.push(JobView::Disconnect(c.client_id)), ..v }, seq![])
    } else {
        (v, seq![])
    }
}

/// Ticking the first `n` connections in table order, the `k`-th at time `ts[k]`.
pub open spec fn tick_all_model(v: ServerView, ts: Seq<u64>, n: nat) -> (
    ServerView,
    Seq<OutgoingView>,
)
    decreases n,
{
    if n == 0 {
        (v, seq![])
    } else {
        let prev = tick_all_model(v, ts, (n - 1) as nat);
        let next = tick_model(prev.0, n - 1, ts[n - 1]);
        (next.0, prev.1 + next.1)
    }
}

/// Ticking leaves the table's shape alone, and only the first `n` times count.
pub proof fn lemma_tick_all_model(v: ServerView, ts: Seq<u64>, us: Seq<u64>, n: nat)
    requires
        v.wf(),
        n <= v.connections.len(),
        n <= ts.len(),
        n <= us.len(),
        ts.take(n as int) == us.take(n as int),
    ensures
        tick_all_model(v, ts, n) == tick_all_model(v, us, n),
        tick_all_model(v, ts, n).0.wf(),
        tick_all_model(v, ts, n).0.connections.len() == v.connections.len(),
        tick_all_model(v, ts, n).0.next_id == v.next_id,
        forall|k: int|
            0 <= k < v.connections.len() ==> {
                &&& #[trigger] tick_all_model(v, ts, n).0.connections[k].client_id
                    == v.connections[k].client_id
                &&& tick_all_model(v, ts, n).0.connections[k].addr == v.connections[k].addr
                &&& tick_all_model(v, ts, n).0.connections[k].protocol_id
                    == v.connections[k].protocol_id
            },
    decreases n,
{
    if n > 0 {
        let n1 = (n - 1) as nat;
        assert(ts.take(n1 as int) =~= ts.take(n as int).take(n1 as int));
        assert(us.take(n1 as int) =~= us.take(n as int).take(n1 as int));
        lemma_tick_all_model(v, ts, us, n1);
        assert(ts[n1 as int] == ts.take(n as int)[n1 as int]);
        assert(us[n1 as int] == us.take(n as int)[n1 as int]);
        let prev = tick_all_model(v, ts, n1);
        let next = tick_model(prev.0, n1 as int, ts[n1 as int]);
        assert forall|k: int| 0 <= k < v.connections.len() implies {
            &&& #[trigger] next.0.connections[k].client_id == v.connections[k].client_id
            &&& next.0.connections[k].addr == v.connections[k].addr
            &&& next.0.connections[k].protocol_id == v.connections[k].protocol_id
        } by {
            assert(prev.0.connections[k].client_id == v.connections[k].client_id);
        }
        assert forall|i: int, j: int|
            0 <= i < next.0.connections.len() && 0 <= j < next.0.connections.len() && i
                != j implies #[trigger] next.0.connections[i].client_id
            != #[trigger] next.0.connections[j].client_id by {
            assert(prev.0.connections[i].client_id == v.connections[i].client_id);
            assert(prev.0.connections[j].client_id == v.connections[j].client_id);
        }
        assert forall|i: int, j: int|
            0 <= i < next.0.connections.len() && 0 <= j < next.0.connections.len() && i
                != j implies #[trigger] next.0.connections[i].addr
            != #[trigger] next.0.connections[j].addr by {
            assert(prev.0.connections[i].client_id == v.connections[i].client_id);
            assert(prev.0.connections[j].client_id == v.connections[j].client_id);
        }
    }
}

impl Server {
    pub open spec fn wf(&self) -> bool {
        self@.wf()
    }

    pub fn new() -> (s: Server)
        ensures
            s.wf(),
            s@.connections == Seq::<ConnectionView>::empty(),
            s@.queue == Seq::<Seq<u8>>::empty(),
            s@.jobs == Seq::<JobView>::empty(),
            s@.next_id == 1,
    {
        let s = Server {
            connections: Vec::new(),
            queue: VecDeque::new(),
            jobs: VecDeque::new(),
            next_id: 1,
        };
        assert(s@.connections =~= Seq::<ConnectionView>::empty());
        assert(s@.queue =~= Seq::<Seq<u8>>::empty());
        assert(s@.jobs =~= Seq::<JobView>::empty());
        s
    }

    /// Takes the oldest message for the user, if any.
    pub fn poll(&mut self) -> (m: Option<Vec<u8>>)
        ensures
            old(self)@.queue.len() == 0 ==> m is None && final(self)@ == old(self)@,
            old(self)@.queue.len() > 0 ==> {
                &&& m is Some
                &&& m->Some_0@ == old(self)@.queue[0]
                &&& final(self)@ == (ServerView { queue: old(self)@.queue.drop_first(), ..old(self)@ })
            },
    {
        let m = self.queue.pop_front();
        assert(self@.queue =~= old(self)@.queue.skip(if m is Some { 1int } else { 0int }));
        assert(self@ =~= (ServerView { queue: self@.queue, ..old(self)@ }));
        m
    }

    /// Queues a job that sends `bytes` to the client with id `recipient`.
    pub fn add_send_job(&mut self, recipient: ConnId, bytes: Vec<u8>)
        ensures
            final(self)@ == (ServerView {
                jobs: old(self)@.jobs.push(JobView::Send(recipient, bytes@)),
                ..old(self)@
            }),
    {
        let ghost b = bytes@;
        self.jobs.push_back(Job::Send(recipient, bytes));
        assert(self@.jobs =~= old(self)@.jobs.push(JobView::Send(recipient, b)));
        assert(self@ =~= (ServerView { jobs: self@.jobs, ..old(self)@ }));
    }

    /// Queues a job that sends `bytes` to every client.
    pub fn add_send_all_job(&mut self, bytes: Vec<u8>)
        ensures
            final(self)@ == (ServerView {
                jobs: old(self)@.jobs.push(JobView::SendAll(bytes@)),
                ..old(self)@
            }),
    {
        let ghost b = bytes@;
        self.jobs.push_back(Job::SendAll(bytes));
        assert(self@.jobs =~= old(self)@.jobs.push(JobView::SendAll(b)));
        assert(self@ =~= (ServerView { jobs: self@.jobs, ..old(self)@ }));
    }

    /// Finds the connection with this id.
    pub fn find_id(&self, id: ConnId) -> (r: Option<usize>)
        requires
            self.wf(),
        ensures
            r is Some <==> self@.has_id(id),
            r is Some ==> r->Some_0 == self@.index_of_id(id),
    {
        let mut i: usize = 0;
        while i < self.connections.len()
            invariant
                self.wf(),
                0 <= i <= self.connections@.len(),
                forall|j: int| 0 <= j < i ==> self@.connections[j].client_id != id,
            decreases self.connections@.len() - i,
        {
            if self.connections[i].get_id() == id {
                proof {
                    lemma_index_of_id(self@, i as int);
                }
                return Some(i);
            }
            i = i + 1;
        }
        None
    }

    /// Finds the connection with this address.
    pub fn find_address(&self, addr: &Address) -> (r: Option<usize>)
        requires
            self.wf(),
        ensures
            r is Some <==> self@.has_addr(*addr),
            r is Some ==> r->Some_0 == self@.index_of_addr(*addr),
    {
        let mut i: usize = 0;
        while i < self.connections.len()
            invariant
                self.wf(),
                0 <= i <= self.connections@.len(),
                forall|j: int| 0 <= j < i ==> self@.connections[j].addr != *addr,
            decreases self.connections@.len() - i,
        {
            if self.connections[i].get_address() == *addr {
                proof {
                    lemma_index_of_addr(self@, i as int);
                }
                return Some(i);
            }
            i = i + 1;
        }
        None
    }

    /// Sends `bytes` to the client with id `recipient`.
    fn send(&self, recipient: ConnId, bytes: Vec<u8>) -> (outs: Vec<Outgoing>)
        requires
            self.wf(),
            self@.has_id(recipient),
        ensures
            outgoing_view(outs@) == send_model(self@, self@.index_of_id(recipient), bytes@).1,
    {
        let ghost b = bytes@;
        let i = self.find_id(recipient).unwrap();
        let conn = self.connections[i];
        proof {
            assert(self@.connections[i as int] == self.connections@[i as int]@);
        }
        let d = conn.encode(&Packet::Payload(PayloadPacket { bytes }));
        let addr = conn.get_address();
        let mut outs: Vec<Outgoing> = Vec::new();
        outs.push(Outgoing { addr, bytes: d, must_send: true, record_at: Some(0) });
        proof {
            let m = send_model(self@, i as int, b);
            assert(outgoing_view(outs@) =~= m.1);
        }
        outs
    }

    /// Sends `bytes` to every client.
    fn send_all(&self, bytes: Vec<u8>) -> (outs: Vec<Outgoing>)
        requires
            self.wf(),
        ensures
            outgoing_view(outs@) == send_all_model(self@, bytes@).1,
    {
        let mut outs: Vec<Outgoing> = Vec::new();
        let mut i: usize = 0;
        while i < self.connections.len()
            invariant
                self.wf(),
                0 <= i <= self.connections@.len(),
                outgoing_view(outs@) =~= Seq::new(
                    i as nat,
                    |k: int| out(self@.connections[k].addr, PacketModel::Payload(bytes@), true, Some(0)),
                ),
            decreases self.connections@.len() - i,
        {
            let copy = copy_bytes(&bytes);
            let conn = self.connections[i];
            assert(self@.connections[i as int] == self.connections@[i as int]@);
            let d = conn.encode(&Packet::Payload(PayloadPacket { bytes: copy }));
            let addr = conn.get_address();
            let ghost prev_outs = outs@;
            let o = Outgoing { addr, bytes: d, must_send: true, record_at: Some(0) };
            assert(1 <= self@.connections[i as int].client_id);
            assert(o@ == out(
                self@.connections[i as int].addr,
                PacketModel::Payload(bytes@),
                true,
                Some(0),
            ));
            outs.push(o);
            assert(outgoing_view(outs@) =~= outgoing_view(prev_outs).push(o@));
            i = i + 1;
        }
        proof {
            let m = send_all_model(self@, bytes@);
            assert(outgoing_view(outs@) =~= m.1);
        }
        outs
    }

    /// Drops the client with id `client`: it is sent disconnects, leaves the table,
    /// and the user is told.
    fn disconnect(&mut self, client: ConnId) -> (outs: Vec<Outgoing>)
        requires
            old(self).wf(),
            old(self)@.has_id(client),
        ensures
            final(self).wf(),
            final(self)@ == disconnect_model(old(self)@, old(self)@.index_of_id(client)).0,
            outgoing_view(outs@) == disconnect_model(
                old(self)@,
                old(self)@.index_of_id(client),
            ).1,
    {
        let i = self.find_id(client).unwrap();
        let conn = self.connections[i];
        proof {
            assert(self@.connections[i as int] == self.connections@[i as int]@);
        }
        let ghost c = conn@;
        let mut outs: Vec<Outgoing> = Vec::new();
        let mut k: usize = 0;
        while k < DISCONNECT_REPEATS
            invariant
                conn@ == c,
                c.protocol_id == PROTOCOL_ID,
                0 <= k <= DISCONNECT_REPEATS,
                outgoing_view(outs@) =~= Seq::new(
                    k as nat,
                    |j: int| out(c.addr, PacketModel::Disconnect, false, None),
                ),
            decreases DISCONNECT_REPEATS - k,
        {
            let d = conn.encode(&Packet::Disconnect);
            let o = Outgoing { addr: conn.get_address(), bytes: d, must_send: false, record_at: None };
            let ghost prev_outs = outs@;
            outs.push(o);
            assert(outgoing_view(outs@) =~= outgoing_view(prev_outs).push(o@));
            k = k + 1;
        }
        self.connections.remove(i);
        let mut message: Vec<u8> = Vec::new();
        message.push(0u8);
        message.push(client);
        assert(message@ =~= leave_message(client));
        self.queue.push_back(message);
        proof {
            let m = disconnect_model(old(self)@, i as int);
            assert(self@.connections =~= m.0.connections);
            assert(self@.queue =~= m.0.queue);
            assert(self@ =~= m.0);
            assert(outgoing_view(outs@) =~= m.1);
        }
        outs
    }

    /// Performs the next job, if any. A job that names a client that is not connected
    /// is dropped.
    pub fn perform_job(&mut self) -> (outs: Vec<Outgoing>)
        requires
            old(self).wf(),
        ensures
            final(self).wf(),
            final(self)@ == perform_model(old(self)@).0,
            outgoing_view(outs@) == perform_model(old(self)@).1,
    {
        let job = match self.jobs.pop_front() {
            Some(j) => j,
            None => {
                let outs: Vec<Outgoing> = Vec::new();
                assert(outgoing_view(outs@) =~= seq![]);
                return outs;
            },
        };
        assert(self@ =~= (ServerView { jobs: old(self)@.jobs.drop_first(), ..old(self)@ }));
        assert(job@ == old(self)@.jobs[0]);
        match job {
            Job::Send(recipient, bytes) => {
                if self.find_id(recipient).is_some() {
                    self.send(recipient, bytes)
                } else {
                    let outs: Vec<Outgoing> = Vec::new();
                    assert(outgoing_view(outs@) =~= seq![]);
                    outs
                }
            },
            Job::SendAll(bytes) => self.send_all(bytes),
            Job::Disconnect(client) => {
                if self.find_id(client).is_some() {
                    self.disconnect(client)
                } else {
                    let outs: Vec<Outgoing> = Vec::new();
                    assert(outgoing_view(outs@) =~= seq![]);
                    outs
                }
            },
        }
    }

    /// Performs jobs until none is left.
    pub fn perform_all_jobs(&mut self) -> (outs: Vec<Outgoing>)
        requires
            old(self).wf(),
        ensures
            final(self).wf(),
            final(self)@ == perform_all_model(old(self)@).0,
            outgoing_view(outs@) == perform_all_model(old(self)@).1,
    {
        let mut outs: Vec<Outgoing> = Vec::new();
        while self.jobs.len() > 0
            invariant
                self.wf(),
                perform_all_model(self@).0 == perform_all_model(old(self)@).0,
                outgoing_view(outs@) + perform_all_model(self@).1 == perform_all_model(old(self)@).1,
            decreases self@.jobs.len(),
        {
            let ghost before = self@;
            let ghost prev_outs = outs@;
            let mut more = self.perform_job();
            let ghost more_outs = more@;
            proof {
                lemma_perform_model_jobs(before);
            }
            outs.append(&mut more);
            proof {
                assert(outgoing_view(outs@) =~= outgoing_view(prev_outs) + outgoing_view(more_outs));
                assert(outgoing_view(outs@) + perform_all_model(self@).1 =~= outgoing_view(prev_outs)
                    + (outgoing_view(more_outs) + perform_all_model(self@).1));
            }
        }
        proof {
            assert(outgoing_view(outs@) + Seq::<OutgoingView>::empty() =~= outgoing_view(outs@));
        }
        outs
    }

    /// Takes the outcome `sent` of putting `out` on the socket: a datagram that went out
    /// and carries a time is recorded as a send on the connection at its address.
    pub fn record_sent(&mut self, out: &Outgoing, sent: std::io::Result<usize>)
        requires
            old(self).wf(),
        ensures
            final(self).wf(),
            final(self)@ == record_model(old(self)@, out@, sent is Ok),
    {
        let time = match out.record_at {
            Some(t) => t,
            None => return,
        };
        let i = match self.find_address(&out.addr) {
            Some(i) => i,
            None => return,
        };
        let mut conn = self.connections[i];
        proof {
            assert(self@.connections[i as int] == self.connections@[i as int]@);
        }
        let _ = conn.send(out.bytes.len(), sent, time);
        self.connections.set(i, conn);
        proof {
            let m = record_model(old(self)@, out@, sent is Ok);
            assert(self@.connections =~= m.connections);
            assert(self@ =~= m);
        }
    }
}

/// Performing a job takes it off the queue.
pub proof fn lemma_perform_model_jobs(v: ServerView)
    requires
        v.jobs.len() > 0,
    ensures
        perform_model(v).0.jobs == v.jobs.drop_first(),
        perform_all_model(v) == ({
            let (w, o) = perform_model(v);
            let (x, p) = perform_all_model(w);
            (x, o + p)
        }),
{
}

impl Server {
    /// Whether `handle_datagram` can take `buf` from `addr`.
    pub fn accepts(&self, buf: &[u8], addr: &Address) -> (r: bool)
        requires
            self.wf(),
        ensures
            r == datagram_ok(self@, buf@, *addr),
    {
        if decode_gives_up(buf, PROTOCOL_ID) {
            return false;
        }
        let packet = match decode(buf, PROTOCOL_ID) {
            Ok((_, p)) => p,
            Err(_) => return false,
        };
        match self.find_address(addr) {
            Some(_) => match packet {
                Packet::Confirm(_) => false,
                Packet::Deny => false,
                _ => true,
            },
            None => match packet {
                Packet::Connect => self.next_id < 255,
                _ => true,
            },
        }
    }

    /// Takes the datagram `buf` from `addr`, received at time `now`.
    pub fn handle_datagram_at(&mut self, buf: &[u8], addr: Address, now: u64) -> (outs: Vec<
        Outgoing,
    >)
        requires
            old(self).wf(),
            datagram_ok(old(self)@, buf@, addr),
        ensures
            final(self).wf(),
            final(self)@ == receive_model(old(self)@, buf@, addr, now).0,
            outgoing_view(outs@) == receive_model(old(self)@, buf@, addr, now).1,
    {
        let mut outs: Vec<Outgoing> = Vec::new();
        match self.find_address(&addr) {
            None => {
                let (_, packet) = decode(buf, PROTOCOL_ID).unwrap();
                if let Packet::Connect = packet {
                    let id = self.next_id;
                    let conn = Connection::new(&addr, id, PROTOCOL_ID, now);
                    let d = conn.encode(&Packet::Confirm(ConfirmPacket { client_id: id }));
                    self.connections.push(conn);
                    self.next_id = id + 1;
                    outs.push(Outgoing { addr, bytes: d, must_send: false, record_at: Some(0) });
                    proof {
                        let m = receive_model(old(self)@, buf@, addr, now);
                        assert(self@.connections =~= m.0.connections);
                        assert(self@ =~= m.0);
                        assert(outgoing_view(outs@) =~= m.1);
                        let n = old(self)@.connections.len();
                        assert forall|k: int| 0 <= k < n implies #[trigger] old(
                            self,
                        )@.connections[k].addr != addr by {
                            if old(self)@.connections[k].addr == addr {
                                assert(old(self)@.has_addr(addr));
                            }
                        }
                        assert(self@.connections[n as int].client_id == id);
                        assert(self@.wf());
                    }
                } else {
                    assert(outgoing_view(outs@) =~= seq![]);
                }
                outs
            },
            Some(i) => {
                let mut conn = self.connections[i];
                proof {
                    assert(self@.connections[i as int] == self.connections@[i as int]@);
                }
                let packet = conn.recv(buf, now).unwrap();
                self.connections.set(i, conn);
                let ghost heard = self@;
                proof {
                    let m = receive_model(old(self)@, buf@, addr, now);
                    assert(self@.connections =~= old(self)@.connections.update(
                        i as int,
                        after_recv(old(self)@.connections[i as int], now),
                    ));
                }
                match packet {
                    Packet::Connect => {
                        let conn = self.connections[i];
                        proof {
                            assert(self@.connections[i as int] == self.connections@[i as int]@);
                        }
                        let client_id = conn.get_id();
                        let d = conn.encode(&Packet::Confirm(ConfirmPacket { client_id }));
                        let a = conn.get_address();
                        outs.push(Outgoing { addr: a, bytes: d, must_send: false, record_at: Some(0) });
                        proof {
                            let m = receive_model(old(self)@, buf@, addr, now);
                            assert(self@.connections =~= m.0.connections);
                            assert(self@ =~= m.0);
                            assert(outgoing_view(outs@) =~= m.1);
                        }
                        outs
                    },
                    Packet::Payload(payload) => {
                        let ghost b = payload.bytes@;
                        self.queue.push_back(payload.bytes);
                        proof {
                            let m = receive_model(old(self)@, buf@, addr, now);
                            assert(self@.queue =~= m.0.queue);
                            assert(self@ =~= m.0);
                            assert(outgoing_view(outs@) =~= m.1);
                        }
                        outs
                    },
                    Packet::Disconnect => {
                        let client_id = self.connections[i].get_id();
                        proof {
                            lemma_index_of_id(self@, i as int);
                        }
                        self.disconnect(client_id)
                    },
                    _ => {
                        proof {
                            let m = receive_model(old(self)@, buf@, addr, now);
                            assert(self@ =~= m.0);
                            assert(outgoing_view(outs@) =~= m.1);
                        }
                        outs
                    },
                }
            },
        }
    }

    /// Takes the datagram `buf` from `addr`, reading the clock for the time of receipt.
    pub fn handle_datagram(&mut self, buf: &[u8], addr: Address) -> (outs: Vec<Outgoing>)
        requires
            old(self).wf(),
            datagram_ok(old(self)@, buf@, addr),
        ensures
            final(self).wf(),
            exists|t: u64|
                final(self)@ == receive_model(old(self)@, buf@, addr, t).0 && outgoing_view(outs@)
                    == receive_model(old(self)@, buf@, addr, t).1,
    {
        let now = precise_time_ns();
        self.handle_datagram_at(buf, addr, now)
    }
}

impl Server {
    /// Ticks the connection at index `i` at time `now`.
    pub fn tick_connection_at(&mut self, i: usize, now: u64) -> (outs: Vec<Outgoing>)
        requires
            old(self).wf(),
            i < old(self)@.connections.len(),
        ensures
            final(self).wf(),
            final(self)@ == tick_model(old(self)@, i as int, now).0,
            outgoing_view(outs@) == tick_model(old(self)@, i as int, now).1,
    {
        let mut outs: Vec<Outgoing> = Vec::new();
        let conn = self.connections[i];
        proof {
            assert(self@.connections[i as int] == self.connections@[i as int]@);
        }
        let (result, keepalive) = conn.tick(now);
        let addr = conn.get_address();
        let client_id = conn.get_id();
        match result {
            UpdateResult::SentKeepAlive => {
                outs.push(
                    Outgoing { addr, bytes: keepalive.unwrap(), must_send: true, record_at: Some(now) },
                );
            },
            UpdateResult::Expired => {
                self.jobs.push_back(Job::Disconnect(client_id));
            },
            UpdateResult::Nil => {},
        }
        proof {
            let m = tick_model(old(self)@, i as int, now);
            assert(self@.connections =~= m.0.connections);
            assert(self@.jobs =~= m.0.jobs);
            assert(self@ =~= m.0);
            assert(outgoing_view(outs@) =~= m.1);
        }
        outs
    }

    /// Ticks every connection in table order, reading the clock for each.
    pub fn tick_all(&mut self) -> (outs: Vec<Outgoing>)
        requires
            old(self).wf(),
        ensures
            final(self).wf(),
            exists|ts: Seq<u64>|
                #![trigger tick_all_model(old(self)@, ts, old(self)@.connections.len())]
                ts.len() == old(self)@.connections.len() && final(self)@ == tick_all_model(
                    old(self)@,
                    ts,
                    old(self)@.connections.len(),
                ).0 && outgoing_view(outs@) == tick_all_model(
                    old(self)@,
                    ts,
                    old(self)@.connections.len(),
                ).1,
    {
        let ghost v = self@;
        let ghost mut ts: Seq<u64> = seq![];
        let mut outs: Vec<Outgoing> = Vec::new();
        let mut i: usize = 0;
        while i < self.connections.len()
            invariant
                v == old(self)@,
                v.wf(),
                self.wf(),
                0 <= i <= self.connections@.len(),
                self.connections@.len() == v.connections.len(),
                ts.len() == i,
                self@ == tick_all_model(v, ts, i as nat).0,
                outgoing_view(outs@) == tick_all_model(v, ts, i as nat).1,
            decreases self.connections@.len() - i,
        {
            let now = precise_time_ns();
            let ghost ts1 = ts.push(now);
            proof {
                assert(ts1.take(i as int) =~= ts.take(i as int));
                lemma_tick_all_model(v, ts1, ts, i as nat);
            }
            let mut more = self.tick_connection_at(i, now);
            let ghost prev_outs = outs@;
            let ghost more_outs = more@;
            outs.append(&mut more);
            proof {
                lemma_tick_all_model(v, ts1, ts1, (i + 1) as nat);
                assert(self@.connections.len() == self.connections@.len());
                ts = ts1;
                assert(outgoing_view(outs@) =~= outgoing_view(prev_outs) + outgoing_view(
                    more_outs,
                ));
            }
            i = i + 1;
        }
        assert(ts.len() == v.connections.len());
        outs
    }
}

/// A copy of a byte vector.
fn copy_bytes(b: &Vec<u8>) -> (c: Vec<u8>)
    ensures
        c@ == b@,
{
    let mut c: Vec<u8> = Vec::new();
    let mut i: usize = 0;
    while i < b.len()
        invariant
            0 <= i <= b@.len(),
            c@ == b@.take(i as int),
        decreases b@.len() - i,
    {
        c.push(b[i]);
        i = i + 1;
        assert(c@ =~= b@.take(i as int));
    }
    assert(b@.take(i as int) =~= b@);
    c
}

/// A connect from a new address opens a connection under a fresh id, the next one in
/// line, and the confirmation sent back to that address carries the id.
pub proof fn lemma_connect_opens(v: ServerView, d: Seq<u8>, addr: Address, t: u64)
    requires
        v.wf(),
        datagram_ok(v, d, addr),
        !v.has_addr(addr),
        decoded(d, PROTOCOL_ID) == Decoded::Packet(PacketModel::Connect),
    ensures
        ({
            let (w, outs) = receive_model(v, d, addr, t);
            &&& !v.has_id(v.next_id)
            &&& w.has_addr(addr)
            &&& w.connections[w.index_of_addr(addr)].client_id == v.next_id
            &&& w.connections[w.index_of_addr(addr)].addr == addr
            &&& w.connections[w.index_of_addr(addr)].protocol_id == PROTOCOL_ID
            &&& w.connections[w.index_of_addr(addr)].sequence == 0
            &&& w.connections[w.index_of_addr(addr)].last_sent == t
            &&& w.connections[w.index_of_addr(addr)].last_received == t
            &&& w.connections.len() == v.connections.len() + 1
            &&& forall|k: int| 0 <= k < v.connections.len() ==> #[trigger] w.connections[k] == v.connections[k]
            &&& w.next_id == v.next_id + 1
            &&& w.queue == v.queue
            &&& w.jobs == v.jobs
            &&& outs.len() == 1
            &&& outs[0].addr == addr
            &&& outs[0].record_at == Some(0u64)
            &&& decoded(outs[0].bytes, PROTOCOL_ID) == Decoded::Packet(PacketModel::Confirm(v.next_id))
            &&& outs == seq![out(addr, PacketModel::Confirm(v.next_id), false, Some(0))]
        }),
{
    lemma_wire_layout(PROTOCOL_ID, PacketModel::Confirm(v.next_id));
    lemma_server_datagram_decodes(PacketModel::Confirm(v.next_id));
    let (w, outs) = receive_model(v, d, addr, t);
    if v.has_id(v.next_id) {
        let j = v.index_of_id(v.next_id);
        assert(v.connections[j].client_id < v.next_id);
    }
    let n = v.connections.len() as int;
    assert(w.connections[n].addr == addr);
    assert(w.has_addr(addr));
    let k = w.index_of_addr(addr);
    if k != n {
        assert(v.connections[k].addr == addr);
        assert(v.has_addr(addr));
    }
}

/// A payload from a connected client is queued for the user behind what was there,
/// and nothing is sent.
pub proof fn lemma_payload_queued(v: ServerView, d: Seq<u8>, addr: Address, t: u64, b: Seq<u8>)
    requires
        v.wf(),
        v.has_addr(addr),
        !decode_panics(d, PROTOCOL_ID),
        decoded(d, PROTOCOL_ID) == Decoded::Packet(PacketModel::Payload(b)),
    ensures
        receive_model(v, d, addr, t).0.queue == v.queue.push(b),
        receive_model(v, d, addr, t).0.connections.len() == v.connections.len(),
        receive_model(v, d, addr, t).1 == Seq::<OutgoingView>::empty(),
{
    assert(receive_model(v, d, addr, t).1 =~= Seq::<OutgoingView>::empty());
}

/// A disconnect from a connected client drops it: its id and address are gone, the
/// user is told, and the client is sent disconnects.
pub proof fn lemma_client_leaves(v: ServerView, d: Seq<u8>, addr: Address, t: u64)
    requires
        v.wf(),
        v.has_addr(addr),
        !decode_panics(d, PROTOCOL_ID),
        decoded(d, PROTOCOL_ID) == Decoded::Packet(PacketModel::Disconnect),
    ensures
        ({
            let id = v.connections[v.index_of_addr(addr)].client_id;
            let (w, outs) = receive_model(v, d, addr, t);
            &&& !w.has_addr(addr)
            &&& !w.has_id(id)
            &&& w.queue == v.queue.push(leave_message(id))
            &&& w.queue == v.queue.push(seq![0u8, id])
            &&& w.next_id == v.next_id
            &&& w.jobs == v.jobs
            &&& w.connections.len() + 1 == v.connections.len()
            &&& outs.len() == 10
            &&& outs.len() == DISCONNECT_REPEATS
            &&& forall|k: int|
                0 <= k < outs.len() ==> #[trigger] outs[k] == out(addr, PacketModel::Disconnect, false, None)
            &&& forall|k: int|
                0 <= k < outs.len() ==> {
                    &&& #[trigger] outs[k].addr == addr
                    &&& outs[k].record_at is None
                    &&& decoded(outs[k].bytes, PROTOCOL_ID) == Decoded::Packet(
                        PacketModel::Disconnect,
                    )
                }
        }),
{
    lemma_wire_layout(PROTOCOL_ID, PacketModel::Disconnect);
    lemma_server_datagram_decodes(PacketModel::Disconnect);
    assert(leave_message(v.connections[v.index_of_addr(addr)].client_id) =~= seq![
        0u8,
        v.connections[v.index_of_addr(addr)].client_id,
    ]);
    let i = v.index_of_addr(addr);
    let id = v.connections[i].client_id;
    let (w, outs) = receive_model(v, d, addr, t);
    if w.has_addr(addr) {
        let k = w.index_of_addr(addr);
        let j = if k < i { k } else { k + 1 };
        assert(w.connections[k] == v.connections[j]);
    }
    if w.has_id(id) {
        let k = w.index_of_id(id);
        let j = if k < i { k } else { k + 1 };
        assert(w.connections[k] == v.connections[j]);
    }
}

/// Every step of the server hands out at most one new id, the next in line, and never
/// one that a connection holds or held: the next id only grows.
pub proof fn lemma_ids_fresh(v: ServerView, d: Seq<u8>, addr: Address, t: u64, id: u8)
    requires
        v.wf(),
        datagram_ok(v, d, addr),
        receive_model(v, d, addr, t).0.has_id(id),
        !v.has_id(id),
    ensures
        id == v.next_id,
        receive_model(v, d, addr, t).0.next_id == v.next_id + 1,
{
    let (w, outs) = receive_model(v, d, addr, t);
    let k = w.index_of_id(id);
    if !v.has_addr(addr) && decoded(d, PROTOCOL_ID)->Packet_0 is Connect {
        if k < v.connections.len() {
            assert(v.connections[k].client_id == id);
        }
    } else if !v.has_addr(addr) {
        assert(v.connections[k].client_id == id);
    } else {
        let i = v.index_of_addr(addr);
        match decoded(d, PROTOCOL_ID)->Packet_0 {
            PacketModel::Disconnect => {
                let j = if k < i { k } else { k + 1 };
                assert(v.connections[j].client_id == id);
            },
            _ => {
                assert(v.connections[k].client_id == id);
            },
        }
    }
}

/// A send job, once performed, sends the bytes as a payload to the address of the
/// client it names.
pub proof fn lemma_send_job_delivers(v: ServerView, id: u8, bytes: Seq<u8>)
    requires
        v.wf(),
        v.has_id(id),
        v.jobs.len() == 0,
    ensures
        ({
            let queued = ServerView { jobs: v.jobs.push(JobView::Send(id, bytes)), ..v };
            let (w, outs) = perform_model(queued);
            &&& w == v
            &&& outs == seq![
                out(
                    v.connections[v.index_of_id(id)].addr,
                    PacketModel::Payload(bytes),
                    true,
                    Some(0),
                ),
            ]
        }),
{
    let queued = ServerView { jobs: v.jobs.push(JobView::Send(id, bytes)), ..v };
    assert(queued.jobs[0] == JobView::Send(id, bytes));
    let j = v.index_of_id(id);
    assert(queued.connections[j].client_id == id);
    assert(queued.jobs.drop_first() =~= Seq::<JobView>::empty());
    assert(perform_model(queued).0 =~= v);
}

/// A job that names a client that is not connected is dropped: nothing else changes and
/// nothing is sent.
pub proof fn lemma_job_for_absent_client_dropped(v: ServerView)
    requires
        v.jobs.len() > 0,
        match v.jobs[0] {
            JobView::Send(id, _) => !v.has_id(id),
            JobView::Disconnect(id) => !v.has_id(id),
            JobView::SendAll(_) => false,
        },
    ensures
        perform_model(v).0 == (ServerView { jobs: v.jobs.drop_first(), ..v }),
        perform_model(v).1 == Seq::<OutgoingView>::empty(),
{
    assert(perform_model(v).1 =~= Seq::<OutgoingView>::empty());
}

/// A client that has been quiet too long, and is not due a keepalive, is dropped by
/// the next job: it leaves the table and the user is told.
pub proof fn lemma_timeout_drops(v: ServerView, i: int, t: u64)
    requires
        v.wf(),
        0 <= i < v.connections.len(),
        v.jobs.len() == 0,
        !keepalive_due(v.connections[i], t),
        timed_out(v.connections[i], t),
    ensures
        ({
            let id = v.connections[i].client_id;
            let ticked = tick_model(v, i, t).0;
            let (w, outs) = perform_model(ticked);
            &&& !w.has_id(id)
            &&& w.queue == v.queue.push(leave_message(id))
            &&& w.queue == v.queue.push(seq![0u8, id])
            &&& outs.len() == DISCONNECT_REPEATS
            &&& forall|k: int|
                0 <= k < outs.len() ==> {
                    &&& #[trigger] outs[k].addr == v.connections[i].addr
                    &&& decoded(outs[k].bytes, PROTOCOL_ID) == Decoded::Packet(
                        PacketModel::Disconnect,
                    )
                }
        }),
{
    lemma_wire_layout(PROTOCOL_ID, PacketModel::Disconnect);
    lemma_server_datagram_decodes(PacketModel::Disconnect);
    assert(leave_message(v.connections[i].client_id) =~= seq![0u8, v.connections[i].client_id]);
    let id = v.connections[i].client_id;
    let ticked = tick_model(v, i, t).0;
    assert(ticked.jobs[0] == JobView::Disconnect(id));
    lemma_index_of_id(v, i);
    assert(ticked.connections == v.connections);
    assert(ticked.has_id(id));
    lemma_index_of_id(ticked, i);
    let (w, outs) = perform_model(ticked);
    if w.has_id(id) {
        let k = w.index_of_id(id);
        let j = if k < i { k } else { k + 1 };
        assert(w.connections[k] == v.connections[j]);
    }
}

/// Taking a datagram keeps the table well formed, and the next id only grows.
pub proof fn lemma_receive_wf(v: ServerView, d: Seq<u8>, addr: Address, t: u64)
    requires
        v.wf(),
        datagram_ok(v, d, addr),
    ensures
        receive_model(v, d, addr, t).0.wf(),
        receive_model(v, d, addr, t).0.next_id >= v.next_id,
{
    let w = receive_model(v, d, addr, t).0;
    let n = v.connections.len() as int;
    if !v.has_addr(addr) {
        if decoded(d, PROTOCOL_ID)->Packet_0 is Connect {
            assert forall|k: int| 0 <= k < n implies #[trigger] v.connections[k].addr != addr by {
                if v.connections[k].addr == addr {
                    assert(v.has_addr(addr));
                }
            }
            assert(w.connections[n].client_id == v.next_id);
            assert forall|i: int, j: int|
                0 <= i < w.connections.len() && 0 <= j < w.connections.len() && i
                    != j implies #[trigger] w.connections[i].client_id
                != #[trigger] w.connections[j].client_id by {
                if i < n {
                    assert(v.connections[i].client_id < v.next_id);
                }
                if j < n {
                    assert(v.connections[j].client_id < v.next_id);
                }
            }
            assert forall|i: int, j: int|
                0 <= i < w.connections.len() && 0 <= j < w.connections.len() && i
                    != j implies #[trigger] w.connections[i].addr != #[trigger] w.connections[j].addr by {
                if i < n && j < n {
                    assert(v.connections[i].addr != v.connections[j].addr);
                }
            }
        }
    } else {
        let i0 = v.index_of_addr(addr);
        let c = after_recv(v.connections[i0], t);
        let heard = ServerView { connections: v.connections.update(i0, c), ..v };
        assert forall|i: int| 0 <= i < n implies {
            &&& #[trigger] heard.connections[i].client_id == v.connections[i].client_id
            &&& heard.connections[i].addr == v.connections[i].addr
            &&& heard.connections[i].protocol_id == v.connections[i].protocol_id
        } by {}
        assert forall|i: int, j: int|
            0 <= i < n && 0 <= j < n && i != j implies #[trigger] heard.connections[i].client_id
            != #[trigger] heard.connections[j].client_id by {
            assert(v.connections[i].client_id != v.connections[j].client_id);
        }
        assert forall|i: int, j: int|
            0 <= i < n && 0 <= j < n && i != j implies #[trigger] heard.connections[i].addr
            != #[trigger] heard.connections[j].addr by {
            assert(v.connections[i].addr != v.connections[j].addr);
        }
        assert(heard.wf());
        if decoded(d, PROTOCOL_ID)->Packet_0 is Disconnect {
            let r = heard.connections.remove(i0);
            assert forall|i: int, j: int|
                0 <= i < r.len() && 0 <= j < r.len() && i != j implies #[trigger] r[i].client_id
                != #[trigger] r[j].client_id by {
                let a = if i < i0 { i } else { i + 1 };
                let b = if j < i0 { j } else { j + 1 };
                assert(heard.connections[a].client_id != heard.connections[b].client_id);
            }
            assert forall|i: int, j: int|
                0 <= i < r.len() && 0 <= j < r.len() && i != j implies #[trigger] r[i].addr
                != #[trigger] r[j].addr by {
                let a = if i < i0 { i } else { i + 1 };
                let b = if j < i0 { j } else { j + 1 };
                assert(heard.connections[a].addr != heard.connections[b].addr);
            }
            assert forall|i: int| 0 <= i < r.len() implies {
                &&& 1 <= #[trigger] r[i].client_id < heard.next_id
                &&& r[i].protocol_id == PROTOCOL_ID
            } by {
                let a = if i < i0 { i } else { i + 1 };
                assert(heard.connections[a].client_id == r[i].client_id);
            }
        }
    }
}

/// A datagram that arrived, with its sender and time of receipt.
pub struct Arrival {
    pub bytes: Seq<u8>,
    pub addr: Address,
    pub time: u64,
}

/// The server after it takes the datagrams `xs` in order.
pub open spec fn receive_run(v: ServerView, xs: Seq<Arrival>) -> ServerView
    decreases xs.len(),
{
    if xs.len() == 0 {
        v
    } else {
        let x = xs.last();
        receive_model(receive_run(v, xs.drop_last()), x.bytes, x.addr, x.time).0
    }
}

/// Every datagram of `xs` can be taken in the state that it meets.
pub open spec fn run_ok(v: ServerView, xs: Seq<Arrival>) -> bool
    decreases xs.len(),
{
    if xs.len() == 0 {
        true
    } else {
        let x = xs.last();
        run_ok(v, xs.drop_last()) && datagram_ok(receive_run(v, xs.drop_last()), x.bytes, x.addr)
    }
}

/// Over any run of datagrams the table stays well formed (distinct ids, distinct
/// addresses), the next id only grows, and every id that appears is new: at least the
/// next id before the run and below the next id after it. So an id is never handed out
/// twice, not even after its client has left.
pub proof fn lemma_run_ids(v: ServerView, xs: Seq<Arrival>)
    requires
        v.wf(),
        run_ok(v, xs),
    ensures
        receive_run(v, xs).wf(),
        receive_run(v, xs).next_id >= v.next_id,
        forall|id: u8|
            #[trigger] receive_run(v, xs).has_id(id) && !v.has_id(id) ==> v.next_id <= id
                < receive_run(v, xs).next_id,
    decreases xs.len(),
{
    if xs.len() > 0 {
        let ys = xs.drop_last();
        let x = xs.last();
        lemma_run_ids(v, ys);
        let u = receive_run(v, ys);
        lemma_receive_wf(u, x.bytes, x.addr, x.time);
        let w = receive_run(v, xs);
        assert forall|id: u8| #[trigger] w.has_id(id) && !v.has_id(id) implies v.next_id <= id
            < w.next_id by {
            if u.has_id(id) {
                assert(v.next_id <= id < u.next_id);
            } else {
                lemma_ids_fresh(u, x.bytes, x.addr, x.time, id);
            }
        }
    }
}

/// Dropping the connection at index `i` keeps the table well formed.
#[verifier::spinoff_prover]
pub proof fn lemma_remove_wf(v: ServerView, i: int)
    requires
        v.wf(),
        0 <= i < v.connections.len(),
    ensures
        (ServerView { connections: v.connections.remove(i), ..v }).wf(),
        forall|k: u8|
            #[trigger] (ServerView { connections: v.connections.remove(i), ..v }).has_id(k) <==> (
            v.has_id(k) && k != v.connections[i].client_id),
        forall|k: u8|
            v.has_id(k) && k != v.connections[i].client_id ==> #[trigger] (ServerView {
                connections: v.connections.remove(i),
                ..v
            }).connections[(ServerView { connections: v.connections.remove(i), ..v }).index_of_id(
                k,
            )] == v.connections[v.index_of_id(k)],
{
    let r = v.connections.remove(i);
    let w = ServerView { connections: r, ..v };
    assert forall|a: int, b: int|
        0 <= a < r.len() && 0 <= b < r.len() && a != b implies #[trigger] r[a].client_id
        != #[trigger] r[b].client_id by {
        let a1 = if a < i { a } else { a + 1 };
        let b1 = if b < i { b } else { b + 1 };
        assert(v.connections[a1].client_id != v.connections[b1].client_id);
    }
    assert forall|a: int, b: int|
        0 <= a < r.len() && 0 <= b < r.len() && a != b implies #[trigger] r[a].addr
        != #[trigger] r[b].addr by {
        let a1 = if a < i { a } else { a + 1 };
        let b1 = if b < i { b } else { b + 1 };
        assert(v.connections[a1].addr != v.connections[b1].addr);
    }
    assert forall|a: int| 0 <= a < r.len() implies {
        &&& 1 <= #[trigger] r[a].client_id < v.next_id
        &&& r[a].protocol_id == PROTOCOL_ID
    } by {
        let a1 = if a < i { a } else { a + 1 };
        assert(v.connections[a1].client_id == r[a].client_id);
    }
    assert(w.wf());
    assert forall|k: u8| #[trigger] w.has_id(k) <==> (v.has_id(k) && k != v.connections[i].client_id) by {
        if w.has_id(k) {
            let a = w.index_of_id(k);
            let a1 = if a < i { a } else { a + 1 };
            assert(v.connections[a1].client_id == k);
            if k == v.connections[i].client_id {
                assert(a1 != i);
            }
        }
        if v.has_id(k) && k != v.connections[i].client_id {
            let a1 = v.index_of_id(k);
            let a = if a1 < i { a1 } else { a1 - 1 };
            assert(a1 != i);
            assert(r[a].client_id == k);
        }
    }
    assert forall|k: u8|
        v.has_id(k) && k != v.connections[i].client_id implies #[trigger] w.connections[w.index_of_id(
            k,
        )] == v.connections[v.index_of_id(k)] by {
        let a1 = v.index_of_id(k);
        let a = if a1 < i { a1 } else { a1 - 1 };
        assert(a1 != i);
        assert(r[a].client_id == k);
        assert(w.has_id(k));
        lemma_index_of_id(w, a);
    }
}

/// The job queue names a disconnect of the client `id`.
pub open spec fn names_disconnect(js: Seq<JobView>, id: u8) -> bool {
    exists|j: int| 0 <= j < js.len() && js[j] == JobView::Disconnect(id)
}

/// The disconnects sent to a client that is dropped.
pub open spec fn disconnect_burst(addr: Address) -> Seq<OutgoingView> {
    Seq::new(DISCONNECT_REPEATS as nat, |k: int| out(addr, PacketModel::Disconnect, false, None))
}

/// `outs` holds, one after another, the disconnects for `addr`.
pub open spec fn holds_burst(outs: Seq<OutgoingView>, addr: Address) -> bool {
    exists|j: int|
        0 <= j && j + DISCONNECT_REPEATS <= outs.len() && #[trigger] outs.subrange(
            j,
            j + DISCONNECT_REPEATS,
        ) == disconnect_burst(addr)
}

proof fn lemma_holds_burst_concat(o: Seq<OutgoingView>, p: Seq<OutgoingView>, addr: Address)
    requires
        holds_burst(o, addr) || holds_burst(p, addr),
    ensures
        holds_burst(o + p, addr),
{
    if holds_burst(o, addr) {
        let j = choose|j: int|
            0 <= j && j + DISCONNECT_REPEATS <= o.len() && #[trigger] o.subrange(
                j,
                j + DISCONNECT_REPEATS,
            ) == disconnect_burst(addr);
        assert((o + p).subrange(j, j + DISCONNECT_REPEATS) =~= o.subrange(j, j + DISCONNECT_REPEATS));
    } else {
        let j = choose|j: int|
            0 <= j && j + DISCONNECT_REPEATS <= p.len() && #[trigger] p.subrange(
                j,
                j + DISCONNECT_REPEATS,
            ) == disconnect_burst(addr);
        let j2 = j + o.len();
        assert((o + p).subrange(j2, j2 + DISCONNECT_REPEATS) =~= p.subrange(j, j + DISCONNECT_REPEATS));
    }
}

/// Performing every job drops exactly the connected clients that a disconnect job
/// names: each is sent its disconnects and the user is told. The other clients stay as
/// they were.
pub proof fn lemma_perform_all(v: ServerView)
    requires
        v.wf(),
    ensures
        perform_all_model(v).0.wf(),
        perform_all_model(v).0.next_id == v.next_id,
        perform_all_model(v).0.jobs.len() == 0,
        forall|m: Seq<u8>| v.queue.contains(m) ==> #[trigger] perform_all_model(v).0.queue.contains(m),
        forall|k: u8|
            #[trigger] perform_all_model(v).0.has_id(k) <==> (v.has_id(k) && !names_disconnect(
                v.jobs,
                k,
            )),
        forall|k: u8|
            v.has_id(k) && !names_disconnect(v.jobs, k) ==> #[trigger] perform_all_model(
                v,
            ).0.connections[perform_all_model(v).0.index_of_id(k)] == v.connections[v.index_of_id(
                k,
            )],
        forall|k: u8|
            v.has_id(k) && names_disconnect(v.jobs, k) ==> {
                &&& #[trigger] perform_all_model(v).0.queue.contains(leave_message(k))
                &&& holds_burst(perform_all_model(v).1, v.connections[v.index_of_id(k)].addr)
            },
    decreases v.jobs.len(),
{
    if v.jobs.len() == 0 {
        assert forall|k: u8| !names_disconnect(v.jobs, k) by {}
    } else {
        lemma_perform_model_jobs(v);
        let rest = ServerView { jobs: v.jobs.drop_first(), ..v };
        let (w1, o) = perform_model(v);
        let (w, p) = perform_all_model(w1);
        let j0 = v.jobs[0];
        assert forall|k: u8|
            names_disconnect(v.jobs, k) <==> (j0 == JobView::Disconnect(k) || names_disconnect(
                rest.jobs,
                k,
            )) by {
            if names_disconnect(v.jobs, k) {
                let j = choose|j: int| 0 <= j < v.jobs.len() && v.jobs[j] == JobView::Disconnect(k);
                if j > 0 {
                    assert(rest.jobs[j - 1] == JobView::Disconnect(k));
                }
            }
            if names_disconnect(rest.jobs, k) {
                let j = choose|j: int|
                    0 <= j < rest.jobs.len() && rest.jobs[j] == JobView::Disconnect(k);
                assert(v.jobs[j + 1] == JobView::Disconnect(k));
            }
        }
        let removed = match j0 {
            JobView::Disconnect(id) => v.has_id(id),
            _ => false,
        };
        if removed {
            let id = j0->Disconnect_0;
            let i = v.index_of_id(id);
            lemma_index_of_id(v, i);
            lemma_remove_wf(v, i);
            let t = ServerView { connections: v.connections.remove(i), ..v };
            assert(w1.connections == t.connections);
            assert forall|k: u8|
                #[trigger] w1.has_id(k) == t.has_id(k) && w1.index_of_id(k) == t.index_of_id(k) by {}
            assert(w1.queue == v.queue.push(leave_message(id)));
            assert(o =~= disconnect_burst(v.connections[i].addr));
        } else {
            assert(w1.connections == v.connections);
            assert(w1.queue == v.queue);
        }
        assert(w1.wf());
        lemma_perform_all(w1);
        assert forall|m: Seq<u8>| v.queue.contains(m) implies #[trigger] w.queue.contains(m) by {
            let j = choose|j: int| 0 <= j < v.queue.len() && v.queue[j] == m;
            assert(w1.queue[j] == m);
            assert(w1.queue.contains(m));
        }
        assert forall|k: u8| v.has_id(k) && names_disconnect(v.jobs, k) implies {
            &&& #[trigger] w.queue.contains(leave_message(k))
            &&& holds_burst(perform_all_model(v).1, v.connections[v.index_of_id(k)].addr)
        } by {
            if removed && j0 == JobView::Disconnect(k) {
                let i = v.index_of_id(k);
                assert(w1.queue[w1.queue.len() - 1] == leave_message(k));
                assert(w1.queue.contains(leave_message(k)));
                let a = v.connections[i].addr;
                assert(o =~= disconnect_burst(a));
                assert(o.subrange(0, 0 + DISCONNECT_REPEATS) =~= o);
                assert(o.subrange(0, 0 + DISCONNECT_REPEATS) == disconnect_burst(a));
                assert(holds_burst(o, a));
                lemma_holds_burst_concat(o, p, v.connections[i].addr);
            } else {
                if removed {
                    assert(k != j0->Disconnect_0);
                } else {
                    assert(j0 != JobView::Disconnect(k));
                }
                assert(names_disconnect(rest.jobs, k));
                assert(w1.jobs == rest.jobs);
                assert(names_disconnect(w1.jobs, k));
                assert(w1.has_id(k));
                assert(w.queue.contains(leave_message(k)));
                assert(w1.connections[w1.index_of_id(k)] == v.connections[v.index_of_id(k)]) by {
                    if !removed {
                        lemma_index_of_id(v, v.index_of_id(k));
                        lemma_index_of_id(w1, v.index_of_id(k));
                    }
                }
                lemma_holds_burst_concat(o, p, v.connections[v.index_of_id(k)].addr);
            }
        }
        assert forall|k: u8| #[trigger] w.has_id(k) <==> (v.has_id(k) && !names_disconnect(v.jobs, k)) by {
            if !removed {
                assert(w1.has_id(k) == v.has_id(k));
            }
        }
        assert forall|k: u8|
            v.has_id(k) && !names_disconnect(v.jobs, k) implies #[trigger] w.connections[w.index_of_id(
                k,
            )] == v.connections[v.index_of_id(k)] by {
            assert(w1.has_id(k));
            if !removed {
                lemma_index_of_id(v, v.index_of_id(k));
                lemma_index_of_id(w1, v.index_of_id(k));
            }
        }
    }
}

/// A connection that the worker drops at time `t`: no keepalive is due, and it has
/// been quiet too long.
pub open spec fn expires(c: ConnectionView, t: u64) -> bool {
    !keepalive_due(c, t) && timed_out(c, t)
}

/// Ticking changes no connection and queues a disconnect job for exactly the
/// connections that expire.
pub proof fn lemma_tick_all_jobs(v: ServerView, ts: Seq<u64>, n: nat)
    requires
        n <= v.connections.len(),
        n <= ts.len(),
    ensures
        tick_all_model(v, ts, n).0.connections == v.connections,
        tick_all_model(v, ts, n).0.queue == v.queue,
        tick_all_model(v, ts, n).0.next_id == v.next_id,
        forall|id: u8|
            #[trigger] names_disconnect(tick_all_model(v, ts, n).0.jobs, id) <==> (
            names_disconnect(v.jobs, id) || exists|k: int|
                0 <= k < n && v.connections[k].client_id == id && #[trigger] expires(
                    v.connections[k],
                    ts[k],
                )),
    decreases n,
{
    if n > 0 {
        let n1 = (n - 1) as nat;
        lemma_tick_all_jobs(v, ts, n1);
        let prev = tick_all_model(v, ts, n1).0;
        let w = tick_all_model(v, ts, n).0;
        let c = v.connections[n1 as int];
        let t = ts[n1 as int];
        assert forall|id: u8|
            #[trigger] names_disconnect(w.jobs, id) <==> (names_disconnect(v.jobs, id)
                || exists|k: int|
                0 <= k < n && v.connections[k].client_id == id && #[trigger] expires(
                    v.connections[k],
                    ts[k],
                )) by {
            if expires(c, t) {
                assert(w.jobs == prev.jobs.push(JobView::Disconnect(c.client_id)));
                if names_disconnect(w.jobs, id) {
                    let j = choose|j: int| 0 <= j < w.jobs.len() && w.jobs[j] == JobView::Disconnect(id);
                    if j < prev.jobs.len() {
                        assert(prev.jobs[j] == JobView::Disconnect(id));
                        assert(names_disconnect(prev.jobs, id));
                    } else {
                        assert(expires(v.connections[n1 as int], ts[n1 as int]));
                    }
                }
                if names_disconnect(prev.jobs, id) {
                    let j = choose|j: int| 0 <= j < prev.jobs.len() && prev.jobs[j] == JobView::Disconnect(id);
                    assert(w.jobs[j] == JobView::Disconnect(id));
                }
                if exists|k: int|
                    0 <= k < n && v.connections[k].client_id == id && #[trigger] expires(
                        v.connections[k],
                        ts[k],
                    ) {
                    let k = choose|k: int|
                        0 <= k < n && v.connections[k].client_id == id && #[trigger] expires(
                            v.connections[k],
                            ts[k],
                        );
                    if k == n1 {
                        assert(w.jobs[prev.jobs.len() as int] == JobView::Disconnect(id));
                    } else {
                        assert(names_disconnect(prev.jobs, id));
                        let j = choose|j: int| 0 <= j < prev.jobs.len() && prev.jobs[j] == JobView::Disconnect(id);
                        assert(w.jobs[j] == JobView::Disconnect(id));
                    }
                }
            } else {
                assert(w.jobs == prev.jobs);
                if exists|k: int|
                    0 <= k < n && v.connections[k].client_id == id && #[trigger] expires(
                        v.connections[k],
                        ts[k],
                    ) {
                    let k = choose|k: int|
                        0 <= k < n && v.connections[k].client_id == id && #[trigger] expires(
                            v.connections[k],
                            ts[k],
                        );
                    assert(k != n1);
                }
            }
        }
    }
}

/// Recording each datagram of `outs` as gone out, in order.
pub open spec fn record_all(v: ServerView, outs: Seq<OutgoingView>) -> ServerView
    decreases outs.len(),
{
    if outs.len() == 0 {
        v
    } else {
        record_model(record_all(v, outs.drop_last()), outs.last(), true)
    }
}

/// The two tables hold the same clients at the same places, heard from at the same
/// times.
pub open spec fn same_table(v: ServerView, w: ServerView) -> bool {
    &&& w.connections.len() == v.connections.len()
    &&& forall|k: int|
        0 <= k < v.connections.len() ==> {
            &&& #[trigger] w.connections[k].client_id == v.connections[k].client_id
            &&& w.connections[k].addr == v.connections[k].addr
            &&& w.connections[k].protocol_id == v.connections[k].protocol_id
            &&& w.connections[k].last_received == v.connections[k].last_received
        }
}

/// Recording sends changes only when connections last sent.
pub proof fn lemma_record_all(v: ServerView, outs: Seq<OutgoingView>)
    requires
        v.wf(),
    ensures
        record_all(v, outs).wf(),
        same_table(v, record_all(v, outs)),
        record_all(v, outs).queue == v.queue,
        record_all(v, outs).jobs == v.jobs,
        record_all(v, outs).next_id == v.next_id,
    decreases outs.len(),
{
    if outs.len() > 0 {
        lemma_record_all(v, outs.drop_last());
        let u = record_all(v, outs.drop_last());
        let w = record_all(v, outs);
        assert forall|i: int, j: int|
            0 <= i < w.connections.len() && 0 <= j < w.connections.len() && i
                != j implies #[trigger] w.connections[i].client_id != #[trigger] w.connections[j].client_id by {
            assert(u.connections[i].client_id != u.connections[j].client_id);
        }
        assert forall|i: int, j: int|
            0 <= i < w.connections.len() && 0 <= j < w.connections.len() && i
                != j implies #[trigger] w.connections[i].addr != #[trigger] w.connections[j].addr by {
            assert(u.connections[i].addr != u.connections[j].addr);
        }
        assert forall|k: int| 0 <= k < w.connections.len() implies {
            &&& 1 <= #[trigger] w.connections[k].client_id < w.next_id
            &&& w.connections[k].protocol_id == PROTOCOL_ID
        } by {
            assert(u.connections[k].client_id == w.connections[k].client_id);
        }
    }
}

/// Tables that hold the same clients at the same places agree on who is connected and
/// on where and when each was last heard from.
pub proof fn lemma_same_table(v: ServerView, w: ServerView)
    requires
        v.wf(),
        w.wf(),
        same_table(v, w),
    ensures
        forall|k: u8| #[trigger] w.has_id(k) == v.has_id(k),
        forall|k: u8| #![trigger w.index_of_id(k)] v.has_id(k) ==> w.index_of_id(k) == v.index_of_id(k),
        forall|k: u8|
            #![trigger w.index_of_id(k)]
            v.has_id(k) ==> w.connections[w.index_of_id(k)].addr == v.connections[v.index_of_id(
                k,
            )].addr && w.connections[w.index_of_id(k)].last_received == v.connections[v.index_of_id(
                k,
            )].last_received,
{
    assert forall|k: u8| #[trigger] w.has_id(k) == v.has_id(k) by {
        if v.has_id(k) {
            let i = v.index_of_id(k);
            assert(w.connections[i].client_id == k);
        }
        if w.has_id(k) {
            let i = w.index_of_id(k);
            assert(v.connections[i].client_id == k);
        }
    }
    assert forall|k: u8| #![trigger w.index_of_id(k)] v.has_id(k) implies w.index_of_id(k)
        == v.index_of_id(k) by {
        let i = v.index_of_id(k);
        assert(w.connections[i].client_id == k);
        lemma_index_of_id(v, i);
        lemma_index_of_id(w, i);
    }
    assert forall|k: u8|
        #![trigger w.index_of_id(k)]
        v.has_id(k) implies w.connections[w.index_of_id(k)].addr == v.connections[v.index_of_id(
            k,
        )].addr && w.connections[w.index_of_id(k)].last_received == v.connections[v.index_of_id(
            k,
        )].last_received by {
        let i = v.index_of_id(k);
        assert(w.connections[i].client_id == k);
        lemma_index_of_id(v, i);
        lemma_index_of_id(w, i);
    }
}

/// One round of the worker when every datagram goes out: each connection is ticked,
/// the `k`-th at time `ts[k]`, and its keepalive recorded; then every job is performed
/// and its datagrams recorded.
pub open spec fn worker_round(v: ServerView, ts: Seq<u64>) -> (ServerView, Seq<OutgoingView>) {
    let (a, o1) = tick_all_model(v, ts, v.connections.len());
    let b = record_all(a, o1);
    let (c, o2) = perform_all_model(b);
    (record_all(c, o2), o1 + o2)
}

/// In one round of the worker a client that expires at its tick is dropped: it leaves
/// the table, the user is told, and it is sent its disconnects. Any other client stays,
/// at the same address and last heard from at the same time.
pub proof fn lemma_worker_round(v: ServerView, ts: Seq<u64>, i: int)
    requires
        v.wf(),
        ts.len() >= v.connections.len(),
        0 <= i < v.connections.len(),
        !names_disconnect(v.jobs, v.connections[i].client_id),
    ensures
        ({
            let c0 = v.connections[i];
            let id = c0.client_id;
            let (w, outs) = worker_round(v, ts);
            &&& w.wf()
            &&& w.jobs.len() == 0
            &&& expires(c0, ts[i]) ==> {
                &&& !w.has_id(id)
                &&& w.queue.contains(leave_message(id))
                &&& holds_burst(outs, c0.addr)
            }
            &&& !expires(c0, ts[i]) ==> {
                &&& w.has_id(id)
                &&& w.connections[w.index_of_id(id)].addr == c0.addr
                &&& w.connections[w.index_of_id(id)].last_received == c0.last_received
            }
        }),
{
    let n = v.connections.len();
    let c0 = v.connections[i];
    let id = c0.client_id;
    let (a, o1) = tick_all_model(v, ts, n);
    lemma_tick_all_model(v, ts, ts, n);
    lemma_tick_all_jobs(v, ts, n);
    assert(names_disconnect(a.jobs, id) == expires(c0, ts[i])) by {
        if expires(c0, ts[i]) {
            assert(v.connections[i].client_id == id);
        }
        if exists|k: int|
            0 <= k < n && v.connections[k].client_id == id && #[trigger] expires(
                v.connections[k],
                ts[k],
            ) {
            let k = choose|k: int|
                0 <= k < n && v.connections[k].client_id == id && #[trigger] expires(
                    v.connections[k],
                    ts[k],
                );
            assert(k == i);
        }
    }
    let b = record_all(a, o1);
    lemma_record_all(a, o1);
    lemma_same_table(a, b);
    lemma_index_of_id(v, i);
    assert(a.connections == v.connections);
    assert(a.has_id(id));
    assert(a.index_of_id(id) == i);
    let (c, o2) = perform_all_model(b);
    lemma_perform_all(b);
    assert(b.has_id(id));
    let w = record_all(c, o2);
    lemma_record_all(c, o2);
    lemma_same_table(c, w);
    if expires(c0, ts[i]) {
        assert(names_disconnect(b.jobs, id));
        assert(c.queue.contains(leave_message(id)));
        assert(holds_burst(o2, b.connections[b.index_of_id(id)].addr));
        lemma_holds_burst_concat(o1, o2, c0.addr);
    } else {
        assert(!names_disconnect(b.jobs, id));
        assert(c.has_id(id));
        assert(c.connections[c.index_of_id(id)] == b.connections[b.index_of_id(id)]);
    }
}

/// The server after rounds of the worker, round `r` ticking at times `tss[r]`, with
/// no datagram received between them and every datagram going out.
pub open spec fn worker_rounds(v: ServerView, tss: Seq<Seq<u64>>) -> ServerView
    decreases tss.len(),
{
    if tss.len() == 0 {
        v
    } else {
        worker_round(worker_rounds(v, tss.drop_last()), tss.last()).0
    }
}

/// The connection of client `id`.
pub open spec fn conn_of(v: ServerView, id: u8) -> ConnectionView {
    v.connections[v.index_of_id(id)]
}

/// Round `r` of `tss` has a time for every connection, and client `id` does not expire
/// at its tick.
pub open spec fn round_spares(v: ServerView, tss: Seq<Seq<u64>>, id: u8, r: int) -> bool {
    let s = worker_rounds(v, tss.take(r));
    &&& tss[r].len() >= s.connections.len()
    &&& !expires(conn_of(s, id), tss[r][s.index_of_id(id)])
}

/// A client that does not expire at its tick in any round stays connected through all
/// of them, at the same address and last heard from at the same time.
pub proof fn lemma_worker_rounds_keep(v: ServerView, tss: Seq<Seq<u64>>, id: u8)
    requires
        v.wf(),
        v.has_id(id),
        !names_disconnect(v.jobs, id),
        forall|r: int| 0 <= r < tss.len() ==> #[trigger] round_spares(v, tss, id, r),
    ensures
        worker_rounds(v, tss).wf(),
        worker_rounds(v, tss).has_id(id),
        !names_disconnect(worker_rounds(v, tss).jobs, id),
        conn_of(worker_rounds(v, tss), id).addr == conn_of(v, id).addr,
        conn_of(worker_rounds(v, tss), id).last_received == conn_of(v, id).last_received,
    decreases tss.len(),
{
    if tss.len() > 0 {
        let us = tss.drop_last();
        assert forall|r: int| 0 <= r < us.len() implies #[trigger] round_spares(v, us, id, r) by {
            assert(us.take(r) =~= tss.take(r));
            assert(round_spares(v, tss, id, r));
        }
        lemma_worker_rounds_keep(v, us, id);
        let u = worker_rounds(v, us);
        let r = us.len() as int;
        assert(tss.take(r) =~= us);
        assert(round_spares(v, tss, id, r));
        let i = u.index_of_id(id);
        lemma_index_of_id(u, i);
        lemma_worker_round(u, tss.last(), i);
        let w = worker_round(u, tss.last()).0;
        assert(w.jobs.len() == 0);
        assert forall|k: u8| !names_disconnect(w.jobs, k) by {}
    }
}

/// A client that does not expire in any round before the last and expires at its tick
/// in the last is dropped in that round: it leaves the table and the user is told.
pub proof fn lemma_worker_timeout(v: ServerView, tss: Seq<Seq<u64>>, id: u8)
    requires
        v.wf(),
        v.has_id(id),
        !names_disconnect(v.jobs, id),
        tss.len() > 0,
        forall|r: int| 0 <= r < tss.len() - 1 ==> #[trigger] round_spares(v, tss, id, r),
        ({
            let s = worker_rounds(v, tss.drop_last());
            &&& tss.last().len() >= s.connections.len()
            &&& expires(conn_of(s, id), tss.last()[s.index_of_id(id)])
        }),
    ensures
        worker_rounds(v, tss).wf(),
        !worker_rounds(v, tss).has_id(id),
        worker_rounds(v, tss).queue.contains(leave_message(id)),
        holds_burst(
            worker_round(worker_rounds(v, tss.drop_last()), tss.last()).1,
            conn_of(v, id).addr,
        ),
{
    let us = tss.drop_last();
    assert forall|r: int| 0 <= r < us.len() implies #[trigger] round_spares(v, us, id, r) by {
        assert(us.take(r) =~= tss.take(r));
        assert(round_spares(v, tss, id, r));
    }
    lemma_worker_rounds_keep(v, us, id);
    let u = worker_rounds(v, us);
    let i = u.index_of_id(id);
    lemma_index_of_id(u, i);
    lemma_worker_round(u, tss.last(), i);
}

/// One event of the server's life, as the operations above see it.
pub enum ServerEvent {
    /// `handle_datagram_at` takes a datagram.
    Receive(Arrival),
    /// `tick_connection_at` ticks the connection at an index at a time.
    Tick(nat, u64),
    /// `record_sent` takes the outcome of putting a datagram on the socket.
    Sent(OutgoingView, bool),
    /// `perform_job` performs the next job.
    Perform,
    /// `add_send_job` or `add_send_all_job` queues a job.
    AddJob(JobView),
    /// `poll` takes the oldest message for the user.
    Poll,
}

/// The server after the event `e`.
pub open spec fn event_model(v: ServerView, e: ServerEvent) -> ServerView {
    match e {
        ServerEvent::Receive(x) => receive_model(v, x.bytes, x.addr, x.time).0,
        ServerEvent::Tick(i, t) => tick_model(v, i as int, t).0,
        ServerEvent::Sent(o, went_out) => record_model(v, o, went_out),
        ServerEvent::Perform => perform_model(v).0,
        ServerEvent::AddJob(j) => ServerView { jobs: v.jobs.push(j), ..v },
        ServerEvent::Poll => if v.queue.len() == 0 {
            v
        } else {
            ServerView { queue: v.queue.drop_first(), ..v }
        },
    }
}

/// The event `e` can happen in `v`: a datagram can be taken, a tick names a connection.
pub open spec fn event_ok(v: ServerView, e: ServerEvent) -> bool {
    match e {
        ServerEvent::Receive(x) => datagram_ok(v, x.bytes, x.addr),
        ServerEvent::Tick(i, _) => i < v.connections.len(),
        _ => true,
    }
}

/// The server after the events `es` in order.
pub open spec fn event_run(v: ServerView, es: Seq<ServerEvent>) -> ServerView
    decreases es.len(),
{
    if es.len() == 0 {
        v
    } else {
        event_model(event_run(v, es.drop_last()), es.last())
    }
}

/// Every event of `es` can happen in the state that it meets.
pub open spec fn event_run_ok(v: ServerView, es: Seq<ServerEvent>) -> bool
    decreases es.len(),
{
    if es.len() == 0 {
        true
    } else {
        event_run_ok(v, es.drop_last()) && event_ok(event_run(v, es.drop_last()), es.last())
    }
}

/// Performing a job keeps the table well formed and the next id, and brings in no
/// client.
pub proof fn lemma_perform_step(v: ServerView)
    requires
        v.wf(),
    ensures
        perform_model(v).0.wf(),
        perform_model(v).0.next_id == v.next_id,
        forall|k: u8| #[trigger] perform_model(v).0.has_id(k) ==> v.has_id(k),
{
    if v.jobs.len() > 0 {
        let w = perform_model(v).0;
        let removed = match v.jobs[0] {
            JobView::Disconnect(id) => v.has_id(id),
            _ => false,
        };
        if removed {
            let id = v.jobs[0]->Disconnect_0;
            let i = v.index_of_id(id);
            lemma_index_of_id(v, i);
            lemma_remove_wf(v, i);
            let t = ServerView { connections: v.connections.remove(i), ..v };
            assert(w.connections == t.connections);
            assert forall|k: u8| #[trigger] w.has_id(k) implies v.has_id(k) by {
                assert(w.has_id(k) == t.has_id(k));
            }
        } else {
            assert(w.connections == v.connections);
        }
    }
}

/// Any event but a datagram keeps the table well formed and the next id, and brings in
/// no client; a datagram may bring in one, under the next id.
pub proof fn lemma_event_step(v: ServerView, e: ServerEvent)
    requires
        v.wf(),
        event_ok(v, e),
    ensures
        event_model(v, e).wf(),
        event_model(v, e).next_id >= v.next_id,
        forall|id: u8|
            #[trigger] event_model(v, e).has_id(id) && !v.has_id(id) ==> id == v.next_id
                && event_model(v, e).next_id == v.next_id + 1,
{
    let w = event_model(v, e);
    match e {
        ServerEvent::Receive(x) => {
            lemma_receive_wf(v, x.bytes, x.addr, x.time);
            assert forall|id: u8| #[trigger] w.has_id(id) && !v.has_id(id) implies id == v.next_id
                && w.next_id == v.next_id + 1 by {
                lemma_ids_fresh(v, x.bytes, x.addr, x.time, id);
            }
        },
        ServerEvent::Tick(i, t) => {
            assert(w.connections == v.connections);
        },
        ServerEvent::Sent(o, went_out) => {
            if went_out {
                let os = seq![o];
                lemma_record_all(v, os);
                assert(os.drop_last() =~= Seq::<OutgoingView>::empty());
                assert(record_all(v, os.drop_last()) == v);
                assert(os.last() == o);
                assert(record_all(v, os) == w);
                lemma_same_table(v, w);
            }
        },
        ServerEvent::Perform => {
            lemma_perform_step(v);
        },
        ServerEvent::AddJob(j) => {
            assert(w.connections == v.connections);
        },
        ServerEvent::Poll => {
            assert(w.connections == v.connections);
        },
    }
}

/// Over any run that mixes received datagrams, ticks, sends, jobs and polls, the table
/// stays well formed (distinct ids, distinct addresses, so each address names at most one
/// client and each client one address), the next id only grows, and every id that
/// appears is new: at least the next id before the run and below the next id after it.
/// Ids are handed out one after another and never twice.
pub proof fn lemma_event_run_ids(v: ServerView, es: Seq<ServerEvent>)
    requires
        v.wf(),
        event_run_ok(v, es),
    ensures
        event_run(v, es).wf(),
        event_run(v, es).next_id >= v.next_id,
        forall|id: u8|
            #[trigger] event_run(v, es).has_id(id) && !v.has_id(id) ==> v.next_id <= id
                < event_run(v, es).next_id,
    decreases es.len(),
{
    if es.len() > 0 {
        let fs = es.drop_last();
        lemma_event_run_ids(v, fs);
        let u = event_run(v, fs);
        lemma_event_step(u, es.last());
        let w = event_run(v, es);
        assert forall|id: u8| #[trigger] w.has_id(id) && !v.has_id(id) implies v.next_id <= id
            < w.next_id by {
            if u.has_id(id) {
                assert(v.next_id <= id < u.next_id);
            }
        }
    }
}

/// The server's datagram for a well-formed packet that fits its send buffer decodes back
/// to that packet.
pub proof fn lemma_server_datagram_decodes(m: PacketModel)
    requires
        well_formed(m),
        wire(PROTOCOL_ID, m).len() <= SEND_BUFFER_LEN,
    ensures
        server_datagram(m) == wire(PROTOCOL_ID, m),
        !decode_panics(server_datagram(m), PROTOCOL_ID),
        decoded(server_datagram(m), PROTOCOL_ID) == Decoded::Packet(m),
{
    let w = wire(PROTOCOL_ID, m);
    lemma_wire_layout(PROTOCOL_ID, m);
    assert(w.take(w.len() as int) =~= w);
    assert(w + Seq::<u8>::empty() =~= w);
    lemma_decode_wire(PROTOCOL_ID, m, Seq::empty());
}

/// Every packet that a connected client sends and the server takes at time `t`, other
/// than a disconnect, marks the client heard at `t` and leaves the rest of the table as
/// it was. A connect is confirmed again to the client's address with its own id, a
/// payload is queued for the user as it came, and a keepalive changes nothing more.
pub proof fn lemma_known_client_heard(v: ServerView, d: Seq<u8>, addr: Address, t: u64)
    requires
        v.wf(),
        datagram_ok(v, d, addr),
        v.has_addr(addr),
        !(decoded(d, PROTOCOL_ID)->Packet_0 is Disconnect),
    ensures
        ({
            let (w, outs) = receive_model(v, d, addr, t);
            let i = v.index_of_addr(addr);
            let c = v.connections[i];
            let m = decoded(d, PROTOCOL_ID)->Packet_0;
            &&& w.wf()
            &&& w.has_addr(addr)
            &&& w.index_of_addr(addr) == i
            &&& w.connections.len() == v.connections.len()
            &&& w.connections[i].last_received == t
            &&& w.connections[i].last_sent == c.last_sent
            &&& w.connections[i].sequence == c.sequence
            &&& w.connections[i].client_id == c.client_id
            &&& w.connections[i].addr == addr
            &&& w.connections[i].protocol_id == c.protocol_id
            &&& forall|k: int| 0 <= k < v.connections.len() && k != i ==> #[trigger] w.connections[k]
                == v.connections[k]
            &&& w.next_id == v.next_id
            &&& w.jobs == v.jobs
            &&& (m is Connect ==> {
                &&& w.queue == v.queue
                &&& outs.len() == 1
                &&& outs[0].addr == addr
                &&& outs[0].record_at == Some(0u64)
                &&& decoded(outs[0].bytes, PROTOCOL_ID) == Decoded::Packet(
                    PacketModel::Confirm(c.client_id),
                )
            })
            &&& (m is Payload ==> w.queue == v.queue.push(m->Payload_0) && outs.len() == 0)
            &&& (m is KeepAlive ==> w.queue == v.queue && outs.len() == 0)
        }),
{
    let i = v.index_of_addr(addr);
    let c = v.connections[i];
    lemma_wire_layout(PROTOCOL_ID, PacketModel::Confirm(c.client_id));
    lemma_server_datagram_decodes(PacketModel::Confirm(c.client_id));
    lemma_receive_wf(v, d, addr, t);
    let (w, outs) = receive_model(v, d, addr, t);
    assert(v.connections[i].addr == addr);
    assert(w.connections[i].addr == addr);
    lemma_index_of_addr(w, i);
}

/// From an address the server does not know, anything but a connect is ignored.
pub proof fn lemma_stranger_ignored(v: ServerView, d: Seq<u8>, addr: Address, t: u64)
    requires
        v.wf(),
        datagram_ok(v, d, addr),
        !v.has_addr(addr),
        !(decoded(d, PROTOCOL_ID)->Packet_0 is Connect),
    ensures
        receive_model(v, d, addr, t).0 == v,
        receive_model(v, d, addr, t).1.len() == 0,
{
}

/// Ticking the connection at index `i` at time `t` touches no connection and sends
/// only to that connection's address: a keepalive, exactly when its last send is more
/// than `KEEPALIVE_TIME` before `t`, recorded at `t`. Otherwise, if it was last heard
/// from more than `TIMEOUT_TIME` before `t`, a disconnect job for its id is queued.
pub proof fn lemma_tick_addressed(v: ServerView, i: int, t: u64)
    requires
        v.wf(),
        0 <= i < v.connections.len(),
    ensures
        ({
            let (w, outs) = tick_model(v, i, t);
            let c = v.connections[i];
            &&& forall|k: int| 0 <= k < outs.len() ==> #[trigger] outs[k].addr == c.addr
            &&& outs.len() == (if c.last_sent + crate::connection::KEEPALIVE_TIME < t {
                1int
            } else {
                0int
            })
            &&& outs.len() == 1 ==> {
                &&& outs[0].record_at == Some(t)
                &&& outs[0].must_send
                &&& decoded(outs[0].bytes, PROTOCOL_ID) == Decoded::Packet(PacketModel::KeepAlive)
            }
            &&& w.connections == v.connections
            &&& w.queue == v.queue
            &&& w.next_id == v.next_id
            &&& w.jobs == (if c.last_sent + crate::connection::KEEPALIVE_TIME >= t && c.last_received
                + crate::connection::TIMEOUT_TIME < t {
                v.jobs.push(JobView::Disconnect(c.client_id))
            } else {
                v.jobs
            })
        }),
{
    lemma_wire_layout(PROTOCOL_ID, PacketModel::KeepAlive);
    lemma_server_datagram_decodes(PacketModel::KeepAlive);
}

/// A job that sends to every client sends, to each connection in table order at its
/// own address, the payload's datagram, which decodes to the payload itself when it
/// fits one datagram; nothing else changes but the job queue.
pub proof fn lemma_send_all_delivers(v: ServerView, b: Seq<u8>)
    requires
        v.wf(),
        v.jobs.len() > 0,
        v.jobs[0] == JobView::SendAll(b),
    ensures
        ({
            let (w, outs) = perform_model(v);
            &&& outs.len() == v.connections.len()
            &&& forall|k: int|
                0 <= k < outs.len() ==> {
                    &&& #[trigger] outs[k].addr == v.connections[k].addr
                    &&& outs[k].bytes == server_datagram(PacketModel::Payload(b))
                    &&& outs[k].must_send
                    &&& outs[k].record_at == Some(0u64)
                    &&& b.len() <= 250 ==> decoded(outs[k].bytes, PROTOCOL_ID) == Decoded::Packet(
                        PacketModel::Payload(b),
                    )
                }
            &&& w.connections == v.connections
            &&& w.queue == v.queue
            &&& w.jobs == v.jobs.drop_first()
        }),
{
    if b.len() <= 250 {
        lemma_wire_layout(PROTOCOL_ID, PacketModel::Payload(b));
        lemma_server_datagram_decodes(PacketModel::Payload(b));
    }
}

/// A job that sends to one connected client sends it, at its address, the payload's
/// datagram, which decodes to the payload itself when it fits one datagram.
pub proof fn lemma_send_job_decodes(v: ServerView, id: u8, b: Seq<u8>)
    requires
        v.wf(),
        v.jobs.len() > 0,
        v.jobs[0] == JobView::Send(id, b),
        v.has_id(id),
    ensures
        ({
            let (w, outs) = perform_model(v);
            &&& outs.len() == 1
            &&& outs[0].addr == v.connections[v.index_of_id(id)].addr
            &&& v.connections[v.index_of_id(id)].client_id == id
            &&& outs[0].bytes == server_datagram(PacketModel::Payload(b))
            &&& outs[0].record_at == Some(0u64)
            &&& b.len() <= 250 ==> decoded(outs[0].bytes, PROTOCOL_ID) == Decoded::Packet(
                PacketModel::Payload(b),
            )
            &&& w.connections == v.connections
            &&& w.queue == v.queue
        }),
{
    if b.len() <= 250 {
        lemma_wire_layout(PROTOCOL_ID, PacketModel::Payload(b));
        lemma_server_datagram_decodes(PacketModel::Payload(b));
    }
}

/// Recording a datagram that went out to `o.addr` with a time sets that time as the
/// last send of the connection at that address, and of no other; its sequence number
/// moves on by one and nothing else of it changes. A datagram that did not go out, or
/// carries no time, changes nothing.
pub proof fn lemma_record_targets(v: ServerView, o: OutgoingView, went_out: bool)
    requires
        v.wf(),
    ensures
        ({
            let w = record_model(v, o, went_out);
            &&& w.connections.len() == v.connections.len()
            &&& w.queue == v.queue
            &&& w.jobs == v.jobs
            &&& w.next_id == v.next_id
            &&& forall|k: int|
                0 <= k < v.connections.len() && v.connections[k].addr != o.addr
                    ==> #[trigger] w.connections[k] == v.connections[k]
            &&& forall|k: int|
                0 <= k < v.connections.len() && v.connections[k].addr == o.addr ==> if went_out
                    && o.record_at is Some {
                    &&& #[trigger] w.connections[k].last_sent == o.record_at->Some_0
                    &&& w.connections[k].sequence == crate::connection::next_sequence(
                        v.connections[k].sequence,
                    )
                    &&& w.connections[k].last_received == v.connections[k].last_received
                    &&& w.connections[k].addr == v.connections[k].addr
                    &&& w.connections[k].client_id == v.connections[k].client_id
                    &&& w.connections[k].protocol_id == v.connections[k].protocol_id
                } else {
                    w.connections[k] == v.connections[k]
                }
        }),
{
    if went_out && o.record_at is Some && v.has_addr(o.addr) {
        let i = v.index_of_addr(o.addr);
        lemma_index_of_addr(v, i);
        assert forall|k: int| 0 <= k < v.connections.len() && v.connections[k].addr == o.addr implies k == i by {
            if k != i {
                assert(v.connections[k].addr != v.connections[i].addr);
            }
        }
    } else if went_out && o.record_at is Some {
        assert forall|k: int|
            0 <= k < v.connections.len() && v.connections[k].addr == o.addr implies false by {
            assert(v.has_addr(o.addr));
        }
    }
}

/// A datagram that a client builds for the server, under this protocol, is one the
/// server takes from a connected client, whatever stale bytes follow it: a connect, a
/// keepalive, a payload that fits one datagram, or a disconnect. From a new address a
/// connect is taken while ids are left.
pub proof fn lemma_client_datagrams_accepted(
    v: ServerView,
    m: PacketModel,
    rest: Seq<u8>,
    addr: Address,
)
    requires
        v.wf(),
        m is Connect || m is KeepAlive || m is Disconnect || (m is Payload && m->Payload_0.len()
            <= 255),
        v.has_addr(addr) || (m is Connect && v.next_id < 255),
    ensures
        datagram_ok(v, wire(PROTOCOL_ID, m) + rest, addr),
        decoded(wire(PROTOCOL_ID, m) + rest, PROTOCOL_ID) == Decoded::Packet(m),
{
    lemma_decode_wire(PROTOCOL_ID, m, rest);
}

} // verus!
