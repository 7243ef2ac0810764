//! The UDP server's bookkeeping: which clients are connected, the packet
//! table each last sent, the server's own table, and the queue of sends
//! waiting to go out.
//!
//! Receiving and sending datagrams is left to the caller: `Server::update`
//! takes one received datagram and returns the datagrams to send.

use std::collections::VecDeque;
use vstd::prelude::*;
use crate::addr::PeerAddr;
use crate::packet::{
    copy_bytes, data_len, decode_packets, law_data_len_adds, law_wire_roundtrip, Packet, Packets,
};
use crate::table::{
    index_of, keys, keys_unique, lemma_index_of, lemma_index_of_is, lemma_index_of_none,
    law_upsert_keeps_keys_unique, law_upsert_keys, law_upsert_lookup, lookup, upsert,
};
use crate::wire::{is_table_wire, table_wire, wire_ok, WireEntry};

verus! {

/// What the server keeps about a connected client (nothing so far).
#[derive(Clone, Copy, Debug)]
pub struct ClientState {}

impl Default for ClientState {
    fn default() -> (res: Self)
        ensures
            res == (ClientState {}),
    {
        ClientState {}
    }
}

/// Settings for one round of the server loop.
#[derive(Clone, Copy, Debug)]
pub struct ServerUpdateInfo {
    /// Least time a round takes, in milliseconds.
    pub tick_time_ms: u64,
    /// How many queued commands a round works through.
    pub queue_task_amm: u64,
    /// How many datagrams a round tries to receive.
    pub concurrent_capacity: u64,
    pub enable_auth: bool,
    /// Longest the queue may stay; beyond it the oldest command is dropped.
    pub max_queue_len: usize,
    /// Number of worker threads that send datagrams.
    pub pool_thd_count: usize,
}

impl Default for ServerUpdateInfo {
    fn default() -> (res: Self)
        ensures
            res.tick_time_ms == 0,
            res.queue_task_amm == 0,
            res.concurrent_capacity == 0,
            !res.enable_auth,
            res.max_queue_len == 0,
            res.pool_thd_count == 0,
    {
        ServerUpdateInfo {
            tick_time_ms: 0,
            queue_task_amm: 0,
            concurrent_capacity: 0,
            enable_auth: false,
            max_queue_len: 0,
            pool_thd_count: 0,
        }
    }
}

/// A send waiting in the server's queue.
#[derive(Debug)]
pub enum ServerCommand {
    /// Store the packet in the server's table under the name, then send the
    /// table to the address.
    Send(PeerAddr, String, Packet),
    /// Store the packet in the server's table under the name, then send the
    /// table to every client that has a table on the server.
    SendAll(String, Packet),
}

/// A queued send, as plain values.
pub enum CommandView {
    Send(PeerAddr, Seq<char>, Seq<u8>),
    SendAll(Seq<char>, Seq<u8>),
}

impl View for ServerCommand {
    type V = CommandView;

    open spec fn view(&self) -> CommandView {
        match self {
            ServerCommand::Send(a, n, p) => CommandView::Send(*a, n@, p@),
            ServerCommand::SendAll(n, p) => CommandView::SendAll(n@, p@),
        }
    }
}

/// A datagram to send: where to, and its bytes.
#[derive(Debug)]
pub struct Datagram {
    pub to: PeerAddr,
    pub bytes: Vec<u8>,
}

impl View for Datagram {
    type V = (PeerAddr, Seq<u8>);

    open spec fn view(&self) -> (PeerAddr, Seq<u8>) {
        (self.to, self.bytes@)
    }
}

pub open spec fn datagrams_view(v: Seq<Datagram>) -> Seq<(PeerAddr, Seq<u8>)> {
    v.map_values(|d: Datagram| d@)
}

pub open spec fn tables_view(v: Seq<(PeerAddr, Packets)>) -> Seq<(PeerAddr, Seq<WireEntry>)> {
    v.map_values(|p: (PeerAddr, Packets)| (p.0, p.1@))
}

pub open spec fn queue_view(q: Seq<ServerCommand>) -> Seq<CommandView> {
    q.map_values(|c: ServerCommand| c@)
}

/// Total length of the data in all client tables.
pub open spec fn tables_data_len(t: Seq<(PeerAddr, Seq<WireEntry>)>) -> nat
    decreases t.len(),
{
    if t.len() == 0 {
        0
    } else {
        tables_data_len(t.drop_last()) + data_len(t.last().1)
    }
}

/// The server's state as plain values.
pub struct ServerView {
    pub addr: PeerAddr,
    /// Connected clients, in the order they connected.
    pub clients: Seq<(PeerAddr, ClientState)>,
    /// The last table received from each client.
    pub tables: Seq<(PeerAddr, Seq<WireEntry>)>,
    /// The server's own table.
    pub packets: Seq<WireEntry>,
    /// Queued sends, oldest first.
    pub queue: Seq<CommandView>,
    /// Number of connections handled.
    pub count: nat,
}

/// No address is registered twice as a client, and none has two tables.
pub open spec fn addresses_unique(v: ServerView) -> bool {
    keys_unique(v.clients) && keys_unique(v.tables)
}

/// `a` is a connected client.
pub open spec fn is_client(v: ServerView, a: PeerAddr) -> bool {
    index_of(v.clients, a) >= 0
}

/// The state after a client at `a` connects: it is registered with an empty table.
pub open spec fn connect(v: ServerView, a: PeerAddr) -> ServerView {
    ServerView {
        addr: v.addr,
        clients: upsert(v.clients, a, ClientState {}),
        tables: upsert(v.tables, a, Seq::empty()),
        packets: v.packets,
        queue: v.queue,
        count: v.count + 1,
    }
}

/// The client tables after `a` sent `buf`: its table becomes the one `buf`
/// holds; nothing changes when `buf` holds none.
pub open spec fn store(
    tables: Seq<(PeerAddr, Seq<WireEntry>)>,
    a: PeerAddr,
    buf: Seq<u8>,
) -> Seq<(PeerAddr, Seq<WireEntry>)> {
    match decode_packets(buf) {
        Some(t) => upsert(tables, a, t),
        None => tables,
    }
}

/// The queue, the server's table and the datagrams produced so far while
/// working through the queue.
pub struct QueueRun {
    pub queue: Seq<CommandView>,
    pub packets: Seq<WireEntry>,
    pub out: Seq<(PeerAddr, Seq<u8>)>,
}

/// Carrying out one command: the server's table after it, and the datagrams it sends.
pub open spec fn command_effect(
    cmd: CommandView,
    packets: Seq<WireEntry>,
    recipients: Seq<PeerAddr>,
) -> (Seq<WireEntry>, Seq<(PeerAddr, Seq<u8>)>) {
    match cmd {
        CommandView::Send(a, n, d) => {
            let p = upsert(packets, n, d);
            (p, seq![(a, table_wire(p))])
        },
        CommandView::SendAll(n, d) => {
            if recipients.len() == 0 {
                (packets, Seq::empty())
            } else {
                let p = upsert(packets, n, d);
                (p, recipients.map_values(|a: PeerAddr| (a, table_wire(p))))
            }
        },
    }
}

/// One turn of the queue: carry out the oldest command, then, if more than
/// `max` commands still wait, drop the oldest of them. An empty queue stays as it is.
pub open spec fn queue_step(r: QueueRun, recipients: Seq<PeerAddr>, max: nat) -> QueueRun {
    if r.queue.len() == 0 {
        r
    } else {
        let (p, o) = command_effect(r.queue[0], r.packets, recipients);
        let q = r.queue.drop_first();
        QueueRun {
            queue: if q.len() > max {
                q.drop_first()
            } else {
                q
            },
            packets: p,
            out: r.out + o,
        }
    }
}

/// `n` turns of the queue.
pub open spec fn run_queue(r: QueueRun, recipients: Seq<PeerAddr>, max: nat, n: nat) -> QueueRun
    decreases n,
{
    if n == 0 {
        r
    } else {
        queue_step(run_queue(r, recipients, max, (n - 1) as nat), recipients, max)
    }
}

/// What `n` turns do to a queue that holds `len` commands: for each command
/// taken off its front, in order, whether it was carried out (`true`) or
/// dropped (`false`).
pub open spec fn queue_fate(len: nat, max: nat, n: nat) -> Seq<bool>
    decreases n,
{
    if n == 0 {
        Seq::empty()
    } else {
        let m = queue_fate(len, max, (n - 1) as nat);
        let waiting = len - m.len();
        if waiting <= 0 {
            m
        } else if waiting - 1 > max {
            m + seq![true, false]
        } else {
            m.push(true)
        }
    }
}

/// The items of `s` at the positions where `marks` holds `want`, in order.
pub open spec fn select<A>(s: Seq<A>, marks: Seq<bool>, want: bool) -> Seq<A>
    decreases marks.len(),
{
    if marks.len() == 0 {
        Seq::empty()
    } else {
        let prev = select(s, marks.drop_last(), want);
        if marks.last() == want {
            prev.push(s[marks.len() - 1])
        } else {
            prev
        }
    }
}

/// Carrying out commands one after the other: the server's table after them
/// and the datagrams they send, in order.
pub open spec fn apply_commands(
    cmds: Seq<CommandView>,
    packets: Seq<WireEntry>,
    recipients: Seq<PeerAddr>,
) -> (Seq<WireEntry>, Seq<(PeerAddr, Seq<u8>)>)
    decreases cmds.len(),
{
    if cmds.len() == 0 {
        (packets, Seq::empty())
    } else {
        let (p, o) = apply_commands(cmds.drop_last(), packets, recipients);
        let (p2, o2) = command_effect(cmds.last(), p, recipients);
        (p2, o + o2)
    }
}

/// The state after `n` turns of the queue, and the datagrams sent; the
/// recipients of a send to all are the clients that have a table.
pub open spec fn drain(v: ServerView, max: nat, n: nat) -> (ServerView, Seq<(PeerAddr, Seq<u8>)>) {
    let r = run_queue(
        QueueRun { queue: v.queue, packets: v.packets, out: Seq::empty() },
        keys(v.tables),
        max,
        n,
    );
    (
        ServerView {
            addr: v.addr,
            clients: v.clients,
            tables: v.tables,
            packets: r.packets,
            queue: r.queue,
            count: v.count,
        },
        r.out,
    )
}

/// Receiving `buf` from `from`: a connected client's table is replaced by the
/// one `buf` holds, an unknown sender is connected; then the queue is worked
/// through.
pub open spec fn receive(v: ServerView, from: PeerAddr, buf: Seq<u8>, max: nat, n: nat) -> (
    ServerView,
    Seq<(PeerAddr, Seq<u8>)>,
) {
    let v1 = if is_client(v, from) {
        ServerView {
            addr: v.addr,
            clients: v.clients,
            tables: store(v.tables, from, buf),
            packets: v.packets,
            queue: v.queue,
            count: v.count,
        }
    } else {
        connect(v, from)
    };
    drain(v1, max, n)
}

/// Position of `a` among the client table's addresses.
fn position_in_tables(v: &Vec<(PeerAddr, Packets)>, a: PeerAddr) -> (res: Option<usize>)
    ensures
        match res {
            Some(i) => index_of(tables_view(v@), a) == i,
            None => index_of(tables_view(v@), a) == -1,
        },
{
    let n = v.len();
    let mut i: usize = 0;
    while i < n
        invariant
            n == v@.len(),
            i <= n,
            forall|j: int| 0 <= j < i ==> #[trigger] tables_view(v@)[j].0 != a,
        decreases n - i,
    {
        if v[i].0 == a {
            proof {
                lemma_index_of_is(tables_view(v@), a, i as int);
            }
            return Some(i);
        }
        i = i + 1;
    }
    proof {
        lemma_index_of_none(tables_view(v@), a);
    }
    None
}

/// Position of `a` among the connected clients.
fn position_in_clients(v: &Vec<(PeerAddr, ClientState)>, a: PeerAddr) -> (res: Option<usize>)
    ensures
        match res {
            Some(i) => index_of(v@, a) == i,
            None => index_of(v@, a) == -1,
        },
{
    let n = v.len();
    let mut i: usize = 0;
    while i < n
        invariant
            n == v@.len(),
            i <= n,
            forall|j: int| 0 <= j < i ==> #[trigger] v@[j].0 != a,
        decreases n - i,
    {
        if v[i].0 == a {
            proof {
                lemma_index_of_is(v@, a, i as int);
            }
            return Some(i);
        }
        i = i + 1;
    }
    proof {
        lemma_index_of_none(v@, a);
    }
    None
}

/// Sets the table of client `a`.
fn set_client_table(v: &mut Vec<(PeerAddr, Packets)>, a: PeerAddr, t: Packets)
    ensures
        tables_view(final(v)@) == upsert(tables_view(old(v)@), a, t@),
{
    proof {
        lemma_index_of(tables_view(v@), a);
    }
    let ghost tv = t@;
    match position_in_tables(v, a) {
        Some(i) => {
            v.set(i, (a, t));
        },
        None => {
            v.push((a, t));
        },
    }
    assert(tables_view(v@) =~= upsert(tables_view(old(v)@), a, tv));
}

/// Registers client `a`.
fn set_client_state(v: &mut Vec<(PeerAddr, ClientState)>, a: PeerAddr)
    ensures
        final(v)@ == upsert(old(v)@, a, ClientState {}),
{
    proof {
        lemma_index_of(v@, a);
    }
    match position_in_clients(v, a) {
        Some(i) => {
            v.set(i, (a, ClientState {}));
        },
        None => {
            v.push((a, ClientState {}));
        },
    }
    assert(v@ =~= upsert(old(v)@, a, ClientState {}));
}

impl ServerCommand {
    /// Stores `packet` under `name` in the server's table and returns the
    /// datagram that sends the whole table to `addr`.
    pub fn send(server_packets: &mut Packets, addr: PeerAddr, name: String, packet: Packet) -> (d:
        Datagram)
        ensures
            final(server_packets)@ == upsert(old(server_packets)@, name@, packet@),
            d@ == (addr, table_wire(final(server_packets)@)),
            forall|suffix: Seq<u8>| #[trigger]
                decode_packets(d.bytes@ + suffix) == Some(final(server_packets)@),
    {
        server_packets.insert(name, packet);
        let bytes = server_packets.serialize();
        Datagram { to: addr, bytes }
    }

    /// When some client has a table, stores `packet` under `name` in the
    /// server's table and returns one datagram per such client, each carrying
    /// the whole table; with no such client, does nothing.
    pub fn send_all(
        clients: &Vec<(PeerAddr, Packets)>,
        server_packets: &mut Packets,
        name: String,
        packet: Packet,
    ) -> (out: Vec<Datagram>)
        ensures
            (final(server_packets)@, datagrams_view(out@)) == command_effect(
                CommandView::SendAll(name@, packet@),
                old(server_packets)@,
                keys(tables_view(clients@)),
            ),
            forall|i: int, suffix: Seq<u8>|
                0 <= i < out@.len() ==> #[trigger] decode_packets(out@[i].bytes@ + suffix) == Some(
                    final(server_packets)@,
                ),
    {
        let ghost recipients = keys(tables_view(clients@));
        let n = clients.len();
        if n == 0 {
            let out: Vec<Datagram> = Vec::new();
            assert(datagrams_view(out@) =~= Seq::<(PeerAddr, Seq<u8>)>::empty());
            return out;
        }
        server_packets.insert(name, packet);
        let bytes = server_packets.serialize();
        let ghost p = server_packets@;
        let mut out: Vec<Datagram> = Vec::new();
        let mut i: usize = 0;
        while i < n
            invariant
                n == clients@.len(),
                i <= n,
                recipients == keys(tables_view(clients@)),
                bytes@ == table_wire(p),
                p == server_packets@,
                forall|suffix: Seq<u8>| #[trigger] decode_packets(bytes@ + suffix) == Some(p),
                datagrams_view(out@) =~= recipients.take(i as int).map_values(
                    |a: PeerAddr| (a, table_wire(p)),
                ),
                forall|j: int| 0 <= j < out@.len() ==> #[trigger] out@[j].bytes@ == bytes@,
            decreases n - i,
        {
            let ghost before = out@;
            let d = Datagram { to: clients[i].0, bytes: copy_bytes(&bytes) };
            out.push(d);
            assert(recipients[i as int] == clients@[i as int].0);
            assert(datagrams_view(out@) =~= datagrams_view(before).push((clients@[i as int].0, table_wire(p))));
            assert(recipients.take(i as int + 1) =~= recipients.take(i as int).push(
                clients@[i as int].0,
            ));
            i = i + 1;
        }
        assert(recipients.take(n as int) =~= recipients);
        out
    }
}

/// The server's state.
pub struct Server {
    addr: PeerAddr,
    clients: Vec<(PeerAddr, ClientState)>,
    client_packets: Vec<(PeerAddr, Packets)>,
    server_packets: Packets,
    queue: VecDeque<ServerCommand>,
    count: u32,
}

impl View for Server {
    type V = ServerView;

    closed spec fn view(&self) -> ServerView {
        ServerView {
            addr: self.addr,
            clients: self.clients@,
            tables: tables_view(self.client_packets@),
            packets: self.server_packets@,
            queue: queue_view(self.queue@),
            count: self.count as nat,
        }
    }
}

impl Server {
    /// No client is registered twice, and no client has two tables.
    #[verifier::type_invariant]
    spec fn keys_are_unique(&self) -> bool {
        keys_unique(self.clients@) && keys_unique(tables_view(self.client_packets@))
    }

    /// A server at `addr` with no clients, empty tables and an empty queue.
    pub fn new(addr: PeerAddr) -> (res: Self)
        ensures
            res@ == (ServerView {
                addr,
                clients: Seq::empty(),
                tables: Seq::empty(),
                packets: Seq::empty(),
                queue: Seq::empty(),
                count: 0,
            }),
    {
        let res = Server {
            addr,
            clients: Vec::new(),
            client_packets: Vec::new(),
            server_packets: Packets::new(),
            queue: VecDeque::new(),
            count: 0,
        };
        assert(res@.tables =~= Seq::<(PeerAddr, Seq<WireEntry>)>::empty());
        assert(res@.queue =~= Seq::<CommandView>::empty());
        res
    }

    /// The server's own address.
    pub fn addr(&self) -> (res: PeerAddr)
        ensures
            res == self@.addr,
    {
        self.addr
    }

    /// The connected clients.
    pub fn clients(&self) -> (res: &Vec<(PeerAddr, ClientState)>)
        ensures
            res@ == self@.clients,
            addresses_unique(self@),
    {
        proof {
            use_type_invariant(self);
        }
        &self.clients
    }

    /// The table last received from each client.
    pub fn client_packets(&self) -> (res: &Vec<(PeerAddr, Packets)>)
        ensures
            tables_view(res@) == self@.tables,
            addresses_unique(self@),
    {
        proof {
            use_type_invariant(self);
        }
        &self.client_packets
    }

    /// The server's own table.
    pub fn server_packets(&self) -> (res: &Packets)
        ensures
            res@ == self@.packets,
    {
        &self.server_packets
    }

    /// The queued sends, oldest first.
    pub fn queue(&self) -> (res: &VecDeque<ServerCommand>)
        ensures
            queue_view(res@) == self@.queue,
    {
        &self.queue
    }

    /// Number of connections handled.
    pub fn connection_count(&self) -> (res: u32)
        ensures
            res == self@.count,
    {
        self.count
    }

    /// Stores the table that `buf`, received from `addr`, holds as `addr`'s
    /// table. `buf` must hold a table.
    pub fn handle_client(client_packets: &mut Vec<(PeerAddr, Packets)>, addr: PeerAddr, buf: &[u8])
        requires
            is_table_wire(buf@),
        ensures
            tables_view(final(client_packets)@) == upsert(
                tables_view(old(client_packets)@),
                addr,
                decode_packets(buf@)->0,
            ),
    {
        Self::try_handle_client(client_packets, addr, buf);
    }

    /// Like `handle_client`, for any bytes: stores the table that `buf` holds
    /// as `addr`'s table and returns `true`; when `buf` holds no table, changes
    /// nothing and returns `false`.
    pub fn try_handle_client(client_packets: &mut Vec<(PeerAddr, Packets)>, addr: PeerAddr, buf: &[u8]) -> (stored: bool)
        ensures
            stored == decode_packets(buf@) is Some,
            tables_view(final(client_packets)@) == store(tables_view(old(client_packets)@), addr, buf@),
    {
        match Packets::try_deserialize(buf) {
            Some(table) => {
                set_client_table(client_packets, addr, table);
                true
            },
            None => false,
        }
    }

    /// Queues a send of `packet`, under `packet_name`, to `addr`.
    pub fn send_packet(&mut self, addr: PeerAddr, packet_name: &str, packet: Packet)
        ensures
            final(self)@ == (ServerView {
                queue: old(self)@.queue.push(CommandView::Send(addr, packet_name@, packet@)),
                ..old(self)@
            }),
    {
        proof {
            use_type_invariant(&*self);
        }
        let name = packet_name.to_owned();
        let mut queue: VecDeque<ServerCommand> = VecDeque::new();
        std::mem::swap(&mut queue, &mut self.queue);
        let ghost q = queue@;
        queue.push_back(ServerCommand::Send(addr, name, packet));
        assert(queue_view(queue@) =~= queue_view(q).push(CommandView::Send(addr, packet_name@, packet@)));
        self.queue = queue;
    }

    /// Queues a send of `packet`, under `packet_name`, to every client.
    pub fn send_packets_to_all_connected(&mut self, packet_name: &str, packet: Packet)
        ensures
            final(self)@ == (ServerView {
                queue: old(self)@.queue.push(CommandView::SendAll(packet_name@, packet@)),
                ..old(self)@
            }),
    {
        proof {
            use_type_invariant(&*self);
        }
        let name = packet_name.to_owned();
        let mut queue: VecDeque<ServerCommand> = VecDeque::new();
        std::mem::swap(&mut queue, &mut self.queue);
        let ghost q = queue@;
        queue.push_back(ServerCommand::SendAll(name, packet));
        assert(queue_view(queue@) =~= queue_view(q).push(CommandView::SendAll(packet_name@, packet@)));
        self.queue = queue;
    }

    /// Registers a client at `addr` with an empty table.
    pub fn handle_connection(&mut self, addr: PeerAddr)
        requires
            old(self)@.count < u32::MAX,
        ensures
            final(self)@ == connect(old(self)@, addr),
            addresses_unique(final(self)@),
    {
        proof {
            use_type_invariant(&*self);
            law_upsert_keeps_keys_unique(self.clients@, addr, ClientState {});
            law_upsert_keeps_keys_unique(
                tables_view(self.client_packets@),
                addr,
                Seq::<WireEntry>::empty(),
            );
        }
        let mut clients: Vec<(PeerAddr, ClientState)> = Vec::new();
        std::mem::swap(&mut clients, &mut self.clients);
        set_client_state(&mut clients, addr);
        self.clients = clients;
        let mut tables: Vec<(PeerAddr, Packets)> = Vec::new();
        std::mem::swap(&mut tables, &mut self.client_packets);
        set_client_table(&mut tables, addr, Packets::new());
        self.client_packets = tables;
        self.count = self.count + 1;
    }

    /// Forgets nothing yet: the state is left as it is.
    pub fn handle_disconnection(&mut self, addr: PeerAddr)
        ensures
            final(self)@ == old(self)@,
    {
    }

    /// Works through the queue for `info.queue_task_amm` turns (see
    /// `queue_step`) and returns the datagrams to send, in order.
    pub fn handle_queue(&mut self, info: &ServerUpdateInfo) -> (out: Vec<Datagram>)
        ensures
            (final(self)@, datagrams_view(out@)) == drain(
                old(self)@,
                info.max_queue_len as nat,
                info.queue_task_amm as nat,
            ),
            addresses_unique(final(self)@),
    {
        let ghost start = QueueRun {
            queue: old(self)@.queue,
            packets: old(self)@.packets,
            out: Seq::empty(),
        };
        let ghost recipients = keys(old(self)@.tables);
        let ghost max = info.max_queue_len as nat;
        proof {
            use_type_invariant(&*self);
        }
        let mut queue: VecDeque<ServerCommand> = VecDeque::new();
        std::mem::swap(&mut queue, &mut self.queue);
        let mut server_packets = Packets::new();
        std::mem::swap(&mut server_packets, &mut self.server_packets);
        let mut out: Vec<Datagram> = Vec::new();
        let mut i: u64 = 0;
        assert(datagrams_view(out@) =~= Seq::<(PeerAddr, Seq<u8>)>::empty());
        while i < info.queue_task_amm
            invariant
                i <= info.queue_task_amm,
                recipients == keys(tables_view(self.client_packets@)),
                max == info.max_queue_len as nat,
                self.addr == old(self).addr,
                self.clients@ == old(self).clients@,
                self.client_packets@ == old(self).client_packets@,
                self.count == old(self).count,
                run_queue(start, recipients, max, i as nat) == (QueueRun {
                    queue: queue_view(queue@),
                    packets: server_packets@,
                    out: datagrams_view(out@),
                }),
            decreases info.queue_task_amm - i,
        {
            let ghost r = QueueRun {
                queue: queue_view(queue@),
                packets: server_packets@,
                out: datagrams_view(out@),
            };
            match queue.pop_front() {
                Some(command) => {
                    assert(command@ == r.queue[0]);
                    let ghost o = command_effect(command@, r.packets, recipients);
                    match command {
                        ServerCommand::Send(addr, name, packet) => {
                            let d = ServerCommand::send(&mut server_packets, addr, name, packet);
                            let ghost before = out@;
                            out.push(d);
                            assert(datagrams_view(out@) =~= datagrams_view(before) + o.1);
                        },
                        ServerCommand::SendAll(name, packet) => {
                            let mut sent = ServerCommand::send_all(
                                &self.client_packets,
                                &mut server_packets,
                                name,
                                packet,
                            );
                            let ghost before = out@;
                            let ghost sv = sent@;
                            out.append(&mut sent);
                            assert(datagrams_view(out@) =~= datagrams_view(before)
                                + datagrams_view(sv));
                        },
                    }
                    assert(queue_view(queue@) =~= r.queue.drop_first());
                    let ghost q1 = queue@;
                    if queue.len() > info.max_queue_len {
                        queue.pop_front();
                        assert(queue_view(queue@) =~= queue_view(q1).drop_first());
                    }
                },
                None => {
                    assert(r.queue.len() == 0);
                },
            }
            assert(queue_step(r, recipients, max) == (QueueRun {
                queue: queue_view(queue@),
                packets: server_packets@,
                out: datagrams_view(out@),
            }));
            i = i + 1;
        }
        self.queue = queue;
        self.server_packets = server_packets;
        out
    }

    /// Takes one datagram `datagram` received from `from`: stores the table it
    /// holds if `from` is a connected client (bytes that hold no table are
    /// dropped, as the worker that stores them gives up on them), connects
    /// `from` otherwise, then works through the queue. Returns the datagrams
    /// to send.
    pub fn update(&mut self, info: &ServerUpdateInfo, from: PeerAddr, datagram: &[u8]) -> (out:
        Vec<Datagram>)
        requires
            is_client(old(self)@, from) || old(self)@.count < u32::MAX,
        ensures
            (final(self)@, datagrams_view(out@)) == receive(
                old(self)@,
                from,
                datagram@,
                info.max_queue_len as nat,
                info.queue_task_amm as nat,
            ),
            addresses_unique(final(self)@),
    {
        proof {
            lemma_index_of(self.clients@, from);
        }
        match position_in_clients(&self.clients, from) {
            Some(_) => {
                proof {
                    use_type_invariant(&*self);
                    lemma_store_keeps_keys_unique(tables_view(self.client_packets@), from, datagram@);
                }
                let mut tables: Vec<(PeerAddr, Packets)> = Vec::new();
                std::mem::swap(&mut tables, &mut self.client_packets);
                Self::try_handle_client(&mut tables, from, datagram);
                self.client_packets = tables;
            },
            None => {
                self.handle_connection(from);
            },
        }
        self.handle_queue(info)
    }

    /// Disconnects every client and drops their tables.
    pub fn remove_all_clients(&mut self)
        ensures
            final(self)@ == (ServerView {
                clients: Seq::empty(),
                tables: Seq::empty(),
                ..old(self)@
            }),
    {
        proof {
            use_type_invariant(&*self);
        }
        let tables: Vec<(PeerAddr, Packets)> = Vec::new();
        assert(tables_view(tables@) =~= Seq::<(PeerAddr, Seq<WireEntry>)>::empty());
        self.client_packets = tables;
        self.clients = Vec::new();
        assert(tables_view(self.client_packets@) =~= Seq::<(PeerAddr, Seq<WireEntry>)>::empty());
    }

    /// Total length of the data in all client tables, or `None` when it exceeds `usize::MAX`.
    pub fn incoming_data_usage(&self) -> (res: Option<usize>)
        ensures
            match res {
                Some(t) => t == tables_data_len(self@.tables),
                None => tables_data_len(self@.tables) > usize::MAX,
            },
    {
        let ghost t = self@.tables;
        let n = self.client_packets.len();
        let mut total: usize = 0;
        let mut i: usize = 0;
        while i < n
            invariant
                n == self.client_packets@.len(),
                t == tables_view(self.client_packets@),
                i <= n,
                total == tables_data_len(t.take(i as int)),
            decreases n - i,
        {
            assert(t.take(i as int + 1).drop_last() =~= t.take(i as int));
            match self.client_packets[i].1.total_data_len(total) {
                Some(next) => {
                    total = next;
                },
                None => {
                    proof {
                        lemma_tables_data_len_prefix(t, i as int + 1);
                    }
                    return None;
                },
            }
            i = i + 1;
        }
        assert(t.take(n as int) =~= t);
        Some(total)
    }
}

/// Storing what a client sent keeps client addresses unique.
proof fn lemma_store_keeps_keys_unique(
    tables: Seq<(PeerAddr, Seq<WireEntry>)>,
    a: PeerAddr,
    buf: Seq<u8>,
)
    requires
        keys_unique(tables),
    ensures
        keys_unique(store(tables, a, buf)),
{
    if let Some(t) = decode_packets(buf) {
        law_upsert_keeps_keys_unique(tables, a, t);
    }
}

proof fn lemma_tables_data_len_prefix(t: Seq<(PeerAddr, Seq<WireEntry>)>, i: int)
    requires
        0 <= i <= t.len(),
    ensures
        tables_data_len(t.take(i)) <= tables_data_len(t),
    decreases t.len() - i,
{
    if i < t.len() {
        lemma_tables_data_len_prefix(t, i + 1);
        assert(t.take(i + 1).drop_last() =~= t.take(i));
    } else {
        assert(t.take(i) =~= t);
    }
}

/// A table sent as its wire form (received into a buffer that may hold more
/// bytes after it) becomes the sender's table on the server, whatever the
/// server held before.
pub proof fn law_delivery(
    tables: Seq<(PeerAddr, Seq<WireEntry>)>,
    a: PeerAddr,
    t: Seq<WireEntry>,
    suffix: Seq<u8>,
)
    requires
        keys_unique(t),
        wire_ok(t),
    ensures
        store(tables, a, table_wire(t) + suffix) == upsert(tables, a, t),
        lookup(store(tables, a, table_wire(t) + suffix), a) == Some(t),
{
    law_wire_roundtrip(t, suffix);
    law_upsert_lookup(tables, a, t, a);
}

/// A sender that connects is a client afterwards, with an empty table, and
/// the connection count goes up by one. Every other client keeps its
/// registration and its table, and the server's address, own table and queue
/// stay as they were.
pub proof fn law_connect_registers(v: ServerView, a: PeerAddr)
    ensures
        is_client(connect(v, a), a),
        lookup(connect(v, a).tables, a) == Some(Seq::<WireEntry>::empty()),
        connect(v, a).count == v.count + 1,
        forall|b: PeerAddr|
            b != a ==> #[trigger] lookup(connect(v, a).tables, b) == lookup(v.tables, b)
                && lookup(connect(v, a).clients, b) == lookup(v.clients, b),
        connect(v, a).addr == v.addr,
        connect(v, a).packets == v.packets,
        connect(v, a).queue == v.queue,
{
    law_upsert_lookup(v.clients, a, ClientState {}, a);
    law_upsert_lookup(v.tables, a, Seq::<WireEntry>::empty(), a);
    assert forall|b: PeerAddr| b != a implies #[trigger] lookup(connect(v, a).tables, b)
        == lookup(v.tables, b) && lookup(connect(v, a).clients, b) == lookup(v.clients, b) by {
        law_upsert_lookup(v.clients, a, ClientState {}, b);
        law_upsert_lookup(v.tables, a, Seq::<WireEntry>::empty(), b);
    }
}

/// While at most `max + 1` commands wait, none is dropped: `n` turns carry out
/// the oldest `n` commands (or all of them), first in first out.
pub proof fn law_queue_fifo(r: QueueRun, recipients: Seq<PeerAddr>, max: nat, n: nat)
    requires
        r.queue.len() <= max + 1,
    ensures
        run_queue(r, recipients, max, n).queue == r.queue.skip(
            if n < r.queue.len() {
                n as int
            } else {
                r.queue.len() as int
            },
        ),
    decreases n,
{
    if n == 0 {
        assert(r.queue.skip(0) =~= r.queue);
    } else {
        law_queue_fifo(r, recipients, max, (n - 1) as nat);
        let prev = run_queue(r, recipients, max, (n - 1) as nat);
        if n - 1 < r.queue.len() {
            assert(prev.queue.drop_first() =~= r.queue.skip(n as int));
        }
    }
}

/// `n` turns of a queue of `L` commands take `k` commands off its front, where
/// `min(n, L) <= k <= min(2n, L)`, and leave the rest, in order. Of the `k`,
/// those that `queue_fate` marks are carried out, in queue order, and are all
/// that changes the server's table and all that sends datagrams; the others are
/// dropped unsent. At most `min(n, L)` commands are carried out; nothing is
/// added, repeated or reordered.
pub proof fn law_queue_turns(r: QueueRun, recipients: Seq<PeerAddr>, max: nat, n: nat)
    ensures
        ({
            let len = r.queue.len();
            let m = queue_fate(len, max, n);
            let k = m.len();
            let run = run_queue(r, recipients, max, n);
            let sent = select(r.queue, m, true);
            let dropped = select(r.queue, m, false);
            &&& k <= len
            &&& k <= 2 * n
            &&& (k >= n || k == len)
            &&& run.queue == r.queue.skip(k as int)
            &&& len - 2 * n <= run.queue.len()
            &&& run.queue.len() <= (if len >= n {
                len - n
            } else {
                0
            })
            &&& sent.len() <= n
            &&& sent.len() <= len
            &&& sent.len() + dropped.len() == k
            &&& run.packets == apply_commands(sent, r.packets, recipients).0
            &&& run.out == r.out + apply_commands(sent, r.packets, recipients).1
        }),
    decreases n,
{
    let q = r.queue;
    let len = q.len();
    if n == 0 {
        assert(q.skip(0) =~= q);
        assert(r.out + Seq::<(PeerAddr, Seq<u8>)>::empty() =~= r.out);
    } else {
        law_queue_turns(r, recipients, max, (n - 1) as nat);
        let m0 = queue_fate(len, max, (n - 1) as nat);
        let k0 = m0.len() as int;
        let prev = run_queue(r, recipients, max, (n - 1) as nat);
        let sent0 = select(q, m0, true);
        let dropped0 = select(q, m0, false);
        let a0 = apply_commands(sent0, r.packets, recipients);
        if k0 < len {
            let c = q[k0 as int];
            assert(prev.queue[0] == c);
            let e = command_effect(c, prev.packets, recipients);
            let m1 = m0.push(true);
            assert(m1.drop_last() =~= m0);
            assert(select(q, m1, true) == sent0.push(c));
            assert(select(q, m1, false) == dropped0);
            let sent1 = sent0.push(c);
            assert(sent1.drop_last() =~= sent0);
            assert(apply_commands(sent1, r.packets, recipients) == (e.0, a0.1 + e.1));
            assert(prev.out + e.1 =~= r.out + (a0.1 + e.1));
            assert(prev.queue.drop_first() =~= q.skip(k0 + 1));
            if len - k0 - 1 > max {
                let m2 = m0 + seq![true, false];
                assert(m2.drop_last() =~= m1);
                assert(select(q, m2, true) == sent1);
                assert(select(q, m2, false) == dropped0.push(q[k0 + 1]));
                assert(q.skip(k0 + 1).drop_first() =~= q.skip(k0 + 2));
            }
        }
    }
}

/// A send to every client yields one datagram per client that has a table,
/// no address twice, when client addresses are unique (as the server keeps them).
pub proof fn law_send_all_once_per_client(
    tables: Seq<(PeerAddr, Seq<WireEntry>)>,
    packets: Seq<WireEntry>,
    name: Seq<char>,
    data: Seq<u8>,
)
    requires
        keys_unique(tables),
    ensures
        ({
            let out = command_effect(CommandView::SendAll(name, data), packets, keys(tables)).1;
            &&& out.len() == tables.len()
            &&& forall|i: int, j: int|
                0 <= i < j < out.len() ==> #[trigger] out[i].0 != #[trigger] out[j].0
        }),
{
    let out = command_effect(CommandView::SendAll(name, data), packets, keys(tables)).1;
    assert forall|i: int, j: int| 0 <= i < j < out.len() implies #[trigger] out[i].0
        != #[trigger] out[j].0 by {
        assert(out[i].0 == tables[i].0);
        assert(out[j].0 == tables[j].0);
    }
}

/// Incoming data usage counts every packet of every client: it adds up over
/// joined client lists, and one client counts the data of its whole table.
pub proof fn law_tables_data_len_adds(
    t1: Seq<(PeerAddr, Seq<WireEntry>)>,
    t2: Seq<(PeerAddr, Seq<WireEntry>)>,
    a: PeerAddr,
    table: Seq<WireEntry>,
)
    ensures
        tables_data_len(t1 + t2) == tables_data_len(t1) + tables_data_len(t2),
        tables_data_len(seq![(a, table)]) == data_len(table),
    decreases t2.len(),
{
    let one = seq![(a, table)];
    assert(one.drop_last() =~= Seq::<(PeerAddr, Seq<WireEntry>)>::empty());
    assert(tables_data_len(Seq::<(PeerAddr, Seq<WireEntry>)>::empty()) == 0);
    assert(one.last() == (a, table));
    if t2.len() == 0 {
        assert(t1 + t2 =~= t1);
    } else {
        law_tables_data_len_adds(t1, t2.drop_last(), a, table);
        assert((t1 + t2).drop_last() =~= t1 + t2.drop_last());
        assert((t1 + t2).last() == t2.last());
    }
}

/// What carrying out one command does to the server's table and what it
/// sends. The table afterwards holds the command's packet under its name and
/// every other entry as before, with the names in their old order (a new
/// name last). A send to one address yields one datagram to it carrying that
/// whole table. A send to all yields, when some client has a table, one
/// datagram per recipient, in order, each carrying that whole table; with no
/// recipient it changes and sends nothing.
pub proof fn law_command_effect(
    cmd: CommandView,
    packets: Seq<WireEntry>,
    recipients: Seq<PeerAddr>,
    key: Seq<char>,
)
    ensures
        ({
            let (p, out) = command_effect(cmd, packets, recipients);
            match cmd {
                CommandView::Send(a, n, d) => {
                    &&& lookup(p, key) == (if key == n {
                        Some(d)
                    } else {
                        lookup(packets, key)
                    })
                    &&& keys(p) == (if lookup(packets, n) is Some {
                        keys(packets)
                    } else {
                        keys(packets).push(n)
                    })
                    &&& out == seq![(a, table_wire(p))]
                },
                CommandView::SendAll(n, d) => {
                    if recipients.len() == 0 {
                        p == packets && out.len() == 0
                    } else {
                        &&& lookup(p, key) == (if key == n {
                            Some(d)
                        } else {
                            lookup(packets, key)
                        })
                        &&& keys(p) == (if lookup(packets, n) is Some {
                            keys(packets)
                        } else {
                            keys(packets).push(n)
                        })
                        &&& out.len() == recipients.len()
                        &&& forall|i: int|
                            0 <= i < out.len() ==> #[trigger] out[i] == (
                                recipients[i],
                                table_wire(p),
                            )
                    }
                },
            }
        }),
{
    match cmd {
        CommandView::Send(a, n, d) => {
            law_upsert_lookup(packets, n, d, key);
            law_upsert_keys(packets, n, d);
        },
        CommandView::SendAll(n, d) => {
            law_upsert_lookup(packets, n, d, key);
            law_upsert_keys(packets, n, d);
        },
    }
}

proof fn lemma_fate_extends(len: nat, max: nat, n: nat)
    ensures
        n >= 1 ==> queue_fate(len, max, (n - 1) as nat).is_prefix_of(queue_fate(len, max, n)),
{
    if n >= 1 {
        let m = queue_fate(len, max, (n - 1) as nat);
        let f = queue_fate(len, max, n);
        assert(m =~= f.subrange(0, m.len() as int));
    }
}

/// The first turn on a non-empty queue carries out its oldest command.
proof fn lemma_fate_first(len: nat, max: nat, n: nat)
    requires
        n >= 1,
        len > 0,
    ensures
        queue_fate(len, max, n).len() >= 1,
        queue_fate(len, max, n)[0],
    decreases n,
{
    let f = queue_fate(len, max, n);
    if n > 1 {
        lemma_fate_first(len, max, (n - 1) as nat);
        lemma_fate_extends(len, max, n);
        let m = queue_fate(len, max, (n - 1) as nat);
        assert(m[0] == f.subrange(0, m.len() as int)[0]);
    } else {
        assert(queue_fate(len, max, 0) =~= Seq::<bool>::empty());
        let m = queue_fate(len, max, 0);
        if len - 1 > max {
            assert(f == m + seq![true, false]);
            assert(f[0] == seq![true, false][0]);
        } else {
            assert(f == m.push(true));
        }
    }
}

proof fn lemma_select_prefix<A>(s: Seq<A>, marks: Seq<bool>, want: bool, j: int)
    requires
        0 <= j <= marks.len(),
    ensures
        select(s, marks.take(j), want).is_prefix_of(select(s, marks, want)),
    decreases marks.len(),
{
    if j == marks.len() {
        assert(marks.take(j) =~= marks);
    } else {
        assert(marks.drop_last().take(j) =~= marks.take(j));
        lemma_select_prefix(s, marks.drop_last(), want, j);
    }
}

proof fn lemma_apply_prefix(
    cmds: Seq<CommandView>,
    packets: Seq<WireEntry>,
    recipients: Seq<PeerAddr>,
    j: int,
)
    requires
        0 <= j <= cmds.len(),
    ensures
        apply_commands(cmds.take(j), packets, recipients).1.is_prefix_of(
            apply_commands(cmds, packets, recipients).1,
        ),
    decreases cmds.len(),
{
    if j == cmds.len() {
        assert(cmds.take(j) =~= cmds);
    } else {
        assert(cmds.drop_last().take(j) =~= cmds.take(j));
        lemma_apply_prefix(cmds.drop_last(), packets, recipients, j);
    }
}

/// Taking a datagram also works through the queue. After `update` with `n`
/// turns on a queue of `L` commands, what remains is the queue without its
/// first `k` commands, `k >= min(n, L)`; and when `n >= 1` and `L > 0` the
/// datagrams returned begin with those of the oldest command, carried out on
/// the server's table. The sender is a client afterwards: a new sender is
/// counted and has an empty table; a known client's table becomes the one the
/// bytes hold, or stays when they hold none.
pub proof fn law_update_works_queue(v: ServerView, from: PeerAddr, buf: Seq<u8>, max: nat, n: nat)
    ensures
        ({
            let (w, out) = receive(v, from, buf, max, n);
            let len = v.queue.len();
            let done: nat = if n < len {
                n
            } else {
                len
            };
            &&& w.addr == v.addr
            &&& is_client(w, from)
            &&& w.count == (if is_client(v, from) {
                v.count
            } else {
                v.count + 1
            })
            &&& lookup(w.tables, from) == (if !is_client(v, from) {
                Some(Seq::<WireEntry>::empty())
            } else {
                match decode_packets(buf) {
                    Some(t) => Some(t),
                    None => lookup(v.tables, from),
                }
            })
            &&& w.queue.len() + done <= len
            &&& w.queue == v.queue.skip(len - w.queue.len())
            &&& (n >= 1 && len > 0) ==> {
                let e = command_effect(v.queue[0], v.packets, keys(w.tables)).1;
                &&& e.len() <= out.len()
                &&& out.subrange(0, e.len() as int) == e
            }
        }),
{
    let v1 = if is_client(v, from) {
        ServerView {
            addr: v.addr,
            clients: v.clients,
            tables: store(v.tables, from, buf),
            packets: v.packets,
            queue: v.queue,
            count: v.count,
        }
    } else {
        connect(v, from)
    };
    if !is_client(v, from) {
        law_connect_registers(v, from);
    } else {
        if let Some(t) = decode_packets(buf) {
            law_upsert_lookup(v.tables, from, t, from);
        }
    }
    lemma_drain_first(v1, max, n);
}

/// `drain` keeps everything but the queue and the server's table, leaves a
/// suffix of the queue at least `min(n, L)` shorter, and, when it turns at
/// least once on a non-empty queue, sends first what the oldest command sends.
proof fn lemma_drain_first(v1: ServerView, max: nat, n: nat)
    ensures
        ({
            let (w, out) = drain(v1, max, n);
            let len = v1.queue.len();
            let done: nat = if n < len {
                n
            } else {
                len
            };
            &&& w.addr == v1.addr
            &&& w.clients == v1.clients
            &&& w.tables == v1.tables
            &&& w.count == v1.count
            &&& w.queue.len() + done <= len
            &&& w.queue == v1.queue.skip(len - w.queue.len())
            &&& (n >= 1 && len > 0) ==> {
                let e = command_effect(v1.queue[0], v1.packets, keys(v1.tables)).1;
                &&& e.len() <= out.len()
                &&& out.subrange(0, e.len() as int) == e
            }
        }),
{
    let rec = keys(v1.tables);
    let r = QueueRun { queue: v1.queue, packets: v1.packets, out: Seq::empty() };
    law_queue_turns(r, rec, max, n);
    let len = v1.queue.len();
    let m = queue_fate(len, max, n);
    let run = run_queue(r, rec, max, n);
    let sent = select(v1.queue, m, true);
    assert(run.out =~= apply_commands(sent, v1.packets, rec).1);
    if n >= 1 && len > 0 {
        lemma_drain_first_command(v1.queue, v1.packets, rec, max, n);
    }
}

proof fn lemma_drain_first_command(
    q: Seq<CommandView>,
    packets: Seq<WireEntry>,
    rec: Seq<PeerAddr>,
    max: nat,
    n: nat,
)
    requires
        n >= 1,
        q.len() > 0,
    ensures
        ({
            let sent = select(q, queue_fate(q.len(), max, n), true);
            let e = command_effect(q[0], packets, rec).1;
            &&& e.len() <= apply_commands(sent, packets, rec).1.len()
            &&& apply_commands(sent, packets, rec).1.subrange(0, e.len() as int) == e
        }),
{
    let m = queue_fate(q.len(), max, n);
    let sent = select(q, m, true);
    lemma_fate_first(q.len(), max, n);
    lemma_select_prefix(q, m, true, 1);
    let m1 = m.take(1);
    assert(m1.drop_last() =~= Seq::<bool>::empty());
    assert(m1.last() == m[0]);
    assert(select(q, Seq::<bool>::empty(), true) =~= Seq::<CommandView>::empty());
    assert(select(q, m1, true) =~= seq![q[0]]);
    assert(sent[0] == select(q, m1, true)[0]);
    lemma_apply_prefix(sent, packets, rec, 1);
    let s1 = sent.take(1);
    assert(s1.drop_last() =~= Seq::<CommandView>::empty());
    assert(s1.last() == q[0]);
    let e = command_effect(q[0], packets, rec).1;
    assert(apply_commands(Seq::<CommandView>::empty(), packets, rec).1 =~= Seq::<(PeerAddr, Seq<u8>)>::empty());
    assert(apply_commands(s1, packets, rec).1 =~= e);
}

} // verus!
