//! Routing for the multiplexer: connection identities, the table of live
//! connections, the choice of the connections that received data is
//! forwarded to, and the decisions of the connection loops.

use vstd::prelude::*;
use crate::channel::{broadcast_send, SendReceipt, SendRecord};
use crate::config::{Config, SocketAddress};
use crate::keyed::{
    has_key, inserted, keys_unique, law_insert_keeps_others, law_insert_then_lookup,
    law_remove_keeps_others, law_remove_removes, lemma_absent, lemma_first_exists,
    lemma_first_position, lemma_position_found, lookup, position_of, removed,
};
use crate::text::{decimal, decimal_string, hex_bytes, push_hex_byte, str_eq};

verus! {

/// The identity of a connection, as a value.
pub enum ConnKey {
    /// The connection of the client named by the argument.
    Client(Seq<char>),
    /// Connection number `.1` accepted by the server named `.0`.
    Server(Seq<char>, u32),
}

impl ConnKey {
    /// The name of the node that the connection belongs to.
    pub open spec fn base(self) -> Seq<char> {
        match self {
            ConnKey::Client(name) => name,
            ConnKey::Server(name, _) => name,
        }
    }
}

/// Connection identifier for routing.
#[derive(Clone, Debug)]
pub enum ConnectionId {
    /// Client connection (single connection per client).
    Client(String),
    /// Server connection (multiple connections per server).
    Server { name: String, connection_num: u32 },
}

impl View for ConnectionId {
    type V = ConnKey;

    open spec fn view(&self) -> ConnKey {
        match self {
            ConnectionId::Client(name) => ConnKey::Client(name@),
            ConnectionId::Server { name, connection_num } => ConnKey::Server(name@, *connection_num),
        }
    }
}

/// How a connection identifier is shown: the node's name, followed for a
/// server connection by `-` and the connection number.
pub open spec fn conn_text(k: ConnKey) -> Seq<char> {
    match k {
        ConnKey::Client(name) => name,
        ConnKey::Server(name, num) => name + "-"@ + decimal(num as nat),
    }
}

impl ConnectionId {
    /// Check if this connection belongs to the given target name.
    pub fn matches_target(&self, target_name: &str) -> (b: bool)
        ensures
            b == (self@.base() == target_name@),
    {
        match self {
            ConnectionId::Client(name) => str_eq(name.as_str(), target_name),
            ConnectionId::Server { name, .. } => str_eq(name.as_str(), target_name),
        }
    }

    /// Get the base name (without connection number).
    pub fn base_name(&self) -> (s: &str)
        ensures
            s@ == self@.base(),
    {
        match self {
            ConnectionId::Client(name) => name.as_str(),
            ConnectionId::Server { name, .. } => name.as_str(),
        }
    }

    /// Whether two identifiers name the same connection.
    pub fn same_as(&self, other: &ConnectionId) -> (b: bool)
        ensures
            b == (self@ == other@),
    {
        match (self, other) {
            (ConnectionId::Client(a), ConnectionId::Client(b)) => str_eq(a.as_str(), b.as_str()),
            (
                ConnectionId::Server { name: a, connection_num: m },
                ConnectionId::Server { name: b, connection_num: n },
            ) => *m == *n && str_eq(a.as_str(), b.as_str()),
            _ => false,
        }
    }

    /// The identifier as text: `name` for a client, `name-number` for a
    /// server connection.
    pub fn to_string(&self) -> (s: String)
        ensures
            s@ == conn_text(self@),
    {
        match self {
            ConnectionId::Client(name) => name.clone(),
            ConnectionId::Server { name, connection_num } => {
                let mut s = name.clone();
                s.append("-");
                let num = decimal_string(*connection_num as u64);
                s.append(num.as_str());
                s
            },
        }
    }
}

/// The text of a hex preview: the hex digits of the first `max_bytes` bytes
/// (all of them if there are fewer), then the total length.
pub open spec fn hex_preview_text(data: Seq<u8>, max_bytes: nat) -> Seq<char> {
    let shown = if data.len() < max_bytes { data.len() } else { max_bytes };
    let hex = hex_bytes(data.take(shown as int));
    if data.len() > max_bytes {
        hex + "... ("@ + decimal(data.len()) + " bytes total)"@
    } else {
        hex + " ("@ + decimal(data.len()) + " bytes)"@
    }
}

/// Create a hex preview of data for logging.
pub fn hex_preview(data: &[u8], max_bytes: usize) -> (s: String)
    ensures
        s@ == hex_preview_text(data@, max_bytes as nat),
{
    let preview_len: usize = if data.len() < max_bytes { data.len() } else { max_bytes };
    let mut hex = String::new();
    let mut i: usize = 0;
    while i < preview_len
        invariant
            preview_len <= data@.len(),
            i <= preview_len,
            hex@ == hex_bytes(data@.take(i as int)),
        decreases preview_len - i,
    {
        proof {
            assert(data@.take(i + 1).drop_last() =~= data@.take(i as int));
        }
        push_hex_byte(&mut hex, data[i]);
        i = i + 1;
    }
    let total = decimal_string(data.len() as u64);
    if data.len() > max_bytes {
        hex.append("... (");
        hex.append(total.as_str());
        hex.append(" bytes total)");
    } else {
        hex.append(" (");
        hex.append(total.as_str());
        hex.append(" bytes)");
    }
    hex
}

/// The positions of the registrations that belong to the node `target`, in
/// increasing order.
pub open spec fn is_selection<N>(t: Seq<(ConnKey, N)>, target: Seq<char>, r: Seq<usize>) -> bool {
    &&& forall|a: int, b: int| 0 <= a < b < r.len() ==> r[a] < r[b]
    &&& forall|a: int| 0 <= a < r.len() ==> r[a] < t.len()
    &&& forall|i: int| 0 <= i < t.len() ==> (t[i].0.base() == target <==> r.contains(i as usize))
}

/// The positions, in increasing order, of the registrations in `t` that belong
/// to the node `target`.
pub open spec fn matching<N>(t: Seq<(ConnKey, N)>, target: Seq<char>) -> Seq<usize>
    decreases t.len(),
{
    if t.len() == 0 {
        Seq::empty()
    } else {
        let rest = matching(t.drop_last(), target);
        if t.last().0.base() == target {
            rest.push((t.len() - 1) as usize)
        } else {
            rest
        }
    }
}

/// `matching` selects exactly the registrations of the target, in order.
pub proof fn lemma_matching_selects<N>(t: Seq<(ConnKey, N)>, target: Seq<char>)
    requires
        t.len() <= usize::MAX,
    ensures
        is_selection(t, target, matching(t, target)),
    decreases t.len(),
{
    if t.len() > 0 {
        let p = t.drop_last();
        lemma_matching_selects(p, target);
        let m = matching(p, target);
        let r = matching(t, target);
        let last = (t.len() - 1) as usize;
        assert(forall|a: int| 0 <= a < m.len() ==> m[a] < last);
        assert forall|i: int| 0 <= i < t.len() implies (t[i].0.base() == target <==> r.contains(
            i as usize,
        )) by {
            if i < p.len() {
                assert(t[i] == p[i]);
                if m.contains(i as usize) {
                    let w = choose|w: int| 0 <= w < m.len() && m[w] == i as usize;
                    assert(r[w] == i as usize);
                }
                if r.contains(i as usize) {
                    let w = choose|w: int| 0 <= w < r.len() && r[w] == i as usize;
                    if w < m.len() {
                        assert(m[w] == i as usize);
                    } else {
                        assert(r[w] == last);
                    }
                }
            } else {
                if t[i].0.base() == target {
                    assert(r[r.len() - 1] == last);
                } else {
                    assert(r == m);
                    if r.contains(i as usize) {
                        let w = choose|w: int| 0 <= w < r.len() && r[w] == i as usize;
                        assert(m[w] < p.len());
                    }
                }
            }
        }
    }
}

/// The live connections, each with what the caller keeps for it (for the
/// multiplexer, the channel that feeds the connection). No connection is
/// registered twice.
#[derive(Debug)]
pub struct RoutingTable<N> {
    entries: Vec<(ConnectionId, N)>,
}

impl<N> View for RoutingTable<N> {
    type V = Seq<(ConnKey, N)>;

    closed spec fn view(&self) -> Seq<(ConnKey, N)> {
        self.entries@.map_values(|e: (ConnectionId, N)| (e.0@, e.1))
    }
}

impl<N> RoutingTable<N> {
    /// No connection is registered twice.
    #[verifier::type_invariant]
    spec fn ids_unique(&self) -> bool {
        keys_unique(self@)
    }

    /// An empty table.
    pub fn new() -> (t: Self)
        ensures
            t@ == Seq::<(ConnKey, N)>::empty(),
            keys_unique(t@),
    {
        let entries: Vec<(ConnectionId, N)> = Vec::new();
        assert(entries@.map_values(|e: (ConnectionId, N)| (e.0@, e.1)) =~= Seq::<(ConnKey, N)>::empty());
        RoutingTable { entries }
    }

    /// The number of registered connections.
    pub fn len(&self) -> (n: usize)
        ensures
            n == self@.len(),
            keys_unique(self@),
    {
        proof {
            use_type_invariant(self);
        }
        self.entries.len()
    }

    /// Whether no connection is registered.
    pub fn is_empty(&self) -> (b: bool)
        ensures
            b == (self@.len() == 0),
    {
        self.entries.len() == 0
    }

    fn position(&self, id: &ConnectionId) -> (r: Option<usize>)
        ensures
            r matches Some(i) ==> position_of(self@, id@) == Some(i as int) && i < self@.len(),
            r is None ==> position_of(self@, id@) is None,
    {
        let mut i: usize = 0;
        while i < self.entries.len()
            invariant
                i <= self.entries@.len(),
                self@.len() == self.entries@.len(),
                forall|j: int| 0 <= j < i ==> self@[j].0 != id@,
            decreases self.entries@.len() - i,
        {
            assert(self@[i as int].0 == self.entries@[i as int].0@);
            if self.entries[i].0.same_as(id) {
                proof {
                    lemma_first_position(self@, id@, i as int);
                }
                return Some(i);
            }
            i = i + 1;
        }
        proof {
            lemma_absent(self@, id@);
        }
        None
    }

    /// Whether the connection `id` is registered.
    pub fn contains(&self, id: &ConnectionId) -> (b: bool)
        ensures
            b == has_key(self@, id@),
    {
        match self.position(id) {
            Some(_) => {
                proof {
                    lemma_position_found(self@, id@);
                }
                true
            },
            None => {
                proof {
                    if has_key(self@, id@) {
                        let k = choose|k: int| 0 <= k < self@.len() && self@[k].0 == id@;
                        lemma_first_exists(self@, id@, k);
                    }
                }
                false
            },
        }
    }

    /// Registers the connection `id` with `node`. A connection that is already
    /// registered under `id` is replaced, and what it held is returned; every
    /// other registration stays as it was.
    pub fn register(&mut self, id: ConnectionId, node: N) -> (replaced: Option<N>)
        ensures
            final(self)@ == inserted(old(self)@, id@, node),
            replaced == (match position_of(old(self)@, id@) {
                Some(i) => Some(old(self)@[i].1),
                None => None::<N>,
            }),
            keys_unique(final(self)@),
            lookup(final(self)@, id@) == Some(node),
            forall|k: ConnKey| k != id@ ==> #[trigger] lookup(final(self)@, k) == lookup(old(self)@, k),
    {
        proof {
            use_type_invariant(&*self);
        }
        let ghost key = id@;
        let ghost before = self@;
        proof {
            law_insert_then_lookup(before, key, node);
            assert forall|k: ConnKey| k != key implies #[trigger] lookup(inserted(before, key, node), k)
                == lookup(before, k) by {
                law_insert_keeps_others(before, key, node, k);
            }
        }
        let found = self.position(&id);
        let mut entries: Vec<(ConnectionId, N)> = Vec::new();
        std::mem::swap(&mut entries, &mut self.entries);
        assert(entries@.map_values(|e: (ConnectionId, N)| (e.0@, e.1)) == before);
        match found {
            Some(i) => {
                let mut pair = (id, node);
                entries.set_and_swap(i, &mut pair);
                proof {
                    lemma_position_found(before, key);
                    let after = before.update(i as int, (key, node));
                    assert forall|a: int, b: int| 0 <= a < b < after.len() implies after[a].0
                        != after[b].0 by {
                        assert(before[i as int].0 == key);
                    }
                    assert(entries@.map_values(|e: (ConnectionId, N)| (e.0@, e.1)) =~= after);
                    assert(before[i as int].1 == pair.1);
                }
                self.entries = entries;
                Some(pair.1)
            },
            None => {
                entries.push((id, node));
                proof {
                    let after = before.push((key, node));
                    assert forall|a: int, b: int| 0 <= a < b < after.len() implies after[a].0
                        != after[b].0 by {
                        if b == before.len() && before[a].0 == key {
                            lemma_first_exists(before, key, a);
                        }
                    }
                    assert(entries@.map_values(|e: (ConnectionId, N)| (e.0@, e.1)) =~= after);
                }
                self.entries = entries;
                None
            },
        }
    }

    /// Removes the registration of the connection `id`, if there is one, and
    /// returns what it held; every other registration stays as it was.
    pub fn unregister(&mut self, id: &ConnectionId) -> (taken: Option<N>)
        ensures
            final(self)@ == removed(old(self)@, id@),
            taken == (match position_of(old(self)@, id@) {
                Some(i) => Some(old(self)@[i].1),
                None => None::<N>,
            }),
            keys_unique(final(self)@),
            lookup(final(self)@, id@) is None,
            !has_key(final(self)@, id@),
            forall|k: ConnKey| k != id@ ==> #[trigger] lookup(final(self)@, k) == lookup(old(self)@, k),
    {
        proof {
            use_type_invariant(&*self);
        }
        let ghost before = self@;
        proof {
            law_remove_removes(before, id@);
            assert forall|k: ConnKey| k != id@ implies #[trigger] lookup(removed(before, id@), k) == lookup(
                before,
                k,
            ) by {
                law_remove_keeps_others(before, id@, k);
            }
        }
        match self.position(id) {
            Some(i) => {
                let mut entries: Vec<(ConnectionId, N)> = Vec::new();
                std::mem::swap(&mut entries, &mut self.entries);
                assert(entries@.map_values(|e: (ConnectionId, N)| (e.0@, e.1)) == before);
                let pair = entries.remove(i);
                proof {
                    lemma_position_found(before, id@);
                    assert(entries@.map_values(|e: (ConnectionId, N)| (e.0@, e.1)) =~= before.remove(
                        i as int,
                    ));
                }
                self.entries = entries;
                Some(pair.1)
            },
            None => None,
        }
    }

    /// The positions of the registered connections that belong to the node
    /// named `target`, in increasing order: every connection of a server, or
    /// the connection of a client.
    pub fn connections_for(&self, target: &str) -> (r: Vec<usize>)
        ensures
            r@ == matching(self@, target@),
            is_selection(self@, target@, r@),
    {
        let mut r: Vec<usize> = Vec::new();
        let mut i: usize = 0;
        while i < self.entries.len()
            invariant
                i <= self.entries@.len(),
                self@.len() == self.entries@.len(),
                r@ == matching(self@.take(i as int), target@),
            decreases self.entries@.len() - i,
        {
            assert(self@[i as int].0 == self.entries@[i as int].0@);
            proof {
                let t1 = self@.take(i + 1);
                assert(t1.drop_last() =~= self@.take(i as int));
                assert(t1.last() == self@[i as int]);
            }
            if self.entries[i].0.matches_target(target) {
                r.push(i);
            }
            i = i + 1;
        }
        proof {
            assert(self@.take(self@.len() as int) =~= self@);
            lemma_matching_selects(self@, target@);
        }
        r
    }

    /// The identifier of the connection at position `i`.
    pub fn id_at(&self, i: usize) -> (id: &ConnectionId)
        requires
            i < self@.len(),
        ensures
            id@ == self@[i as int].0,
    {
        &self.entries[i].0
    }

    /// What is kept for the connection at position `i`.
    pub fn node_at(&self, i: usize) -> (node: &N)
        requires
            i < self@.len(),
        ensures
            *node == self@[i as int].1,
    {
        &self.entries[i].1
    }
}

/// The forwarding targets of the node `name`: those of the server of that
/// name if there is one, else those of the client of that name, else none.
pub open spec fn targets_of(c: Config, name: Seq<char>) -> Seq<String> {
    match lookup(c.server@, name) {
        Some(s) => s.target@,
        None => match lookup(c.client@, name) {
            Some(cl) => cl.target@,
            None => Seq::empty(),
        },
    }
}

/// A node forwards to the whole target list of the server of its name, in
/// order; if there is no such server, to the whole list of the client of its
/// name; if there is neither, to nothing.
pub proof fn law_targets_are_the_target_list(c: Config, name: Seq<char>)
    ensures
        lookup(c.server@, name) matches Some(s) ==> targets_of(c, name) == s.target@,
        lookup(c.server@, name) is None ==> (lookup(c.client@, name) matches Some(cl) ==> targets_of(c, name)
            == cl.target@),
        lookup(c.server@, name) is None && lookup(c.client@, name) is None ==> targets_of(c, name).len() == 0,
{
}

/// In a validated configuration, every target that a node forwards to is a
/// configured node.
pub proof fn law_targets_are_nodes(c: Config, name: Seq<char>)
    requires
        c.targets_known(),
    ensures
        c.all_nodes(targets_of(c, name)),
{
    if lookup(c.server@, name) is Some {
        lemma_position_found(c.server@, name);
        let p = position_of(c.server@, name)->0;
        assert(c.all_nodes(c.server@[p].1.target@));
    } else if lookup(c.client@, name) is Some {
        lemma_position_found(c.client@, name);
        let p = position_of(c.client@, name)->0;
        assert(c.all_nodes(c.client@[p].1.target@));
    }
}

/// A node to start: a server to listen on its port, or a client to connect
/// to its address.
#[derive(Debug)]
pub enum NodeStart {
    /// Listen on `port` for the server `name`.
    Server { name: String, port: u16 },
    /// Connect to `addr` for the client `name`.
    Client { name: String, addr: SocketAddress },
}

/// Whether `start` starts the server entry `e`.
pub open spec fn starts_server(start: NodeStart, e: (Seq<char>, crate::config::ServerConfig)) -> bool {
    start matches NodeStart::Server { name, port } && name@ == e.0 && port == e.1.port
}

/// Whether `start` starts the client entry `e`.
pub open spec fn starts_client(start: NodeStart, e: (Seq<char>, crate::config::ClientConfig)) -> bool {
    start matches NodeStart::Client { name, addr } && name@ == e.0 && addr == e.1.addr
}

fn clone_names(v: &Vec<String>) -> (r: Vec<String>)
    ensures
        r@ == v@,
{
    let mut r: Vec<String> = Vec::new();
    let mut i: usize = 0;
    while i < v.len()
        invariant
            i <= v@.len(),
            r@ == v@.take(i as int),
        decreases v@.len() - i,
    {
        r.push(v[i].clone());
        proof {
            assert(r@ =~= v@.take(i + 1));
        }
        i = i + 1;
    }
    proof {
        assert(v@.take(v@.len() as int) =~= v@);
    }
    r
}

/// The multiplexer router: the configuration, and the routing decisions made
/// from it.
#[derive(Debug)]
pub struct Router {
    config: Config,
}

impl View for Router {
    type V = Config;

    closed spec fn view(&self) -> Config {
        self.config
    }
}

impl Router {
    /// Create a new router with the given configuration.
    pub fn new(config: Config) -> (r: Self)
        ensures
            r@ == config,
    {
        Router { config }
    }

    /// The configuration of the router.
    pub fn config(&self) -> (c: &Config)
        ensures
            *c == self@,
    {
        &self.config
    }

    /// Get the target names for a given node.
    pub fn get_targets(&self, name: &str) -> (r: Vec<String>)
        ensures
            r@ == targets_of(self@, name@),
            lookup(self@.server@, name@) matches Some(s) ==> r@ == s.target@,
            lookup(self@.server@, name@) is None ==> (lookup(self@.client@, name@) matches Some(c) ==> r@
                == c.target@),
            lookup(self@.server@, name@) is None && lookup(self@.client@, name@) is None ==> r@.len() == 0,
    {
        proof {
            law_targets_are_the_target_list(self@, name@);
        }
        if let Some(server) = self.config.server.get(name) {
            return clone_names(&server.target);
        }
        if let Some(client) = self.config.client.get(name) {
            return clone_names(&client.target);
        }
        Vec::new()
    }

    /// The nodes to start, in order: every server first, then every client.
    pub fn startup_plan(&self) -> (r: Vec<NodeStart>)
        ensures
            r@.len() == self@.server@.len() + self@.client@.len(),
            forall|i: int| 0 <= i < self@.server@.len() ==> starts_server(#[trigger] r@[i], self@.server@[i]),
            forall|i: int| 0 <= i < self@.client@.len() ==> starts_client(
                #[trigger] r@[self@.server@.len() + i],
                self@.client@[i],
            ),
    {
        let mut r: Vec<NodeStart> = Vec::new();
        let ns: usize = self.config.server.len();
        let mut i: usize = 0;
        while i < ns
            invariant
                ns == self@.server@.len(),
                i <= ns,
                r@.len() == i,
                forall|k: int| 0 <= k < i ==> starts_server(#[trigger] r@[k], self@.server@[k]),
            decreases ns - i,
        {
            let (name, server) = self.config.server.entry_at(i);
            r.push(NodeStart::Server { name: name.clone(), port: server.port });
            i = i + 1;
        }
        let nc: usize = self.config.client.len();
        let mut j: usize = 0;
        while j < nc
            invariant
                ns == self@.server@.len(),
                nc == self@.client@.len(),
                j <= nc,
                r@.len() == ns + j,
                forall|k: int| 0 <= k < ns ==> starts_server(#[trigger] r@[k], self@.server@[k]),
                forall|k: int| 0 <= k < j ==> starts_client(#[trigger] r@[ns + k], self@.client@[k]),
            decreases nc - j,
        {
            let (name, client) = self.config.client.entry_at(j);
            r.push(NodeStart::Client { name: name.clone(), addr: client.addr });
            proof {
                assert(starts_client(r@[ns + j], self@.client@[j as int]));
            }
            j = j + 1;
        }
        r
    }
}

/// The connections accepted so far by one server: the next one gets the
/// next number, starting from 1.
#[derive(Debug)]
pub struct ServerConnections {
    /// The server's name.
    pub name: String,
    /// How many connections have been accepted.
    pub accepted: u32,
}

impl ServerConnections {
    /// A server that has accepted no connection yet.
    pub fn new(name: String) -> (s: Self)
        ensures
            s.name == name,
            s.accepted == 0,
    {
        ServerConnections { name, accepted: 0 }
    }

    /// The identifier of a newly accepted connection.
    pub fn accept(&mut self) -> (id: ConnectionId)
        requires
            old(self).accepted < u32::MAX,
        ensures
            final(self).name == old(self).name,
            final(self).accepted == old(self).accepted + 1,
            id@ == ConnKey::Server(old(self).name@, final(self).accepted),
    {
        self.accepted = self.accepted + 1;
        ConnectionId::Server { name: self.name.clone(), connection_num: self.accepted }
    }
}

/// What to do after a read from a connection.
#[derive(Debug)]
pub enum ReadStep {
    /// Forward these bytes to the node's targets.
    Forward(Vec<u8>),
    /// The peer closed the connection.
    Closed,
    /// The read failed; the connection is dropped.
    Failed,
}

/// The bytes that a read forwards: the first `n` bytes of the buffer when
/// `n > 0` bytes were read, nothing when the peer closed or the read failed.
pub open spec fn read_chunk(buffer: Seq<u8>, result: Result<usize, ()>) -> Option<Seq<u8>> {
    match result {
        Ok(n) => if n == 0 {
            None
        } else {
            Some(buffer.take(n as int))
        },
        Err(_) => None,
    }
}

/// The bytes that a step forwards, if it forwards.
pub open spec fn step_bytes(step: ReadStep) -> Option<Seq<u8>> {
    match step {
        ReadStep::Forward(data) => Some(data@),
        _ => None,
    }
}

/// The chunks forwarded by a sequence of reads (each a buffer and what the
/// read returned): one per read, up to the first read that closes or fails.
pub open spec fn read_chunks(reads: Seq<(Seq<u8>, Result<usize, ()>)>) -> Seq<Seq<u8>>
    decreases reads.len(),
{
    if reads.len() == 0 {
        Seq::empty()
    } else {
        match read_chunk(reads[0].0, reads[0].1) {
            Some(c) => seq![c] + read_chunks(reads.drop_first()),
            None => Seq::empty(),
        }
    }
}

/// The bytes that a sequence of reads delivered into their buffers, up to the
/// first read that closes or fails.
pub open spec fn bytes_read(reads: Seq<(Seq<u8>, Result<usize, ()>)>) -> Seq<u8>
    decreases reads.len(),
{
    if reads.len() == 0 {
        Seq::empty()
    } else {
        match reads[0].1 {
            Ok(n) => if n == 0 {
                Seq::empty()
            } else {
                reads[0].0.subrange(0, n as int) + bytes_read(reads.drop_first())
            },
            Err(_) => Seq::empty(),
        }
    }
}

/// Reading a connection into a buffer of `BUFFER_SIZE` bytes forwards the
/// stream in chunks of 1 to `BUFFER_SIZE` bytes whose concatenation is
/// exactly what was read: nothing lost, added or reordered.
pub proof fn law_read_chunks_concatenate(reads: Seq<(Seq<u8>, Result<usize, ()>)>)
    requires
        forall|k: int| 0 <= k < reads.len() ==> (#[trigger] reads[k]).0.len() == BUFFER_SIZE,
        forall|k: int| 0 <= k < reads.len() ==> ((#[trigger] reads[k]).1 matches Ok(n) ==> n <= BUFFER_SIZE),
    ensures
        read_chunks(reads).flatten() == bytes_read(reads),
        forall|j: int| 0 <= j < read_chunks(reads).len() ==> 1 <= (#[trigger] read_chunks(reads)[j]).len() <= BUFFER_SIZE,
    decreases reads.len(),
{
    if reads.len() > 0 {
        let rest = reads.drop_first();
        assert forall|k: int| 0 <= k < rest.len() implies (#[trigger] rest[k]).0.len() == BUFFER_SIZE by {
            assert(rest[k] == reads[k + 1]);
        }
        assert forall|k: int| 0 <= k < rest.len() implies ((#[trigger] rest[k]).1 matches Ok(n) ==> n
            <= BUFFER_SIZE) by {
            assert(rest[k] == reads[k + 1]);
        }
        law_read_chunks_concatenate(rest);
        assert(reads[0].0.len() == BUFFER_SIZE);
        match read_chunk(reads[0].0, reads[0].1) {
            Some(c) => {
                let cs = read_chunks(reads);
                assert(cs == seq![c] + read_chunks(rest));
                assert(cs.drop_first() =~= read_chunks(rest));
                assert(cs.flatten() == cs[0] + cs.drop_first().flatten());
                assert forall|j: int| 0 <= j < cs.len() implies 1 <= (#[trigger] cs[j]).len() <= BUFFER_SIZE by {
                    if j > 0 {
                        assert(cs[j] == read_chunks(rest)[j - 1]);
                    }
                }
            },
            None => {
                assert(read_chunks(reads).flatten() =~= Seq::<u8>::empty());
            },
        }
    }
}

/// Decides what a read gives: `result` is the number of bytes read into
/// `buffer`, or a failure. Nothing read means that the peer closed.
pub fn read_step(buffer: &[u8], result: Result<usize, ()>) -> (step: ReadStep)
    requires
        result matches Ok(n) ==> n <= buffer@.len(),
    ensures
        match result {
            Ok(n) => if n == 0 {
                step is Closed
            } else {
                step matches ReadStep::Forward(data) && data@ == buffer@.take(n as int)
            },
            Err(_) => step is Failed,
        },
        step_bytes(step) == read_chunk(buffer@, result),
{
    match result {
        Ok(n) => {
            if n == 0 {
                ReadStep::Closed
            } else {
                let mut data: Vec<u8> = Vec::new();
                let mut i: usize = 0;
                while i < n
                    invariant
                        n <= buffer@.len(),
                        i <= n,
                        data@ == buffer@.take(i as int),
                    decreases n - i,
                {
                    data.push(buffer[i]);
                    proof {
                        assert(data@ =~= buffer@.take(i + 1));
                    }
                    i = i + 1;
                }
                ReadStep::Forward(data)
            }
        },
        Err(_) => ReadStep::Failed,
    }
}

/// Shortest wait before a client tries to connect again, in seconds.
pub const RECONNECT_MIN_DELAY_SECS: u64 = 1;

/// Longest wait before a client tries to connect again, in seconds; the wait
/// grows exponentially between the two, and the client retries without end.
pub const RECONNECT_MAX_DELAY_SECS: u64 = 30;

/// Size of the buffer that a connection reads into.
pub const BUFFER_SIZE: usize = 8192;

/// Capacity of the channels that carry data between connections.
pub const BROADCAST_CHANNEL_SIZE: usize = 100;

#[verifier::external_type_specification]
#[verifier::external_body]
#[verifier::reject_recursive_types(T)]
pub struct ExBroadcastSender<T>(tokio::sync::broadcast::Sender<T>);

/// A live connection as the routing table holds it: the sending end of the
/// channel whose receiver writes to the connection's socket.
pub struct Node {
    /// The channel that feeds the connection.
    pub sender: tokio::sync::broadcast::Sender<Vec<u8>>,
}

impl Node {
    /// A node fed through `sender`.
    pub fn new(sender: tokio::sync::broadcast::Sender<Vec<u8>>) -> (n: Node)
        ensures
            n.sender == sender,
    {
        Node { sender }
    }
}

fn copy_bytes(data: &[u8]) -> (r: Vec<u8>)
    ensures
        r@ == data@,
{
    let mut r: Vec<u8> = Vec::new();
    let mut i: usize = 0;
    while i < data.len()
        invariant
            i <= data@.len(),
            r@ == data@.take(i as int),
        decreases data@.len() - i,
    {
        r.push(data[i]);
        proof {
            assert(r@ =~= data@.take(i + 1));
        }
        i = i + 1;
    }
    proof {
        assert(data@.take(data@.len() as int) =~= data@);
    }
    r
}

/// The names of a list of targets.
pub open spec fn target_names(targets: Seq<String>) -> Seq<Seq<char>> {
    targets.map_values(|s: String| s@)
}

/// What a packet `data` from a node with the targets `targets` is handed to:
/// for each target in order (position `k`), for each registered connection `i`
/// of that target in increasing order, the entry `(k, i, data)`.
pub open spec fn plan_for<N>(t: Seq<(ConnKey, N)>, targets: Seq<Seq<char>>, data: Seq<u8>) -> Seq<
    (usize, usize, Seq<u8>),
>
    decreases targets.len(),
{
    if targets.len() == 0 {
        Seq::empty()
    } else {
        let k = (targets.len() - 1) as usize;
        plan_for(t, targets.drop_last(), data) + matching(t, targets.last()).map_values(
            |i: usize| (k, i, data),
        )
    }
}

/// One entry of a forwarding plan: the position of the target in the target
/// list, the position of the connection in the routing table, and the bytes
/// handed to that connection.
pub type Handoff = (usize, usize, Vec<u8>);

/// The view of a forwarding plan.
pub open spec fn plan_view(plan: Seq<Handoff>) -> Seq<(usize, usize, Seq<u8>)> {
    plan.map_values(|h: Handoff| (h.0, h.1, h.2@))
}

/// Plans the forwarding of one packet from a node to its targets: for each
/// target in order, a copy of `data` for every registered connection of that
/// target (all connections of a server, the connection of a client). A target
/// with no live connection gets nothing.
pub fn forward_plan<N>(table: &RoutingTable<N>, targets: &Vec<String>, data: &[u8]) -> (plan: Vec<Handoff>)
    ensures
        plan_view(plan@) == plan_for(table@, target_names(targets@), data@),
        forall|e: int| #![trigger plan@[e]] 0 <= e < plan@.len() ==> {
            &&& plan@[e].0 < targets@.len()
            &&& plan@[e].1 < table@.len()
            &&& table@[plan@[e].1 as int].0.base() == targets@[plan@[e].0 as int]@
            &&& plan@[e].2@ == data@
        },
        forall|k: int, i: int| #![trigger targets@[k], table@[i]]
            0 <= k < targets@.len() && 0 <= i < table@.len() && table@[i].0.base() == targets@[k]@
                ==> exists|e: int| 0 <= e < plan@.len() && #[trigger] plan@[e].0 == k && plan@[e].1 == i,
        forall|a: int, b: int| #![trigger plan@[a], plan@[b]]
            0 <= a < b < plan@.len() ==> plan@[a].0 < plan@[b].0 || (plan@[a].0 == plan@[b].0 && plan@[a].1
                < plan@[b].1),
{
    let table_len = table.len();
    let ghost names = target_names(targets@);
    let mut plan: Vec<Handoff> = Vec::new();
    let mut t: usize = 0;
    while t < targets.len()
        invariant
            t <= targets@.len(),
            names == target_names(targets@),
            plan_view(plan@) == plan_for(table@, names.take(t as int), data@),
        decreases targets@.len() - t,
    {
        let connections = table.connections_for(targets[t].as_str());
        let ghost base = plan_view(plan@);
        let ghost f = |i: usize| (t, i, data@);
        let mut c: usize = 0;
        while c < connections.len()
            invariant
                c <= connections@.len(),
                t < targets@.len(),
                plan_view(plan@) == base + connections@.take(c as int).map_values(f),
                forall|x: usize| #[trigger] f(x) == (t, x, data@),
                is_selection(table@, targets@[t as int]@, connections@),
            decreases connections@.len() - c,
        {
            let ghost before = plan_view(plan@);
            let i = connections[c];
            plan.push((t, i, copy_bytes(data)));
            proof {
                assert(connections@.take(c + 1) =~= connections@.take(c as int).push(i));
                assert(connections@.take(c + 1).map_values(f) =~= connections@.take(c as int).map_values(
                    f,
                ).push(f(i)));
                assert(f(i) == (t, i, data@));
                assert(plan_view(plan@) =~= before.push((t, i, data@)));
            }
            c = c + 1;
        }
        proof {
            assert(connections@.take(connections@.len() as int) =~= connections@);
            let n1 = names.take(t + 1);
            assert(n1.drop_last() =~= names.take(t as int));
            assert(n1.last() == targets@[t as int]@);
            assert(connections@ == matching(table@, targets@[t as int]@));
            assert(matching(table@, n1.last()).map_values(|i: usize| ((n1.len() - 1) as usize, i, data@))
                =~= connections@.map_values(f));
        }
        t = t + 1;
    }
    proof {
        assert(names.take(targets@.len() as int) =~= names);
        let pv = plan_view(plan@);
        assert forall|e: int| #![trigger plan@[e]] 0 <= e < plan@.len() implies {
            &&& plan@[e].0 < targets@.len()
            &&& plan@[e].1 < table@.len()
            &&& table@[plan@[e].1 as int].0.base() == targets@[plan@[e].0 as int]@
            &&& plan@[e].2@ == data@
        } by {
            law_plan_hands_packet_to_targets(table@, names, data@, e);
            assert(pv[e] == (plan@[e].0, plan@[e].1, plan@[e].2@));
        }
        assert forall|k: int, i: int| #![trigger targets@[k], table@[i]]
            0 <= k < targets@.len() && 0 <= i < table@.len() && table@[i].0.base() == targets@[k]@ implies exists|e: int|
            0 <= e < plan@.len() && #[trigger] plan@[e].0 == k && plan@[e].1 == i by {
            assert(names[k] == targets@[k]@);
            law_plan_reaches_every_connection(table@, names, data@, k, i);
            let w = choose|w: int| 0 <= w < pv.len() && pv[w] == (k as usize, i as usize, data@);
            assert(pv[w] == (plan@[w].0, plan@[w].1, plan@[w].2@));
            assert(plan@[w].0 == k);
        }
        law_plan_ordered(table@, names, data@);
        assert forall|a: int, b: int| #![trigger plan@[a], plan@[b]]
            0 <= a < b < plan@.len() implies plan@[a].0 < plan@[b].0 || (plan@[a].0 == plan@[b].0 && plan@[a].1
                < plan@[b].1) by {
            assert(pv[a] == (plan@[a].0, plan@[a].1, plan@[a].2@));
            assert(pv[b] == (plan@[b].0, plan@[b].1, plan@[b].2@));
        }
    }
    plan
}

/// A forwarding plan is in target order and, for each target, in increasing
/// order of connection: so no connection gets the packet twice for one
/// occurrence of a target.
pub proof fn law_plan_ordered<N>(t: Seq<(ConnKey, N)>, targets: Seq<Seq<char>>, data: Seq<u8>)
    requires
        t.len() <= usize::MAX,
        targets.len() <= usize::MAX,
    ensures
        forall|a: int, b: int| #![trigger plan_for(t, targets, data)[a], plan_for(t, targets, data)[b]]
            0 <= a < b < plan_for(t, targets, data).len() ==> plan_for(t, targets, data)[a].0 < plan_for(
                t,
                targets,
                data,
            )[b].0 || (plan_for(t, targets, data)[a].0 == plan_for(t, targets, data)[b].0 && plan_for(
                t,
                targets,
                data,
            )[a].1 < plan_for(t, targets, data)[b].1),
    decreases targets.len(),
{
    if targets.len() > 0 {
        let prefix = targets.drop_last();
        law_plan_ordered(t, prefix, data);
        let p = plan_for(t, prefix, data);
        let whole = plan_for(t, targets, data);
        let k = (targets.len() - 1) as usize;
        let m = matching(t, targets.last());
        lemma_matching_selects(t, targets.last());
        assert forall|a: int| 0 <= a < p.len() implies #[trigger] p[a].0 < k by {
            law_plan_hands_packet_to_targets(t, prefix, data, a);
        }
        assert forall|a: int, b: int| #![trigger whole[a], whole[b]] 0 <= a < b < whole.len() implies whole[a].0
            < whole[b].0 || (whole[a].0 == whole[b].0 && whole[a].1 < whole[b].1) by {
            if b < p.len() {
                assert(whole[a] == p[a] && whole[b] == p[b]);
            } else if a < p.len() {
                assert(whole[a] == p[a]);
                assert(whole[b] == (k, m[b - p.len()], data));
            } else {
                assert(whole[a] == (k, m[a - p.len()], data));
                assert(whole[b] == (k, m[b - p.len()], data));
            }
        }
    }
}

/// Whether `handed` is, send by send, what `plan` hands over: for each entry
/// in order, its bytes to the channel of the connection it names, and nothing
/// else.
pub open spec fn hands_over(t: Seq<(ConnKey, Node)>, plan: Seq<(usize, usize, Seq<u8>)>, handed: Seq<SendRecord>) -> bool {
    &&& handed.len() == plan.len()
    &&& forall|k: int| 0 <= k < plan.len() ==> #[trigger] handed[k] == (t[plan[k].1 as int].1.sender, plan[k].2)
}

/// What the receipts of a sequence of sends record.
pub open spec fn receipts_view(receipts: Seq<SendReceipt>) -> Seq<SendRecord> {
    receipts.map_values(|r: SendReceipt| r.handed())
}

/// Hands each entry of `plan` to the channel of its connection, moving its
/// bytes into the send, and reports for each entry whether the channel took
/// it (it does not when the connection has no receiver left), with the
/// receipt of every send made, in order.
pub fn deliver(table: &RoutingTable<Node>, plan: Vec<Handoff>) -> (r: (Vec<bool>, Vec<SendReceipt>))
    requires
        forall|k: int| 0 <= k < plan@.len() ==> (#[trigger] plan@[k]).1 < table@.len(),
    ensures
        r.0@.len() == plan@.len(),
        r.1@.len() == plan@.len(),
        forall|k: int| #![trigger r.1@[k]] 0 <= k < plan@.len() ==> r.1@[k].handed() == (
            table@[plan@[k].1 as int].1.sender,
            plan@[k].2@,
        ) && r.0@[k] == (r.1@[k].receiver_count() is Some),
        hands_over(table@, plan_view(plan@), receipts_view(r.1@)),
{
    let ghost entries = plan@;
    let mut sent: Vec<bool> = Vec::new();
    let mut receipts: Vec<SendReceipt> = Vec::new();
    let mut rest = plan;
    while rest.len() > 0
        invariant
            rest@ == entries.skip(sent@.len() as int),
            sent@.len() <= entries.len(),
            receipts@.len() == sent@.len(),
            forall|k: int| 0 <= k < entries.len() ==> (#[trigger] entries[k]).1 < table@.len(),
            forall|k: int| #![trigger receipts@[k]] 0 <= k < receipts@.len() ==> receipts@[k].handed() == (
                table@[entries[k].1 as int].1.sender,
                entries[k].2@,
            ) && sent@[k] == (receipts@[k].receiver_count() is Some),
        decreases rest@.len(),
    {
        let ghost k = sent@.len() as int;
        let (_, i, bytes) = rest.remove(0);
        proof {
            assert(entries[k].1 == i);
            assert(entries[k].2 == bytes);
            assert(rest@ =~= entries.skip(k + 1));
        }
        let receipt = broadcast_send(&table.node_at(i).sender, bytes);
        sent.push(receipt.taken());
        receipts.push(receipt);
    }
    proof {
        assert(sent@.len() == entries.len());
        let rv = receipts_view(receipts@);
        assert forall|k: int| 0 <= k < entries.len() implies #[trigger] rv[k] == (
            table@[plan_view(entries)[k].1 as int].1.sender,
            plan_view(entries)[k].2,
        ) by {
            assert(receipts@[k].handed() == (table@[entries[k].1 as int].1.sender, entries[k].2@));
        }
    }
    (sent, receipts)
}

/// Every entry of a forwarding plan hands exactly the packet to a registered
/// connection of the target it is listed under.
pub proof fn law_plan_hands_packet_to_targets<N>(
    t: Seq<(ConnKey, N)>,
    targets: Seq<Seq<char>>,
    data: Seq<u8>,
    e: int,
)
    requires
        t.len() <= usize::MAX,
        targets.len() <= usize::MAX,
        0 <= e < plan_for(t, targets, data).len(),
    ensures
        ({
            let h = plan_for(t, targets, data)[e];
            &&& h.0 < targets.len()
            &&& h.1 < t.len()
            &&& t[h.1 as int].0.base() == targets[h.0 as int]
            &&& h.2 == data
        }),
    decreases targets.len(),
{
    let p = plan_for(t, targets.drop_last(), data);
    if e < p.len() {
        law_plan_hands_packet_to_targets(t, targets.drop_last(), data, e);
    } else {
        let m = matching(t, targets.last());
        lemma_matching_selects(t, targets.last());
        let w = e - p.len();
        assert(m.contains(m[w]));
    }
}

/// A forwarding plan hands the packet to every registered connection of every
/// target: a server target gets it on each of its connections.
pub proof fn law_plan_reaches_every_connection<N>(
    t: Seq<(ConnKey, N)>,
    targets: Seq<Seq<char>>,
    data: Seq<u8>,
    k: int,
    i: int,
)
    requires
        t.len() <= usize::MAX,
        targets.len() <= usize::MAX,
        0 <= k < targets.len(),
        0 <= i < t.len(),
        t[i].0.base() == targets[k],
    ensures
        plan_for(t, targets, data).contains((k as usize, i as usize, data)),
    decreases targets.len(),
{
    let p = plan_for(t, targets.drop_last(), data);
    let whole = plan_for(t, targets, data);
    if k < targets.len() - 1 {
        law_plan_reaches_every_connection(t, targets.drop_last(), data, k, i);
        let w = choose|w: int| 0 <= w < p.len() && p[w] == (k as usize, i as usize, data);
        assert(whole[w] == p[w]);
    } else {
        let m = matching(t, targets.last());
        lemma_matching_selects(t, targets.last());
        assert(m.contains(i as usize));
        let w = choose|w: int| 0 <= w < m.len() && m[w] == i as usize;
        assert(whole[p.len() + w] == (k as usize, i as usize, data));
    }
}

/// Whether the send `r` hands exactly `data` to the channel of a registered
/// connection of one of `targets`.
pub open spec fn goes_to_a_target(t: Seq<(ConnKey, Node)>, targets: Seq<Seq<char>>, data: Seq<u8>, r: SendRecord) -> bool {
    exists|i: int| 0 <= i < t.len() && targets.contains(#[trigger] t[i].0.base()) && r == (t[i].1.sender, data)
}

/// The routing law: when a packet from a node is planned for its targets and
/// delivered, every send hands exactly the packet to the channel of a live
/// connection of one of the targets, and the channel of every live connection
/// of every target (each connection of a server) is handed the packet.
pub proof fn law_forwarding_routes(
    t: Seq<(ConnKey, Node)>,
    targets: Seq<Seq<char>>,
    data: Seq<u8>,
    handed: Seq<SendRecord>,
)
    requires
        t.len() <= usize::MAX,
        targets.len() <= usize::MAX,
        hands_over(t, plan_for(t, targets, data), handed),
    ensures
        forall|k: int| 0 <= k < handed.len() ==> goes_to_a_target(t, targets, data, #[trigger] handed[k]),
        forall|p: int, i: int| 0 <= p < targets.len() && 0 <= i < t.len() && #[trigger] t[i].0.base() == #[trigger] targets[p]
            ==> handed.contains((t[i].1.sender, data)),
{
    let plan = plan_for(t, targets, data);
    assert forall|k: int| 0 <= k < handed.len() implies goes_to_a_target(t, targets, data, #[trigger] handed[k]) by {
        law_plan_hands_packet_to_targets(t, targets, data, k);
        let h = plan[k];
        assert(handed[k] == (t[h.1 as int].1.sender, h.2));
        assert(targets[h.0 as int] == t[h.1 as int].0.base());
        assert(targets.contains(t[h.1 as int].0.base()));
        let i = h.1 as int;
        assert(0 <= i < t.len() && targets.contains(t[i].0.base()) && handed[k] == (t[i].1.sender, data));
    }
    assert forall|p: int, i: int| 0 <= p < targets.len() && 0 <= i < t.len() && #[trigger] t[i].0.base()
        == #[trigger] targets[p] implies handed.contains((t[i].1.sender, data)) by {
        law_plan_reaches_every_connection(t, targets, data, p, i);
        let w = choose|w: int| 0 <= w < plan.len() && plan[w] == (p as usize, i as usize, data);
        assert(handed[w] == (t[i].1.sender, data));
    }
}

} // verus!
