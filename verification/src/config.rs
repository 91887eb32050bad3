//! The routing configuration: named servers and clients, each with the list
//! of nodes that the data it receives is forwarded to, and the check that
//! every forwarding target names a configured node.

use vstd::prelude::*;
use crate::keyed::{
    has_key, inserted, keys_unique, lemma_entry_found, lemma_absent, lemma_first_exists, lemma_first_position,
    lemma_position_found, lookup, position_of,
};

verus! {

/// Nodes of one kind, by name, in the order they were added. A name occurs at
/// most once: adding a name that is already there replaces its value.
#[derive(Debug)]
pub struct NodeMap<V> {
    entries: Vec<(String, V)>,
}

impl<V> View for NodeMap<V> {
    type V = Seq<(Seq<char>, V)>;

    closed spec fn view(&self) -> Seq<(Seq<char>, V)> {
        self.entries@.map_values(|e: (String, V)| (e.0@, e.1))
    }
}

impl<V> NodeMap<V> {
    /// No name occurs twice.
    #[verifier::type_invariant]
    spec fn names_unique(&self) -> bool {
        keys_unique(self@)
    }

    /// An empty map.
    pub fn new() -> (m: Self)
        ensures
            m@ == Seq::<(Seq<char>, V)>::empty(),
            keys_unique(m@),
    {
        let entries: Vec<(String, V)> = Vec::new();
        assert(entries@.map_values(|e: (String, V)| (e.0@, e.1)) =~= Seq::<(Seq<char>, V)>::empty());
        NodeMap { entries }
    }

    /// The number of nodes.
    pub fn len(&self) -> (n: usize)
        ensures
            n == self@.len(),
    {
        self.entries.len()
    }

    /// Whether there are no nodes.
    pub fn is_empty(&self) -> (b: bool)
        ensures
            b == (self@.len() == 0),
    {
        self.entries.len() == 0
    }

    fn find(&self, name: &str) -> (r: Option<usize>)
        ensures
            r matches Some(i) ==> position_of(self@, name@) == Some(i as int) && i < self@.len(),
            r is None ==> position_of(self@, name@) is None,
    {
        let mut i: usize = 0;
        while i < self.entries.len()
            invariant
                i <= self.entries@.len(),
                self@.len() == self.entries@.len(),
                forall|j: int| 0 <= j < i ==> self@[j].0 != name@,
            decreases self.entries@.len() - i,
        {
            if crate::text::str_eq(self.entries[i].0.as_str(), name) {
                proof {
                    lemma_first_position(self@, name@, i as int);
                }
                return Some(i);
            }
            i = i + 1;
        }
        proof {
            lemma_absent(self@, name@);
        }
        None
    }

    /// The value of the node named `name`.
    pub fn get(&self, name: &str) -> (r: Option<&V>)
        ensures
            r matches Some(v) ==> lookup(self@, name@) == Some(*v),
            r is None ==> lookup(self@, name@) is None,
    {
        match self.find(name) {
            Some(i) => {
                assert(self@[i as int].1 == self.entries@[i as int].1);
                Some(&self.entries[i].1)
            },
            None => None,
        }
    }

    /// Whether a node is named `name`.
    pub fn contains_key(&self, name: &str) -> (b: bool)
        ensures
            b == has_key(self@, name@),
    {
        match self.find(name) {
            Some(i) => {
                proof {
                    lemma_position_found(self@, name@);
                }
                true
            },
            None => {
                proof {
                    if has_key(self@, name@) {
                        let k = choose|k: int| 0 <= k < self@.len() && self@[k].0 == name@;
                        lemma_first_exists(self@, name@, k);
                    }
                }
                false
            },
        }
    }

    /// Adds the node `name` with `value`, replacing the value of a node of that
    /// name if there is one.
    pub fn insert(&mut self, name: String, value: V)
        ensures
            final(self)@ == inserted(old(self)@, name@, value),
            keys_unique(final(self)@),
    {
        proof {
            use_type_invariant(&*self);
        }
        let ghost name_view = name@;
        let ghost before = self@;
        let found = self.find(name.as_str());
        let mut entries: Vec<(String, V)> = Vec::new();
        std::mem::swap(&mut entries, &mut self.entries);
        assert(entries@.map_values(|e: (String, V)| (e.0@, e.1)) == before);
        match found {
            Some(i) => {
                entries.set(i, (name, value));
                proof {
                    lemma_position_found(before, name_view);
                    let after = before.update(i as int, (name_view, value));
                    assert forall|a: int, b: int| 0 <= a < b < after.len() implies after[a].0
                        != after[b].0 by {
                        assert(before[i as int].0 == name_view);
                    }
                    assert(entries@.map_values(|e: (String, V)| (e.0@, e.1)) =~= after);
                }
            },
            None => {
                entries.push((name, value));
                proof {
                    let after = before.push((name_view, value));
                    assert forall|a: int, b: int| 0 <= a < b < after.len() implies after[a].0
                        != after[b].0 by {
                        if b == before.len() && before[a].0 == name_view {
                            lemma_first_exists(before, name_view, a);
                        }
                    }
                    assert(entries@.map_values(|e: (String, V)| (e.0@, e.1)) =~= after);
                }
            },
        }
        self.entries = entries;
    }

    /// The name and the value of the node at position `i`.
    pub fn entry_at(&self, i: usize) -> (e: (&String, &V))
        requires
            i < self@.len(),
        ensures
            e.0@ == self@[i as int].0,
            *e.1 == self@[i as int].1,
    {
        let e = &self.entries[i];
        (&e.0, &e.1)
    }

    /// The names of the nodes, in order.
    pub fn keys(&self) -> (r: Vec<String>)
        ensures
            r@.len() == self@.len(),
            forall|i: int| 0 <= i < r@.len() ==> #[trigger] r@[i]@ == self@[i].0,
    {
        let mut r: Vec<String> = Vec::new();
        let mut i: usize = 0;
        while i < self.entries.len()
            invariant
                i <= self.entries@.len(),
                self@.len() == self.entries@.len(),
                r@.len() == i,
                forall|k: int| 0 <= k < i ==> #[trigger] r@[k]@ == self@[k].0,
            decreases self.entries@.len() - i,
        {
            r.push(self.entries[i].0.clone());
            i = i + 1;
        }
        r
    }
}

/// A socket address as plain values: an IPv4 or IPv6 address and a port.
#[derive(Clone, Copy, Debug, PartialEq, Eq)]
pub enum SocketAddress {
    /// An IPv4 address `a.b.c.d:port`.
    V4 { octets: [u8; 4], port: u16 },
    /// An IPv6 address with its flow information and scope id.
    V6 { segments: [u16; 8], port: u16, flowinfo: u32, scope_id: u32 },
}

/// The port of an address.
pub open spec fn port_of(a: SocketAddress) -> u16 {
    match a {
        SocketAddress::V4 { port, .. } => port,
        SocketAddress::V6 { port, .. } => port,
    }
}

impl SocketAddress {
    /// The port of the address.
    pub fn port(&self) -> (p: u16)
        ensures
            p == port_of(*self),
    {
        match self {
            SocketAddress::V4 { port, .. } => *port,
            SocketAddress::V6 { port, .. } => *port,
        }
    }
}

/// Server configuration: listens for incoming connections.
#[derive(Clone, Debug)]
pub struct ServerConfig {
    /// Port to listen on.
    pub port: u16,
    /// Target clients/servers to forward data to.
    pub target: Vec<String>,
}

/// Client configuration: connects to a remote server.
#[derive(Clone, Debug)]
pub struct ClientConfig {
    /// Remote address to connect to.
    pub addr: SocketAddress,
    /// Target clients/servers to forward data to.
    pub target: Vec<String>,
}

/// Root configuration: the servers and the clients, by name.
#[derive(Debug)]
pub struct Config {
    /// Server configurations.
    pub server: NodeMap<ServerConfig>,
    /// Client configurations.
    pub client: NodeMap<ClientConfig>,
}

/// The two kinds of node.
#[derive(Clone, Copy, Debug, PartialEq, Eq, Structural)]
pub enum NodeKind {
    /// A node that listens for connections.
    Server,
    /// A node that connects to a remote address.
    Client,
}

/// Why a configuration was rejected.
#[derive(Debug)]
pub enum ConfigError {
    /// The node `node` of kind `kind` forwards to `target`, which is not a
    /// configured node.
    UnknownTarget { kind: NodeKind, node: String, target: String },
    /// The node `node` of kind `kind` listens on, or connects to, port 0;
    /// valid ports are 1 to 65535.
    InvalidPort { kind: NodeKind, node: String },
}

/// The word that starts an error message about a node of kind `kind`.
pub open spec fn kind_word(kind: NodeKind) -> Seq<char> {
    match kind {
        NodeKind::Server => "Server"@,
        NodeKind::Client => "Client"@,
    }
}

impl ConfigError {
    /// The text of the error.
    pub open spec fn spec_message(&self) -> Seq<char> {
        match self {
            ConfigError::UnknownTarget { kind, node, target } => kind_word(*kind) + " '"@ + node@
                + "' references unknown target '"@ + target@ + "'"@,
            ConfigError::InvalidPort { kind, node } => kind_word(*kind) + " '"@ + node@
                + "' has invalid port 0 (valid ports are 1-65535)"@,
        }
    }

    /// The kind of node the error is about.
    pub open spec fn kind(&self) -> NodeKind {
        match self {
            ConfigError::UnknownTarget { kind, .. } => *kind,
            ConfigError::InvalidPort { kind, .. } => *kind,
        }
    }

    /// The text of the error, e.g. `Server 'a' references unknown target 'b'`.
    pub fn message(&self) -> (s: String)
        ensures
            s@ == self.spec_message(),
    {
        match self {
            ConfigError::InvalidPort { kind, node } => {
                let mut s = match kind {
                    NodeKind::Server => String::from_str("Server"),
                    NodeKind::Client => String::from_str("Client"),
                };
                s.append(" '");
                s.append(node.as_str());
                s.append("' has invalid port 0 (valid ports are 1-65535)");
                s
            },
            ConfigError::UnknownTarget { kind, node, target } => {
                let mut s = match kind {
                    NodeKind::Server => String::from_str("Server"),
                    NodeKind::Client => String::from_str("Client"),
                };
                s.append(" '");
                s.append(node.as_str());
                s.append("' references unknown target '");
                s.append(target.as_str());
                s.append("'");
                s
            },
        }
    }
}

impl Config {
    /// Whether `name` is the name of a configured server or client.
    pub open spec fn is_node(&self, name: Seq<char>) -> bool {
        has_key(self.server@, name) || has_key(self.client@, name)
    }

    /// Whether every name in `targets` is the name of a configured node.
    pub open spec fn all_nodes(&self, targets: Seq<String>) -> bool {
        forall|j: int| 0 <= j < targets.len() ==> self.is_node(#[trigger] targets[j]@)
    }

    /// Whether a server listens on a valid port and forwards only to
    /// configured nodes.
    pub open spec fn server_ok(&self, s: ServerConfig) -> bool {
        s.port != 0 && self.all_nodes(s.target@)
    }

    /// Whether a client connects to a valid port and forwards only to
    /// configured nodes.
    pub open spec fn client_ok(&self, c: ClientConfig) -> bool {
        port_of(c.addr) != 0 && self.all_nodes(c.target@)
    }

    /// Whether every server is valid.
    pub open spec fn servers_ok(&self) -> bool {
        forall|i: int| 0 <= i < self.server@.len() ==> self.server_ok(#[trigger] self.server@[i].1)
    }

    /// Whether every client is valid.
    pub open spec fn clients_ok(&self) -> bool {
        forall|i: int| 0 <= i < self.client@.len() ==> self.client_ok(#[trigger] self.client@[i].1)
    }

    /// Whether the configuration is valid: every port is in 1..=65535 and
    /// every target of every node names a configured node.
    pub open spec fn valid(&self) -> bool {
        self.servers_ok() && self.clients_ok()
    }

    /// Whether every target of every node names a configured node.
    pub open spec fn targets_known(&self) -> bool {
        &&& forall|i: int| 0 <= i < self.server@.len() ==> self.all_nodes(#[trigger] self.server@[i].1.target@)
        &&& forall|i: int| 0 <= i < self.client@.len() ==> self.all_nodes(#[trigger] self.client@[i].1.target@)
    }

    /// Whether server `i` is the first server that is not valid.
    pub open spec fn first_bad_server(&self, i: int) -> bool {
        &&& 0 <= i < self.server@.len()
        &&& !self.server_ok(self.server@[i].1)
        &&& forall|k: int| 0 <= k < i ==> self.server_ok(#[trigger] self.server@[k].1)
    }

    /// Whether every server is valid and client `i` is the first client that
    /// is not.
    pub open spec fn first_bad_client(&self, i: int) -> bool {
        &&& self.servers_ok()
        &&& 0 <= i < self.client@.len()
        &&& !self.client_ok(self.client@[i].1)
        &&& forall|k: int| 0 <= k < i ==> self.client_ok(#[trigger] self.client@[k].1)
    }

    /// Whether `targets[j]` is `target`, the first target in the list that
    /// names no configured node.
    pub open spec fn first_unknown(&self, targets: Seq<String>, j: int, target: Seq<char>) -> bool {
        &&& 0 <= j < targets.len()
        &&& targets[j]@ == target
        &&& !self.is_node(target)
        &&& forall|k: int| 0 <= k < j ==> self.is_node(#[trigger] targets[k]@)
    }

    /// Whether `e` reports what is wrong with the first node that is not
    /// valid, servers before clients: a port of 0, else its first target that
    /// names no node.
    pub open spec fn reports(&self, e: ConfigError) -> bool {
        match e {
            ConfigError::InvalidPort { kind, node } => match kind {
                NodeKind::Server => exists|i: int|
                    self.first_bad_server(i) && #[trigger] self.server@[i].0 == node@ && self.server@[i].1.port == 0,
                NodeKind::Client => exists|i: int|
                    self.first_bad_client(i) && #[trigger] self.client@[i].0 == node@ && port_of(
                        self.client@[i].1.addr,
                    ) == 0,
            },
            ConfigError::UnknownTarget { kind, node, target } => match kind {
                NodeKind::Server => exists|i: int, j: int|
                    self.first_bad_server(i) && #[trigger] self.server@[i].0 == node@ && self.server@[i].1.port != 0
                        && #[trigger] self.first_unknown(self.server@[i].1.target@, j, target@),
                NodeKind::Client => exists|i: int, j: int|
                    self.first_bad_client(i) && #[trigger] self.client@[i].0 == node@ && port_of(
                        self.client@[i].1.addr,
                    ) != 0 && #[trigger] self.first_unknown(self.client@[i].1.target@, j, target@),
            },
        }
    }

    /// Whether every server and every client, looked up by name, is valid.
    pub open spec fn named_valid(&self) -> bool {
        &&& forall|n: Seq<char>| #[trigger] lookup(self.server@, n) is Some ==> self.server_ok(
            lookup(self.server@, n)->0,
        )
        &&& forall|n: Seq<char>| #[trigger] lookup(self.client@, n) is Some ==> self.client_ok(
            lookup(self.client@, n)->0,
        )
    }

    /// Whether `e` names a node of its kind, looked up by name, that has port
    /// 0, or one of whose targets is `e`'s target, which is not a configured
    /// node.
    pub open spec fn reports_by_name(&self, e: ConfigError) -> bool {
        match e {
            ConfigError::InvalidPort { kind, node } => match kind {
                NodeKind::Server => lookup(self.server@, node@) matches Some(s) && s.port == 0,
                NodeKind::Client => lookup(self.client@, node@) matches Some(c) && port_of(c.addr) == 0,
            },
            ConfigError::UnknownTarget { kind, node, target } => {
                &&& !self.is_node(target@)
                &&& match kind {
                    NodeKind::Server => lookup(self.server@, node@) matches Some(s)
                        && exists|j: int| 0 <= j < s.target@.len() && #[trigger] s.target@[j]@ == target@,
                    NodeKind::Client => lookup(self.client@, node@) matches Some(c)
                        && exists|j: int| 0 <= j < c.target@.len() && #[trigger] c.target@[j]@ == target@,
                }
            },
        }
    }

    /// With unique names, checking every entry and checking every name looked
    /// up are the same.
    proof fn lemma_named_valid(&self)
        requires
            keys_unique(self.server@),
            keys_unique(self.client@),
        ensures
            self.valid() <==> self.named_valid(),
    {
        if self.valid() {
            assert forall|n: Seq<char>| #[trigger] lookup(self.server@, n) is Some implies self.server_ok(
                lookup(self.server@, n)->0,
            ) by {
                lemma_position_found(self.server@, n);
            }
            assert forall|n: Seq<char>| #[trigger] lookup(self.client@, n) is Some implies self.client_ok(
                lookup(self.client@, n)->0,
            ) by {
                lemma_position_found(self.client@, n);
            }
        }
        if self.named_valid() {
            assert forall|i: int| 0 <= i < self.server@.len() implies self.server_ok(
                #[trigger] self.server@[i].1,
            ) by {
                lemma_entry_found(self.server@, i);
                assert(lookup(self.server@, self.server@[i].0) is Some);
            }
            assert forall|i: int| 0 <= i < self.client@.len() implies self.client_ok(
                #[trigger] self.client@[i].1,
            ) by {
                lemma_entry_found(self.client@, i);
                assert(lookup(self.client@, self.client@[i].0) is Some);
            }
        }
    }

    /// A configuration is valid exactly when every server port and every
    /// client address port is non-zero and every target of every server and
    /// every client is the name of a configured server or client.
    pub proof fn law_valid_means_ports_and_targets(&self)
        ensures
            self.valid() <==> (forall|i: int, j: int| #![trigger self.server@[i].1.target@[j]]
            0 <= i < self.server@.len() && 0 <= j < self.server@[i].1.target@.len() ==> has_key(
                self.server@,
                self.server@[i].1.target@[j]@,
            ) || has_key(self.client@, self.server@[i].1.target@[j]@))
            && (forall|i: int, j: int| #![trigger self.client@[i].1.target@[j]]
            0 <= i < self.client@.len() && 0 <= j < self.client@[i].1.target@.len() ==> has_key(
                self.server@,
                self.client@[i].1.target@[j]@,
            ) || has_key(self.client@, self.client@[i].1.target@[j]@))
            && (forall|i: int| 0 <= i < self.server@.len() ==> #[trigger] self.server@[i].1.port != 0)
            && (forall|i: int| 0 <= i < self.client@.len() ==> port_of(#[trigger] self.client@[i].1.addr) != 0),
    {
    }

    fn is_node_name(&self, name: &str) -> (b: bool)
        ensures
            b == self.is_node(name@),
    {
        self.server.contains_key(name) || self.client.contains_key(name)
    }

    /// The position of the first target that names no configured node, if any.
    fn first_unknown_target(&self, targets: &Vec<String>) -> (r: Option<usize>)
        ensures
            r matches Some(j) ==> self.first_unknown(targets@, j as int, targets@[j as int]@),
            r is None ==> self.all_nodes(targets@),
    {
        let mut j: usize = 0;
        while j < targets.len()
            invariant
                j <= targets@.len(),
                forall|k: int| 0 <= k < j ==> self.is_node(#[trigger] targets@[k]@),
            decreases targets@.len() - j,
        {
            if !self.is_node_name(targets[j].as_str()) {
                return Some(j);
            }
            j = j + 1;
        }
        None
    }

    /// Checks that every node uses a valid port (1 to 65535) and that every
    /// target of every node names a configured node. The servers are checked
    /// before the clients, each node's port before its targets.
    #[verifier::loop_isolation(false)]
    pub fn validate(&self) -> (r: Result<(), ConfigError>)
        ensures
            r is Ok <==> self.valid(),
            r is Ok <==> self.named_valid(),
            r is Ok <==> (forall|i: int, j: int| #![trigger self.server@[i].1.target@[j]]
                0 <= i < self.server@.len() && 0 <= j < self.server@[i].1.target@.len() ==> has_key(
                    self.server@,
                    self.server@[i].1.target@[j]@,
                ) || has_key(self.client@, self.server@[i].1.target@[j]@))
                && (forall|i: int, j: int| #![trigger self.client@[i].1.target@[j]]
                0 <= i < self.client@.len() && 0 <= j < self.client@[i].1.target@.len() ==> has_key(
                    self.server@,
                    self.client@[i].1.target@[j]@,
                ) || has_key(self.client@, self.client@[i].1.target@[j]@))
                && (forall|i: int| 0 <= i < self.server@.len() ==> #[trigger] self.server@[i].1.port != 0)
                && (forall|i: int| 0 <= i < self.client@.len() ==> port_of(#[trigger] self.client@[i].1.addr) != 0),
            r is Ok ==> self.targets_known(),
            r matches Err(e) ==> self.reports(e),
            r matches Err(e) ==> self.reports_by_name(e),
            r matches Err(e) ==> (e.kind() == NodeKind::Server <==> !self.servers_ok()),
    {
        proof {
            use_type_invariant(&self.server);
            use_type_invariant(&self.client);
            self.lemma_named_valid();
            self.law_valid_means_ports_and_targets();
        }
        let mut i: usize = 0;
        while i < self.server.entries.len()
            invariant
                i <= self.server@.len(),
                self.server@.len() == self.server.entries@.len(),
                forall|k: int| 0 <= k < i ==> self.server_ok(#[trigger] self.server@[k].1),
            decreases self.server@.len() - i,
        {
            let entry = &self.server.entries[i];
            assert(self.server@[i as int].1 == entry.1 && self.server@[i as int].0 == entry.0@);
            proof {
                lemma_entry_found(self.server@, i as int);
            }
            if entry.1.port == 0 {
                let e = ConfigError::InvalidPort { kind: NodeKind::Server, node: entry.0.clone() };
                assert(self.first_bad_server(i as int));
                assert(self.reports(e));
                assert(lookup(self.server@, e->InvalidPort_node@) == Some(self.server@[i as int].1));
                return Err(e);
            }
            if let Some(j) = self.first_unknown_target(&entry.1.target) {
                let e = ConfigError::UnknownTarget {
                    kind: NodeKind::Server,
                    node: entry.0.clone(),
                    target: entry.1.target[j].clone(),
                };
                assert(self.first_bad_server(i as int));
                assert(self.first_unknown(self.server@[i as int].1.target@, j as int, e->UnknownTarget_target@));
                assert(self.reports(e));
                assert(lookup(self.server@, e->UnknownTarget_node@) == Some(self.server@[i as int].1));
                assert(lookup(self.server@, e->UnknownTarget_node@)->0.target@[j as int]@
                    == e->UnknownTarget_target@);
                assert(self.reports_by_name(e));
                return Err(e);
            }
            i = i + 1;
        }
        let mut i: usize = 0;
        while i < self.client.entries.len()
            invariant
                i <= self.client@.len(),
                self.client@.len() == self.client.entries@.len(),
                self.servers_ok(),
                forall|k: int| 0 <= k < i ==> self.client_ok(#[trigger] self.client@[k].1),
            decreases self.client@.len() - i,
        {
            let entry = &self.client.entries[i];
            assert(self.client@[i as int].1 == entry.1 && self.client@[i as int].0 == entry.0@);
            proof {
                lemma_entry_found(self.client@, i as int);
            }
            if entry.1.addr.port() == 0 {
                let e = ConfigError::InvalidPort { kind: NodeKind::Client, node: entry.0.clone() };
                assert(self.first_bad_client(i as int));
                assert(self.reports(e));
                assert(lookup(self.client@, e->InvalidPort_node@) == Some(self.client@[i as int].1));
                return Err(e);
            }
            if let Some(j) = self.first_unknown_target(&entry.1.target) {
                let e = ConfigError::UnknownTarget {
                    kind: NodeKind::Client,
                    node: entry.0.clone(),
                    target: entry.1.target[j].clone(),
                };
                assert(self.first_bad_client(i as int));
                assert(self.first_unknown(self.client@[i as int].1.target@, j as int, e->UnknownTarget_target@));
                assert(self.reports(e));
                assert(lookup(self.client@, e->UnknownTarget_node@) == Some(self.client@[i as int].1));
                assert(lookup(self.client@, e->UnknownTarget_node@)->0.target@[j as int]@
                    == e->UnknownTarget_target@);
                assert(self.reports_by_name(e));
                return Err(e);
            }
            i = i + 1;
        }
        Ok(())
    }
}

} // verus!
