use tcplex::config::{ClientConfig, Config, ConfigError, NodeKind, NodeMap, ServerConfig, SocketAddress};

fn names(list: &[&str]) -> Vec<String> {
    list.iter().map(|s| s.to_string()).collect()
}

fn server(port: u16, targets: &[&str]) -> ServerConfig {
    ServerConfig { port, target: names(targets) }
}

fn client(octets: [u8; 4], port: u16, targets: &[&str]) -> ClientConfig {
    ClientConfig { addr: SocketAddress::V4 { octets, port }, target: names(targets) }
}

fn config(servers: Vec<(&str, ServerConfig)>, clients: Vec<(&str, ClientConfig)>) -> Config {
    let mut server = NodeMap::new();
    for (name, s) in servers {
        server.insert(name.to_string(), s);
    }
    let mut client = NodeMap::new();
    for (name, c) in clients {
        client.insert(name.to_string(), c);
    }
    Config { server, client }
}

#[test]
fn basic_config_is_valid() {
    let c = config(
        vec![("ced", server(8000, &["masterA", "masterB"]))],
        vec![
            ("masterA", client([10, 0, 0, 1], 8000, &["ced"])),
            ("masterB", client([10, 0, 0, 5], 8000, &["ced"])),
        ],
    );
    assert!(c.validate().is_ok());
    assert_eq!(c.server.len(), 1);
    assert_eq!(c.client.len(), 2);
    let ced = c.server.get("ced").unwrap();
    assert_eq!(ced.port, 8000);
    assert_eq!(ced.target, vec!["masterA", "masterB"]);
    let master_a = c.client.get("masterA").unwrap();
    assert_eq!(master_a.addr, SocketAddress::V4 { octets: [10, 0, 0, 1], port: 8000 });
    assert_eq!(master_a.addr.port(), 8000);
    assert_eq!(master_a.target, vec!["ced"]);
}

#[test]
fn unknown_server_target_is_rejected() {
    let c = config(vec![("ced", server(8000, &["nonexistent"]))], vec![]);
    let err = c.validate().unwrap_err();
    let ConfigError::UnknownTarget { kind, node, target } = &err else { panic!("expected an unknown target") };
    assert_eq!(*kind, NodeKind::Server);
    assert_eq!(node, "ced");
    assert_eq!(target, "nonexistent");
    assert_eq!(err.message(), "Server 'ced' references unknown target 'nonexistent'");
    assert!(err.message().contains("unknown target"));
}

#[test]
fn unknown_client_target_is_rejected() {
    let c = config(
        vec![("hub", server(9000, &["spoke"]))],
        vec![("spoke", client([10, 0, 0, 1], 8000, &["hub", "ghost"]))],
    );
    let err = c.validate().unwrap_err();
    assert_eq!(err.message(), "Client 'spoke' references unknown target 'ghost'");
}

#[test]
fn servers_are_checked_before_clients() {
    let c = config(
        vec![("a", server(9000, &["x"]))],
        vec![("b", client([10, 0, 0, 1], 8000, &["y"]))],
    );
    let err = c.validate().unwrap_err();
    assert_eq!(err.message(), "Server 'a' references unknown target 'x'");
}

#[test]
fn circular_references_are_allowed() {
    let c = config(
        vec![
            ("node1", server(9001, &["node2"])),
            ("node2", server(9002, &["node3"])),
            ("node3", server(9003, &["node1"])),
        ],
        vec![],
    );
    assert!(c.validate().is_ok());
}

#[test]
fn bidirectional_and_mixed_targets_are_allowed() {
    let c = config(
        vec![("server1", server(9001, &["client1", "server2"])), ("server2", server(9002, &["client1"]))],
        vec![("client1", client([127, 0, 0, 1], 9003, &["server1"]))],
    );
    assert!(c.validate().is_ok());
    let s1 = c.server.get("server1").unwrap();
    assert!(s1.target.contains(&"client1".to_string()));
    assert!(s1.target.contains(&"server2".to_string()));
}

#[test]
fn empty_config_and_sink_are_valid() {
    assert!(config(vec![], vec![]).validate().is_ok());
    let c = config(vec![("source", server(1, &["sink"])), ("sink", server(2, &[]))], vec![]);
    assert!(c.validate().is_ok());
}

#[test]
fn node_map_insert_replaces_by_name() {
    let mut m: NodeMap<u16> = NodeMap::new();
    assert!(m.is_empty());
    m.insert("a".to_string(), 1);
    m.insert("b".to_string(), 2);
    m.insert("a".to_string(), 3);
    assert_eq!(m.len(), 2);
    assert_eq!(m.get("a"), Some(&3));
    assert_eq!(m.get("b"), Some(&2));
    assert_eq!(m.get("c"), None);
    assert!(m.contains_key("b"));
    assert!(!m.contains_key("c"));
    assert_eq!(m.keys(), vec!["a".to_string(), "b".to_string()]);
    let (name, value) = m.entry_at(1);
    assert_eq!(name, "b");
    assert_eq!(*value, 2);
}

#[test]
fn the_first_unknown_target_is_reported() {
    let c = config(
        vec![("a", server(1, &["b", "x1", "x2"])), ("b", server(2, &["x3"]))],
        vec![],
    );
    assert_eq!(c.validate().unwrap_err().message(), "Server 'a' references unknown target 'x1'");
}

#[test]
fn server_port_zero_is_rejected() {
    let c = config(vec![("gateway", server(0, &[]))], vec![]);
    let err = c.validate().unwrap_err();
    assert!(matches!(&err, ConfigError::InvalidPort { kind: NodeKind::Server, node } if node == "gateway"));
    assert_eq!(err.message(), "Server 'gateway' has invalid port 0 (valid ports are 1-65535)");
}

#[test]
fn client_port_zero_is_rejected() {
    let c = config(
        vec![("hub", server(9000, &["spoke"]))],
        vec![("spoke", client([10, 0, 0, 1], 0, &["hub"]))],
    );
    let err = c.validate().unwrap_err();
    assert_eq!(err.message(), "Client 'spoke' has invalid port 0 (valid ports are 1-65535)");
}

#[test]
fn port_is_checked_before_targets_and_port_65535_is_valid() {
    let c = config(vec![("a", server(0, &["ghost"]))], vec![]);
    assert_eq!(c.validate().unwrap_err().message(), "Server 'a' has invalid port 0 (valid ports are 1-65535)");
    let ok = config(vec![("a", server(65535, &["b"]))], vec![("b", client([10, 0, 0, 1], 1, &[]))]);
    assert!(ok.validate().is_ok());
}
