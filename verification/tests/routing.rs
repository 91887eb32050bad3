use tcplex::config::{ClientConfig, Config, NodeMap, ServerConfig, SocketAddress};
use tcplex::network::{hex_preview, read_step, ConnectionId, NodeStart, ReadStep, RoutingTable, ServerConnections};
use tcplex::Router;

fn names(list: &[&str]) -> Vec<String> {
    list.iter().map(|s| s.to_string()).collect()
}

fn ced_config() -> Config {
    let mut server = NodeMap::new();
    server.insert("cedA".to_string(), ServerConfig { port: 8001, target: names(&["master"]) });
    server.insert("cedB".to_string(), ServerConfig { port: 8002, target: names(&["master"]) });
    let mut client = NodeMap::new();
    client.insert(
        "master".to_string(),
        ClientConfig {
            addr: SocketAddress::V4 { octets: [10, 20, 0, 50], port: 64646 },
            target: names(&["cedA", "cedB"]),
        },
    );
    Config { server, client }
}

fn server_id(name: &str, n: u32) -> ConnectionId {
    ConnectionId::Server { name: name.to_string(), connection_num: n }
}

#[test]
fn targets_follow_the_configuration() {
    let router = Router::new(ced_config());
    assert_eq!(router.get_targets("cedA"), vec!["master"]);
    assert_eq!(router.get_targets("master"), vec!["cedA", "cedB"]);
    assert!(router.get_targets("unknown").is_empty());
    assert_eq!(router.config().server.len(), 2);
}

#[test]
fn server_targets_take_precedence_over_a_client_of_the_same_name() {
    let mut server = NodeMap::new();
    server.insert("x".to_string(), ServerConfig { port: 1, target: names(&["x"]) });
    let mut client = NodeMap::new();
    client.insert(
        "x".to_string(),
        ClientConfig { addr: SocketAddress::V4 { octets: [127, 0, 0, 1], port: 2 }, target: vec![] },
    );
    let router = Router::new(Config { server, client });
    assert_eq!(router.get_targets("x"), vec!["x"]);
}

#[test]
fn servers_start_before_clients() {
    let router = Router::new(ced_config());
    let plan = router.startup_plan();
    assert_eq!(plan.len(), 3);
    assert!(matches!(&plan[0], NodeStart::Server { name, port: 8001 } if name == "cedA"));
    assert!(matches!(&plan[1], NodeStart::Server { name, port: 8002 } if name == "cedB"));
    assert!(matches!(&plan[2], NodeStart::Client { name, addr } if name == "master" && addr.port() == 64646));
}

#[test]
fn connection_ids_match_their_node() {
    let c = ConnectionId::Client("master".to_string());
    let s = server_id("hub", 3);
    assert!(c.matches_target("master"));
    assert!(!c.matches_target("mast"));
    assert!(s.matches_target("hub"));
    assert!(!s.matches_target("hub-3"));
    assert_eq!(c.base_name(), "master");
    assert_eq!(s.base_name(), "hub");
    assert_eq!(c.to_string(), "master");
    assert_eq!(s.to_string(), "hub-3");
    assert_eq!(server_id("n", 4294967295).to_string(), "n-4294967295");
    assert!(s.same_as(&server_id("hub", 3)));
    assert!(!s.same_as(&server_id("hub", 4)));
    assert!(!c.same_as(&ConnectionId::Client("hub".to_string())));
}

#[test]
fn server_connections_are_numbered_from_one() {
    let mut conns = ServerConnections::new("hub".to_string());
    let first = conns.accept();
    let second = conns.accept();
    assert_eq!(first.to_string(), "hub-1");
    assert_eq!(second.to_string(), "hub-2");
    assert!(!first.same_as(&second));
    assert_eq!(conns.accepted, 2);
}

#[test]
fn data_for_a_server_reaches_all_its_connections() {
    let mut table: RoutingTable<&str> = RoutingTable::new();
    table.register(server_id("hub", 1), "h1");
    table.register(ConnectionId::Client("client".to_string()), "c");
    table.register(server_id("hub", 2), "h2");
    table.register(server_id("hub", 3), "h3");
    assert_eq!(table.len(), 4);
    let hub = table.connections_for("hub");
    assert_eq!(hub, vec![0, 2, 3]);
    let nodes: Vec<&str> = hub.iter().map(|i| *table.node_at(*i)).collect();
    assert_eq!(nodes, vec!["h1", "h2", "h3"]);
    assert_eq!(table.connections_for("client"), vec![1]);
    assert!(table.connections_for("sink").is_empty());
    assert_eq!(table.id_at(1).to_string(), "client");
}

#[test]
fn register_replaces_and_unregister_removes() {
    let mut table: RoutingTable<u32> = RoutingTable::new();
    assert!(table.is_empty());
    assert_eq!(table.register(ConnectionId::Client("c".to_string()), 1), None);
    assert_eq!(table.register(ConnectionId::Client("c".to_string()), 2), Some(1));
    assert_eq!(table.len(), 1);
    assert_eq!(*table.node_at(0), 2);
    assert!(table.contains(&ConnectionId::Client("c".to_string())));
    assert_eq!(table.unregister(&ConnectionId::Client("c".to_string())), Some(2));
    assert!(!table.contains(&ConnectionId::Client("c".to_string())));
    assert_eq!(table.unregister(&ConnectionId::Client("c".to_string())), None);
    assert!(table.is_empty());
}

#[test]
fn register_then_unregister_restores_the_table() {
    let mut table: RoutingTable<u32> = RoutingTable::new();
    table.register(server_id("a", 1), 10);
    table.register(server_id("b", 1), 20);
    table.register(server_id("a", 2), 30);
    table.unregister(&server_id("a", 2));
    assert_eq!(table.len(), 2);
    assert_eq!(table.connections_for("a"), vec![0]);
    assert_eq!(*table.node_at(0), 10);
    assert_eq!(*table.node_at(1), 20);
    table.unregister(&server_id("a", 1));
    assert_eq!(table.connections_for("a"), Vec::<usize>::new());
    assert_eq!(table.connections_for("b"), vec![0]);
}

#[test]
fn hex_preview_shows_prefix_and_length() {
    assert_eq!(hex_preview(b"Hello", 32), "48656c6c6f (5 bytes)");
    assert_eq!(hex_preview(&[0x00, 0xff, 0x10, 0xab], 2), "00ff... (4 bytes total)");
    assert_eq!(hex_preview(&[0xab, 0xcd], 2), "abcd (2 bytes)");
    assert_eq!(hex_preview(&[], 32), " (0 bytes)");
    assert_eq!(hex_preview(&[1, 2, 3], 0), "... (3 bytes total)");
    let big = vec![0x7fu8; 1234];
    let p = hex_preview(&big, 32);
    assert_eq!(p, format!("{}... (1234 bytes total)", "7f".repeat(32)));
}

#[test]
fn reads_decide_forward_close_or_fail() {
    let buffer = [1u8, 2, 3, 4];
    assert!(matches!(read_step(&buffer, Ok(0)), ReadStep::Closed));
    assert!(matches!(read_step(&buffer, Err(())), ReadStep::Failed));
    match read_step(&buffer, Ok(3)) {
        ReadStep::Forward(data) => assert_eq!(data, vec![1, 2, 3]),
        other => panic!("unexpected {other:?}"),
    }
    match read_step(&buffer, Ok(4)) {
        ReadStep::Forward(data) => assert_eq!(data, vec![1, 2, 3, 4]),
        other => panic!("unexpected {other:?}"),
    }
}

#[test]
fn targets_of_a_valid_config_are_nodes() {
    let router = Router::new(ced_config());
    assert!(router.config().validate().is_ok());
    for name in ["cedA", "cedB", "master"] {
        for t in router.get_targets(name) {
            assert!(router.config().server.contains_key(&t) || router.config().client.contains_key(&t));
        }
    }
}

#[test]
fn read_chunks_concatenate_to_the_stream() {
    let mut buffer = [0u8; 4];
    let mut forwarded: Vec<u8> = Vec::new();
    let reads: Vec<(Vec<u8>, Result<usize, ()>)> =
        vec![(vec![1, 2, 3, 4], Ok(4)), (vec![5, 6, 0, 0], Ok(2)), (vec![0; 4], Ok(0)), (vec![9; 4], Ok(4))];
    for (bytes, result) in reads {
        buffer.copy_from_slice(&bytes);
        match read_step(&buffer, result) {
            ReadStep::Forward(chunk) => {
                assert!(!chunk.is_empty() && chunk.len() <= buffer.len());
                forwarded.extend(chunk);
            }
            _ => break,
        }
    }
    assert_eq!(forwarded, vec![1, 2, 3, 4, 5, 6]);
}
