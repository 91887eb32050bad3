use tcplex::network::{deliver, forward_plan, ConnectionId, Node, RoutingTable};
use tokio::sync::broadcast;

fn server_id(name: &str, n: u32) -> ConnectionId {
    ConnectionId::Server { name: name.to_string(), connection_num: n }
}

#[test]
fn plan_covers_every_connection_of_each_target_in_order() {
    let mut table: RoutingTable<u8> = RoutingTable::new();
    table.register(server_id("hub", 1), 0);
    table.register(ConnectionId::Client("client".to_string()), 1);
    table.register(server_id("hub", 2), 2);
    let targets = vec!["client".to_string(), "hub".to_string(), "absent".to_string(), "client".to_string()];
    let plan = forward_plan(&table, &targets, b"abc");
    assert_eq!(
        plan,
        vec![
            (0, 1, b"abc".to_vec()),
            (1, 0, b"abc".to_vec()),
            (1, 2, b"abc".to_vec()),
            (3, 1, b"abc".to_vec()),
        ]
    );
    assert!(forward_plan(&table, &Vec::new(), b"abc").is_empty());
}

#[test]
fn packet_reaches_every_connection_of_each_target() {
    let (hub1_tx, mut hub1_rx) = broadcast::channel::<Vec<u8>>(16);
    let (hub2_tx, mut hub2_rx) = broadcast::channel::<Vec<u8>>(16);
    let (client_tx, mut client_rx) = broadcast::channel::<Vec<u8>>(16);
    let mut table = RoutingTable::new();
    table.register(server_id("hub", 1), Node::new(hub1_tx));
    table.register(ConnectionId::Client("client".to_string()), Node::new(client_tx));
    table.register(server_id("hub", 2), Node::new(hub2_tx));

    let targets = vec!["hub".to_string()];
    let plan = forward_plan(&table, &targets, b"Broadcast to all");
    assert_eq!(plan.len(), 2);
    let sent = deliver(&table, plan).0;
    assert_eq!(sent, vec![true, true]);
    assert_eq!(hub1_rx.try_recv().unwrap(), b"Broadcast to all".to_vec());
    assert_eq!(hub2_rx.try_recv().unwrap(), b"Broadcast to all".to_vec());
    assert!(client_rx.try_recv().is_err());
}

#[test]
fn only_targets_receive_and_missing_targets_get_nothing() {
    let (hub1_tx, mut hub1_rx) = broadcast::channel::<Vec<u8>>(16);
    let (hub2_tx, mut hub2_rx) = broadcast::channel::<Vec<u8>>(16);
    let (client_tx, mut client_rx) = broadcast::channel::<Vec<u8>>(16);
    let mut table = RoutingTable::new();
    table.register(server_id("hub", 1), Node::new(hub1_tx));
    table.register(server_id("hub", 2), Node::new(hub2_tx));
    table.register(ConnectionId::Client("client".to_string()), Node::new(client_tx));

    let targets = vec!["client".to_string(), "absent".to_string()];
    let plan = forward_plan(&table, &targets, b"From hub1");
    assert_eq!(plan, vec![(0, 2, b"From hub1".to_vec())]);
    assert_eq!(deliver(&table, plan).0, vec![true]);
    assert_eq!(client_rx.try_recv().unwrap(), b"From hub1".to_vec());
    assert!(hub1_rx.try_recv().is_err());
    assert!(hub2_rx.try_recv().is_err());
}

#[test]
fn sink_forwards_nowhere() {
    let (tx, mut rx) = broadcast::channel::<Vec<u8>>(16);
    let mut table = RoutingTable::new();
    table.register(server_id("source", 1), Node::new(tx));
    let plan = forward_plan(&table, &Vec::new(), b"From sink");
    assert!(plan.is_empty());
    assert!(deliver(&table, plan).0.is_empty());
    assert!(rx.try_recv().is_err());
}

#[test]
fn send_to_a_connection_without_receiver_fails() {
    let (tx, rx) = broadcast::channel::<Vec<u8>>(16);
    drop(rx);
    let mut table = RoutingTable::new();
    table.register(ConnectionId::Client("gone".to_string()), Node::new(tx));
    let plan = forward_plan(&table, &vec!["gone".to_string()], b"Lost message");
    assert_eq!(deliver(&table, plan).0, vec![false]);
}

#[test]
fn reconnected_client_receives_again() {
    let (old_tx, old_rx) = broadcast::channel::<Vec<u8>>(16);
    let mut table = RoutingTable::new();
    table.register(ConnectionId::Client("client".to_string()), Node::new(old_tx));
    drop(old_rx);
    table.unregister(&ConnectionId::Client("client".to_string()));
    let (new_tx, mut new_rx) = broadcast::channel::<Vec<u8>>(16);
    table.register(ConnectionId::Client("client".to_string()), Node::new(new_tx));
    let plan = forward_plan(&table, &vec!["client".to_string()], b"Test2");
    assert_eq!(deliver(&table, plan).0, vec![true]);
    assert_eq!(new_rx.try_recv().unwrap(), b"Test2".to_vec());
}
