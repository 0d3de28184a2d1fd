use gv_netcode::net::{
    broadcast_reliable, send_reliable, send_reliable_ordered, send_unreliable, NetConnection,
    PacketDelivery,
};

fn delivery_and_payload(connection: &NetConnection) -> Vec<(PacketDelivery, Vec<u8>)> {
    connection
        .outgoing
        .iter()
        .map(|p| (p.delivery, p.payload.clone()))
        .collect()
}

#[test]
fn each_send_queues_one_packet_with_its_delivery() {
    let mut connection = NetConnection::new();
    send_reliable(&mut connection, &[1, 2]);
    send_reliable_ordered(&mut connection, &[3]);
    send_unreliable(&mut connection, &[]);
    assert_eq!(
        delivery_and_payload(&connection),
        vec![
            (PacketDelivery::ReliableUnordered, vec![1, 2]),
            (PacketDelivery::ReliableOrdered, vec![3]),
            (PacketDelivery::Unreliable, vec![]),
        ]
    );
}

#[test]
fn broadcast_reaches_every_connection_once() {
    let mut connections = vec![NetConnection::new(), NetConnection::new(), NetConnection::new()];
    send_unreliable(&mut connections[1], &[9]);
    broadcast_reliable(&mut connections, &[7, 7]);
    assert_eq!(connections.len(), 3);
    assert_eq!(
        delivery_and_payload(&connections[0]),
        vec![(PacketDelivery::ReliableUnordered, vec![7, 7])]
    );
    assert_eq!(
        delivery_and_payload(&connections[1]),
        vec![
            (PacketDelivery::Unreliable, vec![9]),
            (PacketDelivery::ReliableUnordered, vec![7, 7])
        ]
    );
    assert_eq!(
        delivery_and_payload(&connections[2]),
        vec![(PacketDelivery::ReliableUnordered, vec![7, 7])]
    );
}

#[test]
fn broadcast_to_no_connection_does_nothing() {
    let mut connections: Vec<NetConnection> = Vec::new();
    broadcast_reliable(&mut connections, &[1]);
    assert!(connections.is_empty());
}
