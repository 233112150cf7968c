use ciruela::progress::PeerAddr;
use ciruela::remote::{connections_to_notify, ConnSet, Connections};

fn addr(last: u8) -> PeerAddr {
    PeerAddr { ip: last as u128, port: 24783, v6: false, flowinfo: 0, scope_id: 0 }
}

#[test]
fn conn_set_basics() {
    let mut s = ConnSet::new();
    assert_eq!(s.first(), None);
    assert!(s.insert(5));
    assert!(!s.insert(5));
    assert!(s.insert(7));
    let f = s.first().unwrap();
    assert!(f == 5 || f == 7);
    let mut all = s.to_vec();
    all.sort();
    assert_eq!(all, vec![5, 7]);
    assert!(s.remove(5));
    assert!(!s.remove(5));
    assert_eq!(s.first(), Some(7));
    assert!(s.contains(7));
    assert_eq!(s.to_vec(), vec![7]);
}

#[test]
fn notified_connections_are_those_holding_the_image() {
    assert_eq!(connections_to_notify(&vec![1, 2, 3, 4], &vec![true, false, false, true]), vec![1, 4]);
    assert!(connections_to_notify(&vec![1, 2], &vec![false, false]).is_empty());
    assert!(connections_to_notify(&vec![], &vec![]).is_empty());
}

#[test]
fn split_connected_separates_known_addresses() {
    let mut c = Connections::new();
    c.add_outgoing(addr(1), 10);
    c.add_outgoing(addr(3), 30);
    let addrs = [addr(1), addr(2), addr(3), addr(4)];
    let (conn, not_conn) = c.split_connected(&addrs, &[true, true, true, false]);
    assert_eq!(conn, vec![10, 30]);
    assert_eq!(not_conn, vec![addr(2)]);
    assert_eq!(c.outgoing_connection(&addr(3)), Some(30));
    assert_eq!(c.outgoing_connection(&addr(2)), None);
    c.add_outgoing(addr(3), 31);
    assert_eq!(c.outgoing_connection(&addr(3)), Some(31));
}

#[test]
fn declared_images_follow_their_connections() {
    let mut c = Connections::new();
    c.register_connection(1);
    c.register_connection(2);
    let img = vec![0xaa; 32];
    c.declare_image(img.clone(), 1);
    c.declare_image(img.clone(), 2);
    let first = c.get_incoming_connection_for_image(&img).unwrap();
    assert!(first == 1 || first == 2);
    assert!(!c.drop_token(1, &addr(9), 0, true, &vec![img.clone()]));
    assert_eq!(c.get_incoming_connection_for_image(&img), Some(2));
    assert!(c.drop_token(2, &addr(9), 1, true, &vec![img.clone()]));
    assert_eq!(c.get_incoming_connection_for_image(&img), None);
    assert!(c.incoming_connections().is_empty());
}

#[test]
fn dropping_an_outgoing_token_forgets_only_that_connection() {
    let mut c = Connections::new();
    c.add_outgoing(addr(1), 10);
    assert!(c.drop_token(11, &addr(1), 0, false, &vec![]));
    assert_eq!(c.outgoing_connection(&addr(1)), Some(10));
    assert!(!c.drop_token(10, &addr(1), 0, true, &vec![]));
    assert_eq!(c.outgoing_connection(&addr(1)), None);
}

#[test]
fn unknown_connection_keeps_declarations() {
    let mut c = Connections::new();
    c.register_connection(1);
    let img = vec![1, 2, 3];
    c.declare_image(img.clone(), 1);
    c.drop_token(5, &addr(1), 0, true, &vec![img.clone()]);
    assert_eq!(c.get_incoming_connection_for_image(&img), Some(1));
    assert_eq!(c.incoming_connections(), vec![1]);
}
