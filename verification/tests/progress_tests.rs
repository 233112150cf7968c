use ciruela::progress::{AddrSet, ClosedAction, ImageAction, PeerAddr, Progress};

fn addr(last: u8, port: u16) -> PeerAddr {
    PeerAddr { ip: 0x7f00_0000 | last as u128, port, v6: false, flowinfo: 0, scope_id: 0 }
}

#[test]
fn addr_set_behaves_as_a_set() {
    let mut s = AddrSet::new();
    assert!(s.is_empty());
    assert!(s.insert(addr(1, 24783)));
    assert!(!s.insert(addr(1, 24783)));
    assert!(s.insert(addr(2, 24783)));
    assert!(s.insert(addr(1, 80)));
    assert_eq!(s.len(), 3);
    assert!(s.contains(&addr(2, 24783)));
    assert!(s.remove(&addr(2, 24783)));
    assert!(!s.remove(&addr(2, 24783)));
    assert!(!s.contains(&addr(2, 24783)));
    assert_eq!(s.len(), 2);
}

#[test]
fn upload_finishes_when_every_address_reported() {
    let mut p = Progress::new();
    let a = addr(1, 24783);
    let b = addr(2, 24783);
    p.need_ip(a);
    p.need_ip(b);
    let r = p.received_image(&a, 100, "alpha".to_string(), false);
    assert_eq!(r, ImageAction::Fetching { hosts_done: 1, ids_needed: 0, ips_needed: 1 });
    let r = p.received_image(&b, 200, "beta".to_string(), false);
    assert_eq!(r, ImageAction::AllFetched { hosts_done: 2, send_done: true });
    // a late notice does not signal again
    let r = p.received_image(&b, 300, "gamma".to_string(), false);
    assert_eq!(r, ImageAction::AllFetched { hosts_done: 3, send_done: false });
    assert!(p.is_ok());
    let mut names = p.hosts_done_names();
    names.sort();
    assert_eq!(names, vec!["alpha", "beta", "gamma"]);
    assert_eq!(p.hosts_done_count(), 3);
}

#[test]
fn forwarded_notice_does_not_settle_the_address() {
    let mut p = Progress::new();
    let a = addr(1, 24783);
    p.need_ip(a);
    let r = p.received_image(&a, 7, "other".to_string(), true);
    assert_eq!(r, ImageAction::Fetching { hosts_done: 1, ids_needed: 0, ips_needed: 1 });
    let r = p.received_image(&a, 7, "other".to_string(), false);
    assert_eq!(r, ImageAction::AllFetched { hosts_done: 1, send_done: true });
}

#[test]
fn named_machines_are_awaited_unless_done() {
    let mut p = Progress::new();
    let a = addr(1, 1);
    p.need_ip(a);
    p.received_image(&a, 1, "one".to_string(), true);
    p.add_ids(vec![(1, "one".to_string()), (2, "two".to_string()), (3, "three".to_string()), (2, "deux".to_string())]);
    let r = p.received_image(&a, 4, "four".to_string(), true);
    assert_eq!(r, ImageAction::Fetching { hosts_done: 2, ids_needed: 2, ips_needed: 1 });
}

#[test]
fn closed_connection_fails_the_address_and_may_finish() {
    let mut p = Progress::new();
    let a = addr(1, 1);
    let b = addr(2, 1);
    p.need_ip(a);
    p.need_ip(b);
    assert_eq!(p.closed(&a), ClosedAction::Failed { send_done: false });
    assert!(!p.is_ok());
    assert_eq!(p.closed(&b), ClosedAction::Failed { send_done: true });
    assert_eq!(p.closed(&b), ClosedAction::Ignored);
}

#[test]
fn dropped_address_is_no_longer_awaited() {
    let mut p = Progress::new();
    let a = addr(1, 1);
    let b = addr(2, 1);
    p.need_ip(a);
    p.need_ip(b);
    p.drop_ip(&a);
    let r = p.received_image(&b, 9, "b".to_string(), false);
    assert_eq!(r, ImageAction::AllFetched { hosts_done: 1, send_done: true });
    assert!(p.is_ok());
}

#[test]
fn host_names_are_listed_once_per_machine() {
    let mut p = Progress::new();
    let a = addr(1, 1);
    p.need_ip(a);
    p.received_image(&a, 1, "same".to_string(), true);
    p.received_image(&a, 2, "same".to_string(), true);
    p.received_image(&a, 3, "other".to_string(), true);
    p.received_image(&a, 3, "other".to_string(), true);
    let mut names = p.hosts_done_names();
    names.sort();
    assert_eq!(names, vec!["other", "same", "same"]);
}
