use namib_enforcer::addr::IpAddress;
use namib_enforcer::dns::{DnsService, LookupResult, WatchError};

fn v4(a: u8, b: u8, c: u8, d: u8) -> IpAddress {
    IpAddress::V4(u32::from_be_bytes([a, b, c, d]))
}

fn lookup(addresses: Vec<IpAddress>, valid_until: u64) -> LookupResult {
    LookupResult { addresses, valid_until }
}

#[test]
fn second_resolve_returns_cached_entry() {
    let mut svc = DnsService::new();
    assert!(svc.resolve_if_cached("a.example").is_none());
    let first = svc.lookup_and_cache("a.example", lookup(vec![v4(1, 2, 3, 4)], 60));
    let cached = svc.resolve_if_cached("a.example").expect("entry was cached");
    assert_eq!(cached.name, "a.example");
    assert_eq!(cached.addresses, first.addresses);
    assert_eq!(cached.valid_until, first.valid_until);
    // A second store keeps the first entry.
    let again = svc.lookup_and_cache("a.example", lookup(vec![v4(9, 9, 9, 9)], 999));
    assert_eq!(again.addresses, vec![v4(1, 2, 3, 4)]);
    assert_eq!(again.valid_until, 60);
}

#[test]
fn scenario_a_refresh_changes_address() {
    let mut svc = DnsService::new();
    let first = svc.lookup_and_cache("a.example", lookup(vec![v4(1, 2, 3, 4)], 60));
    assert_eq!(first.addresses, vec![v4(1, 2, 3, 4)]);
    assert_eq!(first.valid_until, 60);
    let second = svc.resolve_if_cached("a.example").unwrap();
    assert_eq!(second.addresses, vec![v4(1, 2, 3, 4)]);
    assert_eq!(second.valid_until, 60);

    let mut w = svc.create_watcher();
    assert_eq!(w.resolve_and_watch(&mut svc, "a.example"), Some(vec![v4(1, 2, 3, 4)]));

    let now = 65;
    assert!(DnsService::next_refresh_time(0, svc.next_expiry()) <= now);
    let due = svc.due_names(now);
    assert_eq!(due, vec!["a.example".to_string()]);
    let notified = svc.refresh_cycle(&due, &vec![Some(lookup(vec![v4(1, 2, 3, 5)], 125))]);
    assert_eq!(notified, vec![w.id()]);
    assert!(w.address_changed(&mut svc));
    assert!(!w.address_changed(&mut svc));
    let after = svc.resolve_if_cached("a.example").unwrap();
    assert_eq!(after.addresses, vec![v4(1, 2, 3, 5)]);
    assert_eq!(after.valid_until, 125);
}

#[test]
fn unchanged_refresh_notifies_nobody() {
    let mut svc = DnsService::new();
    svc.lookup_and_cache("n.example", lookup(vec![v4(1, 1, 1, 1), v4(2, 2, 2, 2)], 10));
    let mut w = svc.create_watcher();
    w.resolve_and_watch(&mut svc, "n.example").unwrap();
    let due = svc.due_names(0);
    let notified = svc.refresh_cycle(
        &due,
        &vec![Some(lookup(vec![v4(2, 2, 2, 2), v4(1, 1, 1, 1)], 300))],
    );
    assert!(notified.is_empty());
    assert!(!w.address_changed(&mut svc));
    let e = svc.resolve_if_cached("n.example").unwrap();
    assert_eq!(e.valid_until, 300);
    assert_eq!(e.watchers, vec![w.id()]);
}

#[test]
fn failed_refresh_keeps_entry() {
    let mut svc = DnsService::new();
    svc.lookup_and_cache("f.example", lookup(vec![v4(1, 1, 1, 1)], 10));
    let mut w = svc.create_watcher();
    w.resolve_and_watch(&mut svc, "f.example").unwrap();
    let due = svc.due_names(0);
    let notified = svc.refresh_cycle(&due, &vec![None]);
    assert!(notified.is_empty());
    let e = svc.resolve_if_cached("f.example").unwrap();
    assert_eq!(e.valid_until, 10);
    assert_eq!(e.addresses, vec![v4(1, 1, 1, 1)]);
    // Still due in the next cycle.
    assert_eq!(svc.due_names(0), vec!["f.example".to_string()]);
}

#[test]
fn changed_names_notify_each_watcher_once() {
    let mut svc = DnsService::new();
    svc.lookup_and_cache("x.example", lookup(vec![v4(1, 0, 0, 1)], 0));
    svc.lookup_and_cache("y.example", lookup(vec![v4(1, 0, 0, 2)], 0));
    let mut w = svc.create_watcher();
    w.resolve_and_watch(&mut svc, "x.example").unwrap();
    w.resolve_and_watch(&mut svc, "y.example").unwrap();
    let due = svc.due_names(0);
    assert_eq!(due.len(), 2);
    let outcomes = due
        .iter()
        .map(|_| Some(lookup(vec![v4(8, 8, 8, 8)], 100)))
        .collect::<Vec<_>>();
    let notified = svc.refresh_cycle(&due, &outcomes);
    assert_eq!(notified, vec![w.id()]);
    assert!(w.address_changed(&mut svc));
}

#[test]
fn scenario_c_fan_out_to_all_watchers() {
    let mut svc = DnsService::new();
    svc.lookup_and_cache("b.example", lookup(vec![v4(5, 5, 5, 5)], 20));
    let mut w1 = svc.create_watcher();
    let mut w2 = svc.create_watcher();
    assert_ne!(w1.id(), w2.id());
    assert_eq!(w1.resolve_and_watch(&mut svc, "b.example"), Some(vec![v4(5, 5, 5, 5)]));
    assert_eq!(w2.resolve_and_watch(&mut svc, "b.example"), Some(vec![v4(5, 5, 5, 5)]));
    let due = svc.due_names(0);
    let mut notified = svc.refresh_cycle(&due, &vec![Some(lookup(vec![v4(6, 6, 6, 6)], 90))]);
    notified.sort();
    assert_eq!(notified, vec![w1.id(), w2.id()]);
    assert!(w1.address_changed(&mut svc));
    assert!(w2.address_changed(&mut svc));
}

#[test]
fn refresh_floor_holds() {
    assert_eq!(DnsService::next_refresh_time(100, Some(100)), 130);
    assert_eq!(DnsService::next_refresh_time(100, Some(0)), 130);
    assert_eq!(DnsService::next_refresh_time(100, None), 130);
    assert_eq!(DnsService::next_refresh_time(100, Some(500)), 500);
    assert_eq!(DnsService::next_refresh_time(u64::MAX - 5, None), u64::MAX);

    let mut svc = DnsService::new();
    svc.lookup_and_cache("far.example", lookup(vec![v4(1, 2, 3, 4)], 131));
    assert!(svc.due_names(100).is_empty());
    assert_eq!(svc.due_names(101), vec!["far.example".to_string()]);
    // An entry with no validity left is due, but the next cycle still waits.
    svc.lookup_and_cache("zero.example", lookup(vec![v4(1, 2, 3, 4)], 100));
    assert_eq!(svc.next_expiry(), Some(100));
    assert_eq!(DnsService::next_refresh_time(100, svc.next_expiry()), 130);
}

#[test]
fn clear_watched_names_is_idempotent() {
    let mut svc = DnsService::new();
    svc.lookup_and_cache("c1.example", lookup(vec![v4(1, 1, 1, 1)], 50));
    svc.lookup_and_cache("c2.example", lookup(vec![v4(2, 2, 2, 2)], 50));
    let mut w = svc.create_watcher();
    w.resolve_and_watch(&mut svc, "c1.example").unwrap();
    w.resolve_and_watch(&mut svc, "c2.example").unwrap();
    assert_eq!(w.watched_names().len(), 2);
    w.clear_watched_names(&mut svc);
    assert!(w.watched_names().is_empty());
    assert!(svc.resolve_if_cached("c1.example").unwrap().watchers.is_empty());
    assert!(svc.resolve_if_cached("c2.example").unwrap().watchers.is_empty());
    w.clear_watched_names(&mut svc);
    assert!(w.watched_names().is_empty());
    // Entries stay in the cache.
    assert!(svc.resolve_if_cached("c1.example").is_some());
}

#[test]
fn remove_watched_name_of_unknown_name_fails() {
    let mut svc = DnsService::new();
    let mut w = svc.create_watcher();
    assert_eq!(w.remove_watched_name(&mut svc, "nowhere.example"), Err(WatchError::UnknownName));
    assert_eq!(w.resolve_and_watch(&mut svc, "nowhere.example"), None);
    assert!(w.watched_names().is_empty());
}

#[test]
fn remove_watched_name_stops_notifications() {
    let mut svc = DnsService::new();
    svc.lookup_and_cache("r.example", lookup(vec![v4(3, 3, 3, 3)], 0));
    let mut w = svc.create_watcher();
    w.resolve_and_watch(&mut svc, "r.example").unwrap();
    assert_eq!(w.remove_watched_name(&mut svc, "r.example"), Ok(()));
    assert!(w.watched_names().is_empty());
    let due = svc.due_names(0);
    let notified = svc.refresh_cycle(&due, &vec![Some(lookup(vec![v4(4, 4, 4, 4)], 60))]);
    assert!(notified.is_empty());
    assert!(!w.address_changed(&mut svc));
}

#[test]
fn due_names_come_earliest_expiry_first() {
    let mut svc = DnsService::new();
    svc.lookup_and_cache("late.example", lookup(vec![v4(1, 1, 1, 1)], 20));
    svc.lookup_and_cache("early.example", lookup(vec![v4(2, 2, 2, 2)], 5));
    svc.lookup_and_cache("fresh.example", lookup(vec![v4(3, 3, 3, 3)], 1000));
    svc.lookup_and_cache("middle.example", lookup(vec![v4(4, 4, 4, 4)], 10));
    assert_eq!(
        svc.due_names(0),
        vec!["early.example".to_string(), "middle.example".to_string(), "late.example".to_string()]
    );
    assert_eq!(svc.next_expiry(), Some(5));
}

#[test]
fn empty_cache_has_no_expiry_and_nothing_due() {
    let svc = DnsService::new();
    assert_eq!(svc.next_expiry(), None);
    assert!(svc.due_names(0).is_empty());
    assert!(svc.resolve_if_cached("a.example").is_none());
}
