use relay_core::bus::{BusEvent, BusOutput, PeerAddr, RelayBus};
use relay_core::dedup::{DedupCache, MAX_CAPACITY};
use relay_core::model::{Envelope, Input, Payload};

fn message(id: &str) -> BusEvent {
    BusEvent::Message(Envelope { id: id.to_string(), payload: Payload::OutOfSync })
}

fn peer(port: u16) -> PeerAddr {
    PeerAddr { ip: 0x7f00_0001, port }
}

fn is_delivered(output: &BusOutput) -> bool {
    matches!(output, BusOutput::Deliver { .. })
}

#[test]
fn each_novel_id_passes_once() {
    let mut bus = RelayBus::new(2).unwrap();
    assert!(is_delivered(&bus.handle(message("a"))));
    assert!(is_delivered(&bus.handle(message("b"))));
    assert!(is_delivered(&bus.handle(message("c"))));
}

#[test]
fn repeat_right_after_is_dropped() {
    let mut bus = RelayBus::new(2).unwrap();
    assert!(is_delivered(&bus.handle(message("a"))));
    assert_eq!(bus.handle(message("a")), BusOutput::Dropped);
}

#[test]
fn evicted_id_counts_as_novel_again() {
    let mut bus = RelayBus::new(2).unwrap();
    assert!(is_delivered(&bus.handle(message("a"))));
    assert!(is_delivered(&bus.handle(message("b"))));
    assert!(is_delivered(&bus.handle(message("c"))));
    // Two other ids came after `a`, and the cache holds two: `a` is gone.
    assert!(is_delivered(&bus.handle(message("a"))));
}

#[test]
fn repeat_within_the_window_is_dropped() {
    let mut bus = RelayBus::new(2).unwrap();
    assert!(is_delivered(&bus.handle(message("a"))));
    assert!(is_delivered(&bus.handle(message("b"))));
    assert_eq!(bus.handle(message("a")), BusOutput::Dropped);
}

#[test]
fn a_dropped_repeat_still_refreshes_its_id() {
    let mut bus = RelayBus::new(2).unwrap();
    assert!(is_delivered(&bus.handle(message("a"))));
    assert!(is_delivered(&bus.handle(message("b"))));
    // `a` is seen again: it becomes the most recent id, `b` the oldest.
    assert_eq!(bus.handle(message("a")), BusOutput::Dropped);
    assert!(is_delivered(&bus.handle(message("c"))));
    assert_eq!(bus.handle(message("a")), BusOutput::Dropped);
    assert!(is_delivered(&bus.handle(message("b"))));
}

#[test]
fn many_deliveries_of_one_id_give_one_copy() {
    let mut bus = RelayBus::new(3).unwrap();
    let mut copies = 0;
    let events = vec![
        BusEvent::Connect(peer(1)),
        message("x"),
        message("x"),
        BusEvent::Connect(peer(2)),
        message("other"),
        message("x"),
        BusEvent::Disconnect(peer(1)),
        message("another"),
        message("x"),
    ];
    for event in events {
        if let BusOutput::Deliver { envelope, .. } = bus.handle(event) {
            if envelope.id == "x" {
                copies += 1;
            }
        }
    }
    assert_eq!(copies, 1);
}

#[test]
fn capacity_one_remembers_the_last_id_only() {
    let mut bus = RelayBus::new(1).unwrap();
    assert!(is_delivered(&bus.handle(message("a"))));
    assert_eq!(bus.handle(message("a")), BusOutput::Dropped);
    assert!(is_delivered(&bus.handle(message("b"))));
    assert!(is_delivered(&bus.handle(message("a"))));
}

#[test]
fn hundred_ids_fit_a_cache_of_hundred() {
    let mut bus = RelayBus::new(100).unwrap();
    for i in 0..100 {
        assert!(is_delivered(&bus.handle(message(&format!("id-{i}")))));
    }
    for i in 0..100 {
        assert_eq!(bus.handle(message(&format!("id-{i}"))), BusOutput::Dropped);
    }
    assert!(is_delivered(&bus.handle(message("one-more"))));
    // `id-0` was the least recently seen of the hundred.
    assert!(is_delivered(&bus.handle(message("id-0"))));
}

#[test]
fn novel_message_goes_to_every_peer_in_connection_order() {
    let mut bus = RelayBus::new(4).unwrap();
    assert_eq!(bus.handle(BusEvent::Connect(peer(1))), BusOutput::Registered);
    assert_eq!(bus.handle(BusEvent::Connect(peer(2))), BusOutput::Registered);
    assert_eq!(bus.handle(BusEvent::Connect(peer(3))), BusOutput::Registered);
    let envelope = Envelope {
        id: "m".to_string(),
        payload: Payload::Input { client_id: "c".to_string(), input: Input::Jump },
    };
    let output = bus.handle(BusEvent::Message(envelope.clone()));
    assert_eq!(
        output,
        BusOutput::Deliver { envelope, recipients: vec![peer(1), peer(2), peer(3)] }
    );
}

#[test]
fn message_without_peers_is_still_published() {
    let mut bus = RelayBus::new(4).unwrap();
    let output = bus.handle(message("m"));
    assert_eq!(
        output,
        BusOutput::Deliver {
            envelope: Envelope { id: "m".to_string(), payload: Payload::OutOfSync },
            recipients: vec![],
        }
    );
}

#[test]
fn disconnected_peer_leaves_the_registry() {
    let mut bus = RelayBus::new(4).unwrap();
    bus.handle(BusEvent::Connect(peer(1)));
    bus.handle(BusEvent::Connect(peer(2)));
    assert_eq!(bus.handle(BusEvent::Disconnect(peer(1))), BusOutput::Unregistered);
    assert_eq!(bus.peers(), &vec![peer(2)]);
}

#[test]
fn nothing_is_written_to_a_disconnected_peer() {
    let mut bus = RelayBus::new(4).unwrap();
    bus.handle(BusEvent::Connect(peer(1)));
    bus.handle(BusEvent::Connect(peer(2)));
    bus.handle(BusEvent::Disconnect(peer(1)));
    match bus.handle(message("m")) {
        BusOutput::Deliver { recipients, .. } => assert_eq!(recipients, vec![peer(2)]),
        other => panic!("expected a delivery, got {:?}", other),
    }
}

#[test]
fn disconnect_removes_every_entry_of_the_address() {
    let mut bus = RelayBus::new(4).unwrap();
    bus.handle(BusEvent::Connect(peer(1)));
    bus.handle(BusEvent::Connect(peer(2)));
    bus.handle(BusEvent::Connect(peer(1)));
    bus.handle(BusEvent::Disconnect(peer(1)));
    assert_eq!(bus.peers(), &vec![peer(2)]);
}

#[test]
fn disconnect_of_an_unknown_peer_changes_nothing() {
    let mut bus = RelayBus::new(4).unwrap();
    bus.handle(BusEvent::Connect(peer(1)));
    assert_eq!(bus.handle(BusEvent::Disconnect(peer(9))), BusOutput::Unregistered);
    assert_eq!(bus.peers(), &vec![peer(1)]);
}

#[test]
fn peers_differ_by_address_and_by_port() {
    let mut bus = RelayBus::new(4).unwrap();
    bus.handle(BusEvent::Connect(PeerAddr { ip: 1, port: 80 }));
    bus.handle(BusEvent::Connect(PeerAddr { ip: 2, port: 80 }));
    bus.handle(BusEvent::Connect(PeerAddr { ip: 1, port: 81 }));
    bus.handle(BusEvent::Disconnect(PeerAddr { ip: 1, port: 80 }));
    assert_eq!(bus.peers(), &vec![PeerAddr { ip: 2, port: 80 }, PeerAddr { ip: 1, port: 81 }]);
}

#[test]
fn connects_and_disconnects_leave_the_cache_alone() {
    let mut bus = RelayBus::new(1).unwrap();
    assert!(is_delivered(&bus.handle(message("a"))));
    bus.handle(BusEvent::Connect(peer(1)));
    bus.handle(BusEvent::Disconnect(peer(1)));
    assert_eq!(bus.handle(message("a")), BusOutput::Dropped);
}

#[test]
fn bus_reports_its_capacity() {
    let bus = RelayBus::new(100).unwrap();
    assert_eq!(bus.capacity(), 100);
    assert!(bus.peers().is_empty());
}

#[test]
fn bus_needs_a_positive_capacity() {
    assert!(RelayBus::new(0).is_none());
}

#[test]
fn bus_capacity_has_an_upper_limit() {
    assert!(RelayBus::new(MAX_CAPACITY).is_some());
    assert!(RelayBus::new(MAX_CAPACITY + 1).is_none());
}

#[test]
fn cache_tells_novel_from_seen() {
    let mut cache = DedupCache::new(2).unwrap();
    assert_eq!(cache.capacity(), 2);
    assert!(cache.observe(&"a".to_string()));
    assert!(!cache.observe(&"a".to_string()));
    assert!(cache.observe(&"b".to_string()));
    assert!(cache.observe(&"c".to_string()));
    assert!(cache.observe(&"a".to_string()));
    assert!(!cache.observe(&"c".to_string()));
}

#[test]
fn cache_needs_a_capacity_within_bounds() {
    assert!(DedupCache::new(0).is_none());
    assert!(DedupCache::new(1).is_some());
    assert!(DedupCache::new(MAX_CAPACITY + 1).is_none());
}

/// The recency list of a cache, kept plainly: the most recent id first.
fn remember(list: &mut Vec<String>, limit: usize, id: &str) -> bool {
    let novel = match list.iter().position(|held| held == id) {
        Some(at) => {
            list.remove(at);
            false
        }
        None => {
            if list.len() >= limit {
                list.pop();
            }
            true
        }
    };
    list.insert(0, id.to_string());
    novel
}

#[test]
fn cache_agrees_with_a_plain_recency_list() {
    let mut state = 0x9e37_79b9_7f4a_7c15u64;
    for limit in [1usize, 2, 3, 7, 16] {
        let mut cache = DedupCache::new(limit).unwrap();
        let mut list: Vec<String> = Vec::new();
        for _ in 0..5_000 {
            state ^= state << 13;
            state ^= state >> 7;
            state ^= state << 17;
            let id = format!("id-{}", state % (2 * limit as u64 + 3));
            assert_eq!(cache.observe(&id), remember(&mut list, limit, &id), "limit {limit}");
        }
    }
}

#[test]
fn message_is_dropped_exactly_within_the_window_of_distinct_ids() {
    let mut bus = RelayBus::new(3).unwrap();
    for id in ["a", "b", "b", "c", "b", "c"] {
        bus.handle(message(id));
    }
    // Three distinct ids were seen, however often: `a` is still remembered.
    assert_eq!(bus.handle(message("a")), BusOutput::Dropped);
    for id in ["b", "c", "d"] {
        bus.handle(message(id));
    }
    // Now three other distinct ids are more recent than `a`.
    assert!(is_delivered(&bus.handle(message("a"))));
}

#[test]
fn one_copy_however_often_the_few_other_ids_repeat() {
    let mut bus = RelayBus::new(3).unwrap();
    let mut copies = 0;
    // Two distinct other ids stand between the first and the last `x`,
    // each of them many times over.
    for id in ["p", "q", "r", "s", "x", "a", "b", "a", "x", "b", "b", "a", "x", "a", "x"] {
        if let BusOutput::Deliver { envelope, .. } = bus.handle(message(id)) {
            if envelope.id == "x" {
                copies += 1;
            }
        }
    }
    assert_eq!(copies, 1);
}

#[test]
fn a_third_distinct_id_in_between_lets_a_second_copy_through() {
    let mut bus = RelayBus::new(3).unwrap();
    let mut copies = 0;
    for id in ["x", "a", "b", "c", "x"] {
        if let BusOutput::Deliver { envelope, .. } = bus.handle(message(id)) {
            if envelope.id == "x" {
                copies += 1;
            }
        }
    }
    assert_eq!(copies, 2);
}
