use relay_core::bus::{BusEvent, PeerAddr};
use relay_core::claims::ClaimVerdict;
use relay_core::codec::encode;
use relay_core::model::{
    BulletState, Color, Envelope, Input, Payload, PlayerState, Quat, Snapshot, Vec2, Vec3,
};
use relay_core::reader::Reader;
use relay_core::reconciler::{Removed, Verdict};
use relay_core::session::{snapshot_due, Reaction, Session};

fn player(id: &str, spawn_id: &str) -> PlayerState {
    PlayerState {
        id: id.to_string(),
        client_id: format!("client-of-{id}"),
        spawn_id: spawn_id.to_string(),
        radius: 1,
        color: Color { r: 2, g: 3, b: 4 },
        position: Vec3 { x: 5, y: 6, z: 7 },
        velocity: Vec2 { x: 8, y: 9 },
    }
}

fn bullet(id: &str, x: u32) -> BulletState {
    BulletState {
        id: id.to_string(),
        position: Vec3 { x, y: 0, z: 0 },
        rotation: Quat { x: 0, y: 0, z: 0, w: 1 },
        velocity: Vec2 { x: 1, y: 1 },
    }
}

fn sealed(id: &str, payload: Payload) -> Envelope {
    Envelope { id: id.to_string(), payload }
}

fn peer() -> PeerAddr {
    PeerAddr { ip: 1, port: 3191 }
}

#[test]
fn new_session_knows_nothing() {
    let session = Session::new();
    assert_eq!(session.world().players().len(), 0);
    assert_eq!(session.world().bullets().len(), 0);
    assert_eq!(session.world().latest(), None);
    assert!(!session.is_gone(&"anyone".to_string()));
}

#[test]
fn player_announcement_is_settled_as_a_claim() {
    let mut session = Session::new();
    let reaction = session.ingest(sealed("m1", Payload::Player(player("b", "s"))));
    let granted = ClaimVerdict::Granted { evicted: vec![] };
    assert_eq!(reaction, Reaction::Claim { claimant: "b".to_string(), verdict: granted });
    let reaction = session.ingest(sealed("m2", Payload::Player(player("a", "s"))));
    let granted = ClaimVerdict::Granted { evicted: vec!["b".to_string()] };
    assert_eq!(reaction, Reaction::Claim { claimant: "a".to_string(), verdict: granted });
    let reaction = session.ingest(sealed("m3", Payload::Player(player("c", "s"))));
    let refused = ClaimVerdict::Refused { holder: "a".to_string() };
    assert_eq!(reaction, Reaction::Claim { claimant: "c".to_string(), verdict: refused });
    assert_eq!(session.world().players().len(), 2);
}

#[test]
fn bullet_announcement_is_taken_over() {
    let mut session = Session::new();
    let reaction = session.ingest(sealed("m1", Payload::Bullet(bullet("x", 1))));
    assert_eq!(reaction, Reaction::BulletSynced { created: true });
    let reaction = session.ingest(sealed("m2", Payload::Bullet(bullet("x", 2))));
    assert_eq!(reaction, Reaction::BulletSynced { created: false });
    assert_eq!(session.world().bullets().len(), 1);
    assert_eq!(session.world().bullets().slot(0).state, bullet("x", 2));
}

#[test]
fn intent_is_handed_on() {
    let mut session = Session::new();
    let intent = Payload::Input { client_id: "c".to_string(), input: Input::MoveLeft };
    let reaction = session.ingest(sealed("m1", intent));
    assert_eq!(
        reaction,
        Reaction::Intent {
            id: "m1".to_string(),
            client_id: "c".to_string(),
            input: Input::MoveLeft,
        }
    );
    assert_eq!(session.world().players().len(), 0);
}

#[test]
fn snapshot_is_offered_to_the_reconciler() {
    let mut session = Session::new();
    let first = Snapshot { timestamp: 5, players: vec![player("a", "s")], bullets: vec![] };
    assert_eq!(
        session.ingest(sealed("m1", Payload::Snapshot(first.clone()))),
        Reaction::Reconciled(Verdict::Applied)
    );
    assert_eq!(
        session.ingest(sealed("m2", Payload::Snapshot(first))),
        Reaction::Reconciled(Verdict::Stale)
    );
    let twice = Snapshot {
        timestamp: 6,
        players: vec![player("a", "s"), player("a", "t")],
        bullets: vec![],
    };
    assert_eq!(
        session.ingest(sealed("m3", Payload::Snapshot(twice))),
        Reaction::Reconciled(Verdict::Malformed)
    );
    assert_eq!(session.world().latest(), Some(5));
}

#[test]
fn out_of_sync_asks_for_a_snapshot() {
    let mut session = Session::new();
    assert_eq!(session.ingest(sealed("m1", Payload::OutOfSync)), Reaction::SnapshotWanted);
}

#[test]
fn despawned_player_is_scheduled_and_remembered() {
    let mut session = Session::new();
    session.ingest(sealed("m1", Payload::Player(player("a", "s"))));
    let gone = Payload::DespawnPlayer { player_id: "a".to_string() };
    assert_eq!(
        session.ingest(sealed("m2", gone)),
        Reaction::PlayerGone { player_id: "a".to_string(), known: true }
    );
    assert!(session.is_gone(&"a".to_string()));
    assert!(session.world().players().slot(0).despawn);
    // A late announcement of the same player is ignored.
    assert_eq!(session.ingest(sealed("m3", Payload::Player(player("a", "s")))), Reaction::Ignored);
    assert!(session.world().players().slot(0).despawn);
}

#[test]
fn despawn_of_an_unknown_player_is_remembered_too() {
    let mut session = Session::new();
    let gone = Payload::DespawnPlayer { player_id: "ghost".to_string() };
    let unknown = Reaction::PlayerGone { player_id: "ghost".to_string(), known: false };
    assert_eq!(session.ingest(sealed("m1", gone.clone())), unknown);
    assert_eq!(session.ingest(sealed("m2", gone)), unknown);
    assert!(session.is_gone(&"ghost".to_string()));
    assert_eq!(
        session.ingest(sealed("m3", Payload::Player(player("ghost", "s")))),
        Reaction::Ignored
    );
    let late = sealed("m4", Payload::Bullet(bullet("ghost", 1)));
    assert_eq!(session.ingest(late), Reaction::Ignored);
    assert_eq!(session.world().players().len(), 0);
    assert_eq!(session.world().bullets().len(), 0);
}

#[test]
fn purge_schedules_players_that_came_back() {
    let mut session = Session::new();
    session.ingest(sealed("m1", Payload::DespawnPlayer { player_id: "a".to_string() }));
    let back = Snapshot {
        timestamp: 1,
        players: vec![player("a", "s"), player("b", "t")],
        bullets: vec![],
    };
    session.ingest(sealed("m2", Payload::Snapshot(back)));
    assert!(!session.world().players().slot(0).despawn);
    assert_eq!(session.purge(), 1);
    assert!(session.world().players().slot(0).despawn);
    assert!(!session.world().players().slot(1).despawn);
    assert_eq!(session.purge(), 1);
}

#[test]
fn sealed_envelopes_carry_fresh_ids() {
    let one = Envelope::seal(Payload::OutOfSync);
    let other = Envelope::seal(Payload::OutOfSync);
    assert_eq!(one.payload, Payload::OutOfSync);
    assert_eq!(one.id.len(), 36);
    assert_eq!(one.id.chars().count(), 36);
    assert_ne!(one.id, other.id);
    let hyphens: Vec<usize> =
        one.id.char_indices().filter(|(_, c)| *c == '-').map(|(i, _)| i).collect();
    assert_eq!(hyphens, vec![8, 13, 18, 23]);
}

#[test]
fn reader_starts_with_a_connect_and_a_greeting() {
    let (reader, event, greeting) = Reader::start(peer());
    assert_eq!(event, BusEvent::Connect(peer()));
    assert_eq!(greeting.payload, Payload::OutOfSync);
    assert_eq!(greeting.id.len(), 36);
    assert_eq!(reader.peer(), peer());
    assert!(reader.is_open());
}

#[test]
fn reader_turns_whole_messages_into_events() {
    let (mut reader, _, _) = Reader::start(peer());
    let first = sealed("m1", Payload::OutOfSync);
    let second = sealed("m2", Payload::Bullet(bullet("x", 1)));
    let mut bytes = encode(&first).unwrap();
    bytes.extend(encode(&second).unwrap());
    let events = reader.feed(&bytes);
    assert_eq!(events, vec![BusEvent::Message(first), BusEvent::Message(second)]);
    assert!(reader.is_open());
    assert_eq!(reader.feed(&[]), vec![]);
}

#[test]
fn reader_waits_for_the_rest_of_a_message() {
    let (mut reader, _, _) = Reader::start(peer());
    let message = sealed("m1", Payload::Player(player("a", "s")));
    let bytes = encode(&message).unwrap();
    for byte in &bytes[..bytes.len() - 1] {
        assert_eq!(reader.feed(&[*byte]), vec![]);
    }
    assert_eq!(reader.feed(&bytes[bytes.len() - 1..]), vec![BusEvent::Message(message)]);
}

#[test]
fn chunking_does_not_change_what_is_read() {
    let messages = vec![
        sealed("m1", Payload::OutOfSync),
        sealed("m2", Payload::Player(player("a", "s"))),
        sealed("m3", Payload::Input { client_id: "c".to_string(), input: Input::Block }),
    ];
    let mut stream = Vec::new();
    for message in &messages {
        stream.extend(encode(message).unwrap());
    }
    let expected: Vec<BusEvent> = messages.into_iter().map(BusEvent::Message).collect();
    for size in 1..stream.len() {
        let (mut reader, _, _) = Reader::start(peer());
        let mut events = Vec::new();
        for chunk in stream.chunks(size) {
            events.extend(reader.feed(chunk));
        }
        assert_eq!(events, expected, "chunks of {size}");
        assert!(reader.is_open());
    }
}

#[test]
fn reader_gives_up_on_a_corrupt_stream() {
    let (mut reader, _, _) = Reader::start(peer());
    let good = sealed("m1", Payload::OutOfSync);
    let mut bytes = encode(&good).unwrap();
    bytes.extend_from_slice(&[3, 1, b'i', 99]);
    bytes.extend(encode(&good).unwrap());
    let events = reader.feed(&bytes);
    assert_eq!(events, vec![BusEvent::Message(good.clone()), BusEvent::Disconnect(peer())]);
    assert!(!reader.is_open());
    // Nothing is read from a connection that was given up.
    assert_eq!(reader.feed(&encode(&good).unwrap()), vec![]);
    assert_eq!(reader.end_of_stream(), None);
}

#[test]
fn end_of_stream_is_reported_once() {
    let (mut reader, _, _) = Reader::start(peer());
    assert_eq!(reader.end_of_stream(), Some(BusEvent::Disconnect(peer())));
    assert!(!reader.is_open());
    assert_eq!(reader.end_of_stream(), None);
    assert_eq!(reader.feed(&[4, 2, b'a', b'b', 5]), vec![]);
}

#[test]
fn end_of_stream_in_the_middle_of_a_message_disconnects() {
    let (mut reader, _, _) = Reader::start(peer());
    let bytes = encode(&sealed("m1", Payload::OutOfSync)).unwrap();
    assert_eq!(reader.feed(&bytes[..2]), vec![]);
    assert_eq!(reader.end_of_stream(), Some(BusEvent::Disconnect(peer())));
}

#[test]
fn retired_bullet_does_not_come_back() {
    let mut session = Session::new();
    session.ingest(sealed("m1", Payload::Bullet(bullet("x", 1))));
    assert!(session.retire_bullet("x".to_string()));
    assert!(session.is_gone(&"x".to_string()));
    assert!(session.world().bullets().slot(0).despawn);
    assert_eq!(session.ingest(sealed("m2", Payload::Bullet(bullet("x", 2)))), Reaction::Ignored);
    assert!(!session.retire_bullet("y".to_string()));
    assert_eq!(session.ingest(sealed("m3", Payload::Bullet(bullet("y", 2)))), Reaction::Ignored);
}

#[test]
fn tick_counts_only_the_newest_snapshot() {
    let mut session = Session::new();
    let snapshot = |timestamp: u64, id: &str| {
        Payload::Snapshot(Snapshot { timestamp, players: vec![player(id, "s")], bullets: vec![] })
    };
    let arrived = vec![
        sealed("m1", snapshot(3, "a")),
        sealed("m2", Payload::OutOfSync),
        sealed("m3", snapshot(8, "b")),
        sealed("m4", Payload::Input { client_id: "c".to_string(), input: Input::Jump }),
        sealed("m5", snapshot(5, "c")),
    ];
    let reactions = session.tick(&arrived);
    assert_eq!(
        reactions,
        vec![
            Reaction::SnapshotWanted,
            Reaction::Intent {
                id: "m4".to_string(),
                client_id: "c".to_string(),
                input: Input::Jump,
            },
            Reaction::Reconciled(Verdict::Applied),
        ]
    );
    assert_eq!(session.world().latest(), Some(8));
    assert_eq!(session.world().players().len(), 1);
    assert_eq!(session.world().players().slot(0).state, player("b", "s"));
}

#[test]
fn tick_without_snapshots_offers_nothing() {
    let mut session = Session::new();
    assert_eq!(session.tick(&vec![]), vec![]);
    let reactions = session.tick(&vec![sealed("m1", Payload::Bullet(bullet("x", 1)))]);
    assert_eq!(reactions, vec![Reaction::BulletSynced { created: true }]);
    assert_eq!(session.world().latest(), None);
}

#[test]
fn tick_with_only_stale_snapshots_changes_nothing() {
    let mut session = Session::new();
    let newest = Snapshot { timestamp: 9, players: vec![player("a", "s")], bullets: vec![] };
    session.tick(&vec![sealed("m1", Payload::Snapshot(newest))]);
    let late = Snapshot { timestamp: 8, players: vec![], bullets: vec![] };
    let reactions = session.tick(&vec![
        sealed("m2", Payload::Snapshot(late.clone())),
        sealed("m3", Payload::Snapshot(late)),
    ]);
    assert_eq!(reactions, vec![Reaction::Reconciled(Verdict::Stale)]);
    assert_eq!(session.world().latest(), Some(9));
    assert!(!session.world().players().slot(0).despawn);
}

#[test]
fn tick_takes_the_other_messages_in_order() {
    let mut session = Session::new();
    let reactions = session.tick(&vec![
        sealed("m1", Payload::Player(player("b", "s"))),
        sealed("m2", Payload::Player(player("a", "s"))),
        sealed("m3", Payload::DespawnPlayer { player_id: "b".to_string() }),
        sealed("m4", Payload::Player(player("b", "s"))),
    ]);
    assert_eq!(
        reactions,
        vec![
            Reaction::Claim {
                claimant: "b".to_string(),
                verdict: ClaimVerdict::Granted { evicted: vec![] },
            },
            Reaction::Claim {
                claimant: "a".to_string(),
                verdict: ClaimVerdict::Granted { evicted: vec!["b".to_string()] },
            },
            Reaction::PlayerGone { player_id: "b".to_string(), known: true },
            Reaction::Ignored,
        ]
    );
}

#[test]
fn sweep_tears_down_what_was_scheduled() {
    let mut session = Session::new();
    session.ingest(sealed("m1", Payload::Player(player("a", "s"))));
    session.ingest(sealed("m2", Payload::Bullet(bullet("x", 1))));
    session.ingest(sealed("m3", Payload::DespawnPlayer { player_id: "a".to_string() }));
    assert_eq!(session.world().players().len(), 1);
    assert_eq!(session.sweep(), Removed { players: vec!["a".to_string()], bullets: vec![] });
    assert_eq!(session.world().players().len(), 0);
    assert_eq!(session.world().bullets().len(), 1);
    assert!(session.is_gone(&"a".to_string()));
    assert_eq!(session.sweep(), Removed { players: vec![], bullets: vec![] });
}

#[test]
fn many_requests_of_one_tick_are_answered_once() {
    let mut session = Session::new();
    let reactions = session.tick(&vec![
        sealed("m1", Payload::OutOfSync),
        sealed("m2", Payload::Bullet(bullet("x", 1))),
        sealed("m3", Payload::OutOfSync),
        sealed("m4", Payload::OutOfSync),
    ]);
    assert_eq!(
        reactions,
        vec![Reaction::SnapshotWanted, Reaction::BulletSynced { created: true }]
    );
    // The next tick answers anew.
    let reactions = session.tick(&vec![
        sealed("m5", Payload::OutOfSync),
        sealed("m6", Payload::OutOfSync),
    ]);
    assert_eq!(reactions, vec![Reaction::SnapshotWanted]);
    assert_eq!(session.tick(&vec![]), vec![]);
}

#[test]
fn purge_counts_the_players_it_found() {
    let mut session = Session::new();
    for id in ["a", "b", "c"] {
        session.ingest(sealed("m", Payload::DespawnPlayer { player_id: id.to_string() }));
    }
    assert_eq!(session.purge(), 0);
    let back = Snapshot {
        timestamp: 1,
        players: vec![player("c", "s"), player("x", "t"), player("a", "u")],
        bullets: vec![],
    };
    session.ingest(sealed("m", Payload::Snapshot(back)));
    assert_eq!(session.purge(), 2);
    assert_eq!(session.purge(), 2);
    session.sweep();
    assert_eq!(session.purge(), 0);
    assert_eq!(session.world().players().len(), 1);
}

#[test]
fn an_id_is_recorded_as_gone_once() {
    let mut session = Session::new();
    session.ingest(sealed("m1", Payload::Player(player("a", "s"))));
    session.ingest(sealed("m2", Payload::DespawnPlayer { player_id: "a".to_string() }));
    session.ingest(sealed("m3", Payload::DespawnPlayer { player_id: "a".to_string() }));
    // Were the id recorded twice, the player would be counted twice.
    assert_eq!(session.purge(), 1);
}

#[test]
fn requests_of_a_tick_get_one_snapshot() {
    let mut session = Session::new();
    session.ingest(sealed("m0", Payload::Player(player("a", "s"))));
    session.ingest(sealed("m0", Payload::Bullet(bullet("x", 7))));
    let reactions = session.tick(&vec![
        sealed("m1", Payload::OutOfSync),
        sealed("m2", Payload::OutOfSync),
        sealed("m3", Payload::OutOfSync),
    ]);
    assert!(snapshot_due(&reactions));
    let expected = Snapshot {
        timestamp: 77,
        players: vec![player("a", "s")],
        bullets: vec![bullet("x", 7)],
    };
    assert_eq!(session.answer(&reactions, 77), Some(Payload::Snapshot(expected)));
}

#[test]
fn no_request_no_snapshot() {
    let mut session = Session::new();
    let reactions = session.tick(&vec![sealed("m1", Payload::Bullet(bullet("x", 1)))]);
    assert!(!snapshot_due(&reactions));
    assert_eq!(session.answer(&reactions, 5), None);
    assert_eq!(session.answer(&vec![], 5), None);
}

#[test]
fn reactions_gathered_by_hand_get_one_snapshot_too() {
    let mut session = Session::new();
    let reactions = vec![
        session.ingest(sealed("m1", Payload::OutOfSync)),
        session.ingest(sealed("m2", Payload::OutOfSync)),
    ];
    assert_eq!(reactions, vec![Reaction::SnapshotWanted, Reaction::SnapshotWanted]);
    let empty = Snapshot { timestamp: 1, players: vec![], bullets: vec![] };
    assert_eq!(session.answer(&reactions, 1), Some(Payload::Snapshot(empty)));
}

fn played_out(first: &str, second: &str, start: &[&str]) -> Session {
    let mut session = Session::new();
    for id in start {
        session.ingest(sealed("m0", Payload::Player(player(id, "s"))));
    }
    session.ingest(sealed("m1", Payload::Player(player(first, "s"))));
    session.ingest(sealed("m2", Payload::Player(player(second, "s"))));
    session.ingest(sealed("m3", Payload::DespawnPlayer { player_id: "k".to_string() }));
    session.sweep();
    session
}

fn ids_held(session: &Session) -> Vec<String> {
    let players = session.world().players();
    (0..players.len()).map(|i| players.slot(i).state.id.clone()).collect()
}

#[test]
fn collision_played_out_leaves_the_lower_id_alone() {
    // `d` and `k` collide; the despawn of `k` follows; the teardown runs.
    for start in [vec![], vec!["z"], vec!["k"], vec!["d"], vec!["p", "k"]] {
        let one = played_out("d", "k", &start);
        let other = played_out("k", "d", &start);
        assert_eq!(ids_held(&one), vec!["d".to_string()], "start {start:?}");
        assert_eq!(ids_held(&other), vec!["d".to_string()], "start {start:?}");
        assert!(!one.world().players().slot(0).despawn);
        assert!(!other.world().players().slot(0).despawn);
    }
}

#[test]
fn a_still_lower_id_in_the_slot_refuses_both_claims() {
    for (first, second) in [("d", "k"), ("k", "d")] {
        let mut session = Session::new();
        session.ingest(sealed("m0", Payload::Player(player("a", "s"))));
        let refused = ClaimVerdict::Refused { holder: "a".to_string() };
        assert_eq!(
            session.ingest(sealed("m1", Payload::Player(player(first, "s")))),
            Reaction::Claim { claimant: first.to_string(), verdict: refused }
        );
        let refused = ClaimVerdict::Refused { holder: "a".to_string() };
        assert_eq!(
            session.ingest(sealed("m2", Payload::Player(player(second, "s")))),
            Reaction::Claim { claimant: second.to_string(), verdict: refused }
        );
        assert_eq!(ids_held(&session), vec!["a".to_string()]);
        assert!(!session.world().players().slot(0).despawn);
    }
}
