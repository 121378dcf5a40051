use relay_core::arena::Arena;
use relay_core::claims::{concession, settle_claim, ClaimVerdict};
use relay_core::ident::{id_before, sorts_before};
use relay_core::model::{Color, Payload, PlayerState, Vec2, Vec3};
use relay_core::spawn::{
    first_unclaimed, is_occupied, is_playing, plan_spawn, propose_spawn, spawn_player, Seat,
    SpawnRefusal, SpawnSlot,
};

fn claim(id: &str, spawn_id: &str) -> PlayerState {
    PlayerState {
        id: id.to_string(),
        client_id: format!("client-of-{id}"),
        spawn_id: spawn_id.to_string(),
        radius: 50.0f32.to_bits(),
        color: Color { r: 0, g: 0, b: 0 },
        position: Vec3 { x: 0, y: 0, z: 0 },
        velocity: Vec2 { x: 0, y: 0 },
    }
}

fn occupants(arena: &Arena<PlayerState>, spawn_id: &str) -> Vec<String> {
    let mut ids = Vec::new();
    for i in 0..arena.len() {
        let slot = arena.slot(i);
        if !slot.despawn && slot.state.spawn_id == spawn_id {
            ids.push(slot.state.id.clone());
        }
    }
    ids
}

fn slot(id: &str, x: f32) -> SpawnSlot {
    SpawnSlot {
        id: id.to_string(),
        position: Vec3 { x: x.to_bits(), y: 1.0f32.to_bits(), z: 0 },
        color: Color { r: 1.0f32.to_bits(), g: 0, b: 0 },
        radius: 25.0f32.to_bits(),
    }
}

#[test]
fn claim_on_a_vacant_slot_is_granted() {
    let mut arena = Arena::new();
    let verdict = settle_claim(&mut arena, claim("a", "s1"));
    assert_eq!(verdict, ClaimVerdict::Granted { evicted: vec![] });
    assert_eq!(occupants(&arena, "s1"), vec!["a".to_string()]);
    assert!(arena.slot(0).confirmed);
}

#[test]
fn lower_id_wins_when_it_comes_first() {
    let mut arena = Arena::new();
    settle_claim(&mut arena, claim("aaa", "s1"));
    let verdict = settle_claim(&mut arena, claim("bbb", "s1"));
    assert_eq!(verdict, ClaimVerdict::Refused { holder: "aaa".to_string() });
    assert_eq!(occupants(&arena, "s1"), vec!["aaa".to_string()]);
    assert_eq!(arena.len(), 1);
}

#[test]
fn lower_id_wins_when_it_comes_second() {
    let mut arena = Arena::new();
    settle_claim(&mut arena, claim("bbb", "s1"));
    let verdict = settle_claim(&mut arena, claim("aaa", "s1"));
    assert_eq!(verdict, ClaimVerdict::Granted { evicted: vec!["bbb".to_string()] });
    assert_eq!(occupants(&arena, "s1"), vec!["aaa".to_string()]);
    assert!(arena.slot(0).despawn);
    assert_eq!(arena.sweep(), vec!["bbb".to_string()]);
    assert_eq!(arena.len(), 1);
    assert_eq!(arena.slot(0).state, claim("aaa", "s1"));
}

#[test]
fn both_arrival_orders_agree_on_uuids() {
    let low = "0b0e7a5e-48f9-4d29-a7b1-0f6f3c1d2e3f";
    let high = "f47ac10b-58cc-4372-a567-0e02b2c3d479";
    let mut one = Arena::new();
    settle_claim(&mut one, claim(low, "spawn"));
    settle_claim(&mut one, claim(high, "spawn"));
    let mut other = Arena::new();
    settle_claim(&mut other, claim(high, "spawn"));
    settle_claim(&mut other, claim(low, "spawn"));
    assert_eq!(occupants(&one, "spawn"), vec![low.to_string()]);
    assert_eq!(occupants(&other, "spawn"), vec![low.to_string()]);
}

#[test]
fn claims_on_different_slots_do_not_collide() {
    let mut arena = Arena::new();
    settle_claim(&mut arena, claim("b", "s1"));
    let verdict = settle_claim(&mut arena, claim("a", "s2"));
    assert_eq!(verdict, ClaimVerdict::Granted { evicted: vec![] });
    assert_eq!(occupants(&arena, "s1"), vec!["b".to_string()]);
    assert_eq!(occupants(&arena, "s2"), vec!["a".to_string()]);
}

#[test]
fn repeated_claim_updates_the_claimant() {
    let mut arena = Arena::new();
    settle_claim(&mut arena, claim("a", "s1"));
    let mut moved = claim("a", "s1");
    moved.position = Vec3 { x: 7, y: 8, z: 9 };
    let verdict = settle_claim(&mut arena, moved.clone());
    assert_eq!(verdict, ClaimVerdict::Granted { evicted: vec![] });
    assert_eq!(arena.len(), 1);
    assert_eq!(arena.slot(0).state, moved);
}

#[test]
fn loser_keeps_losing_while_the_winner_stands() {
    let mut arena = Arena::new();
    settle_claim(&mut arena, claim("b", "s1"));
    settle_claim(&mut arena, claim("a", "s1"));
    let verdict = settle_claim(&mut arena, claim("b", "s1"));
    assert_eq!(verdict, ClaimVerdict::Refused { holder: "a".to_string() });
    assert_eq!(occupants(&arena, "s1"), vec!["a".to_string()]);
}

#[test]
fn slot_of_a_removed_player_is_free_again() {
    let mut arena = Arena::new();
    settle_claim(&mut arena, claim("a", "s1"));
    assert!(arena.flag(&"a".to_string()));
    let verdict = settle_claim(&mut arena, claim("b", "s1"));
    assert_eq!(verdict, ClaimVerdict::Granted { evicted: vec![] });
    assert_eq!(occupants(&arena, "s1"), vec!["b".to_string()]);
}

#[test]
fn claimant_evicts_every_rival_it_outranks() {
    let mut arena: Arena<PlayerState> = Arena::new();
    arena.reconcile(&vec![claim("m", "s1"), claim("z", "s2"), claim("q", "s1")]);
    let verdict = settle_claim(&mut arena, claim("c", "s1"));
    assert_eq!(verdict, ClaimVerdict::Granted { evicted: vec!["m".to_string(), "q".to_string()] });
    assert_eq!(occupants(&arena, "s1"), vec!["c".to_string()]);
    assert_eq!(occupants(&arena, "s2"), vec!["z".to_string()]);
}

#[test]
fn refusal_names_the_first_rival_that_outranks() {
    let mut arena: Arena<PlayerState> = Arena::new();
    arena.reconcile(&vec![claim("x", "s1"), claim("b", "s1"), claim("a", "s1")]);
    let verdict = settle_claim(&mut arena, claim("c", "s1"));
    assert_eq!(verdict, ClaimVerdict::Refused { holder: "b".to_string() });
    assert_eq!(arena.len(), 3);
    assert!(!arena.slot(0).despawn);
}

#[test]
fn ids_sort_by_their_text() {
    let text = |s: &str| s.to_string();
    assert!(id_before(&text("a"), &text("b")));
    assert!(!id_before(&text("b"), &text("a")));
    assert!(!id_before(&text("a"), &text("a")));
    assert!(id_before(&text(""), &text("a")));
    assert!(!id_before(&text(""), &text("")));
    assert!(id_before(&text("ab"), &text("abc")));
    assert!(!id_before(&text("abc"), &text("ab")));
    assert!(id_before(&text("abc"), &text("abd")));
    assert!(id_before(&text("10"), &text("9")));
    assert!(id_before(&text("Z"), &text("a")));
    assert!(id_before(&text("z"), &text("\u{e9}")));
    assert!(id_before(&text("\u{e9}"), &text("\u{4e2d}")));
}

#[test]
fn id_order_agrees_with_the_order_of_strings() {
    let samples = ["", "a", "ab", "b", "B", "0", "00", "\u{e9}", "zz", "z\u{0}"];
    for a in samples {
        for b in samples {
            assert_eq!(id_before(&a.to_string(), &b.to_string()), a < b, "{a:?} {b:?}");
        }
    }
}

#[test]
fn bytes_sort_place_by_place() {
    assert!(sorts_before(&[1, 2, 3], &[1, 2, 4]));
    assert!(sorts_before(&[1, 2], &[1, 2, 0]));
    assert!(!sorts_before(&[1, 2, 0], &[1, 2]));
    assert!(!sorts_before(&[2], &[1, 255]));
    assert!(sorts_before(&[], &[0]));
    assert!(!sorts_before(&[], &[]));
    assert!(sorts_before(&[127], &[128]));
}

#[test]
fn first_vacant_slot_is_chosen() {
    let slots = vec![slot("s1", 1.0), slot("s2", 2.0), slot("s3", 3.0)];
    let mut players = Arena::new();
    assert_eq!(first_unclaimed(&players, &slots), Some(0));
    settle_claim(&mut players, claim("a", "s1"));
    assert_eq!(first_unclaimed(&players, &slots), Some(1));
    settle_claim(&mut players, claim("b", "s3"));
    assert_eq!(first_unclaimed(&players, &slots), Some(1));
    settle_claim(&mut players, claim("c", "s2"));
    assert_eq!(first_unclaimed(&players, &slots), None);
    assert!(is_occupied(&players, &"s2".to_string()));
    players.flag(&"c".to_string());
    assert!(!is_occupied(&players, &"s2".to_string()));
    assert_eq!(first_unclaimed(&players, &slots), Some(1));
    assert_eq!(first_unclaimed(&players, &vec![]), None);
}

#[test]
fn planned_player_starts_as_the_slot_prescribes() {
    let slots = vec![slot("s1", 1.0), slot("s2", 2.0)];
    let mut players = Arena::new();
    settle_claim(&mut players, claim("a", "s1"));
    let plan = plan_spawn(&players, &slots, &"me".to_string(), "fresh".to_string());
    assert_eq!(
        plan,
        Ok(PlayerState {
            id: "fresh".to_string(),
            client_id: "me".to_string(),
            spawn_id: "s2".to_string(),
            radius: 25.0f32.to_bits(),
            color: Color { r: 1.0f32.to_bits(), g: 0, b: 0 },
            position: Vec3 { x: 2.0f32.to_bits(), y: 1.0f32.to_bits(), z: 0 },
            velocity: Vec2 { x: 0.0f32.to_bits(), y: 0.0f32.to_bits() },
        })
    );
}

#[test]
fn client_with_a_player_gets_no_second_one() {
    let slots = vec![slot("s1", 1.0), slot("s2", 2.0)];
    let mut players = Arena::new();
    settle_claim(&mut players, claim("a", "s1"));
    assert!(is_playing(&players, &"client-of-a".to_string()));
    let plan = plan_spawn(&players, &slots, &"client-of-a".to_string(), "fresh".to_string());
    assert_eq!(plan, Err(SpawnRefusal::AlreadyPlaying));
    players.flag(&"a".to_string());
    assert!(!is_playing(&players, &"client-of-a".to_string()));
    assert!(plan_spawn(&players, &slots, &"client-of-a".to_string(), "fresh".to_string()).is_ok());
}

#[test]
fn no_vacant_slot_no_spawn() {
    let slots = vec![slot("s1", 1.0)];
    let mut players = Arena::new();
    settle_claim(&mut players, claim("a", "s1"));
    let plan = plan_spawn(&players, &slots, &"me".to_string(), "fresh".to_string());
    assert_eq!(plan, Err(SpawnRefusal::NoFreeSlot));
    assert_eq!(
        spawn_player(&mut players, &slots, &"me".to_string()),
        Err(SpawnRefusal::NoFreeSlot)
    );
    assert_eq!(players.len(), 1);
}

#[test]
fn taken_id_no_spawn() {
    let slots = vec![slot("s1", 1.0), slot("s2", 2.0)];
    let mut players = Arena::new();
    settle_claim(&mut players, claim("a", "s1"));
    let plan = plan_spawn(&players, &slots, &"me".to_string(), "a".to_string());
    assert_eq!(plan, Err(SpawnRefusal::IdTaken));
}

#[test]
fn already_playing_is_told_before_anything_else() {
    let slots = vec![slot("s1", 1.0)];
    let mut players = Arena::new();
    settle_claim(&mut players, claim("a", "s1"));
    let plan = plan_spawn(&players, &slots, &"client-of-a".to_string(), "a".to_string());
    assert_eq!(plan, Err(SpawnRefusal::AlreadyPlaying));
}

#[test]
fn spawned_player_joins_as_a_local_entity() {
    let slots = vec![slot("s1", 1.0), slot("s2", 2.0)];
    let mut players = Arena::new();
    let first = spawn_player(&mut players, &slots, &"one".to_string()).unwrap();
    let second = spawn_player(&mut players, &slots, &"two".to_string()).unwrap();
    assert_eq!(first.spawn_id, "s1");
    assert_eq!(second.spawn_id, "s2");
    assert_eq!(first.client_id, "one");
    assert_eq!(first.id.len(), 36);
    assert_ne!(first.id, second.id);
    assert_eq!(players.len(), 2);
    assert_eq!(players.slot(0).state, first);
    assert!(!players.slot(0).confirmed);
    assert!(!players.slot(0).despawn);
    assert_eq!(
        spawn_player(&mut players, &slots, &"one".to_string()),
        Err(SpawnRefusal::AlreadyPlaying)
    );
    assert_eq!(
        spawn_player(&mut players, &slots, &"three".to_string()),
        Err(SpawnRefusal::NoFreeSlot)
    );
}

#[test]
fn proposal_leaves_the_arena_alone() {
    let slots = vec![slot("s1", 1.0), slot("s2", 2.0)];
    let mut players = Arena::new();
    settle_claim(&mut players, claim("a", "s1"));
    let proposal = propose_spawn(&players, &slots, &"me".to_string()).unwrap();
    assert_eq!(proposal.spawn_id, "s2");
    assert_eq!(proposal.client_id, "me");
    assert_eq!(proposal.id.len(), 36);
    assert_eq!(proposal.velocity, Vec2 { x: 0, y: 0 });
    assert_eq!(players.len(), 1);
    assert_eq!(
        propose_spawn(&players, &slots, &"client-of-a".to_string()),
        Err(SpawnRefusal::AlreadyPlaying)
    );
    settle_claim(&mut players, proposal);
    assert_eq!(propose_spawn(&players, &slots, &"you".to_string()), Err(SpawnRefusal::NoFreeSlot));
}

#[test]
fn loser_announces_its_own_despawn() {
    let mut arena = Arena::new();
    settle_claim(&mut arena, claim("mine", "s1"));
    let verdict = settle_claim(&mut arena, claim("lower", "s1"));
    let claimant = "lower".to_string();
    assert_eq!(
        concession(&claimant, &verdict, &"mine".to_string()),
        Some(Payload::DespawnPlayer { player_id: "mine".to_string() })
    );
    assert_eq!(concession(&claimant, &verdict, &"bystander".to_string()), None);
    assert_eq!(concession(&claimant, &verdict, &claimant), None);
}

#[test]
fn winner_announces_nothing() {
    let mut arena = Arena::new();
    let a = "a".to_string();
    let b = "b".to_string();
    let granted = settle_claim(&mut arena, claim("a", "s1"));
    assert_eq!(concession(&a, &granted, &a), None);
    let refused = settle_claim(&mut arena, claim("b", "s1"));
    assert_eq!(concession(&b, &refused, &a), None);
    assert_eq!(concession(&b, &refused, &"bystander".to_string()), None);
}

#[test]
fn refused_claimant_announces_its_own_despawn() {
    let mut arena = Arena::new();
    settle_claim(&mut arena, claim("a", "s1"));
    let refused = settle_claim(&mut arena, claim("b", "s1"));
    assert_eq!(refused, ClaimVerdict::Refused { holder: "a".to_string() });
    let b = "b".to_string();
    assert_eq!(
        concession(&b, &refused, &b),
        Some(Payload::DespawnPlayer { player_id: "b".to_string() })
    );
}

#[test]
fn seat_is_given_up_when_its_own_claim_is_refused() {
    let slots = vec![slot("s1", 1.0), slot("s2", 2.0)];
    let mut players = Arena::new();
    // The winner's announcement is taken in first.
    settle_claim(&mut players, claim("", "s1"));
    let mut seat = Seat::new("me".to_string());
    // The seat proposed its player before it knew of the winner.
    let state = match seat.fill(&Arena::new(), &slots) {
        Some(Payload::Player(state)) => state,
        other => panic!("expected a player, got {:?}", other),
    };
    let own = state.id.clone();
    assert_eq!(state.spawn_id, "s1");
    // Now the echo of its own announcement arrives, and is refused.
    let verdict = settle_claim(&mut players, state);
    assert_eq!(verdict, ClaimVerdict::Refused { holder: String::new() });
    assert_eq!(
        seat.heed(&own, &verdict),
        Some(Payload::DespawnPlayer { player_id: own.clone() })
    );
    assert_eq!(seat.player(), None);
    // The owner tries again, in the other slot.
    match seat.fill(&players, &slots) {
        Some(Payload::Player(state)) => {
            assert_eq!(state.spawn_id, "s2");
            assert_ne!(state.id, own);
        }
        other => panic!("expected a player, got {:?}", other),
    }
}

#[test]
fn empty_seat_is_filled_once() {
    let slots = vec![slot("s1", 1.0), slot("s2", 2.0)];
    let mut players = Arena::new();
    let mut seat = Seat::new("me".to_string());
    assert_eq!(seat.player(), None);
    let announcement = seat.fill(&players, &slots).unwrap();
    let state = match announcement {
        Payload::Player(state) => state,
        other => panic!("expected a player, got {:?}", other),
    };
    assert_eq!(state.client_id, "me");
    assert_eq!(state.spawn_id, "s1");
    assert_eq!(seat.player(), Some(&state.id));
    // The seat is taken: nothing more is announced.
    assert_eq!(seat.fill(&players, &slots), None);
    settle_claim(&mut players, state.clone());
    assert_eq!(seat.fill(&players, &slots), None);
    assert_eq!(seat.player(), Some(&state.id));
}

#[test]
fn seat_stays_empty_where_no_spawn_is_possible() {
    let slots = vec![slot("s1", 1.0)];
    let mut players = Arena::new();
    settle_claim(&mut players, claim("a", "s1"));
    let mut seat = Seat::new("me".to_string());
    assert_eq!(seat.fill(&players, &slots), None);
    assert_eq!(seat.player(), None);
    let mut taken = Seat::new("client-of-a".to_string());
    assert_eq!(taken.fill(&players, &vec![slot("s1", 1.0), slot("s2", 2.0)]), None);
}

#[test]
fn seat_is_given_up_when_its_player_loses_the_slot() {
    let slots = vec![slot("s1", 1.0), slot("s2", 2.0)];
    let mut players = Arena::new();
    let mut seat = Seat::new("me".to_string());
    let state = match seat.fill(&players, &slots) {
        Some(Payload::Player(state)) => state,
        other => panic!("expected a player, got {:?}", other),
    };
    let own = state.id.clone();
    assert!(matches!(settle_claim(&mut players, state), ClaimVerdict::Granted { .. }));
    // A player whose id sorts before every minted id claims the same slot.
    let verdict = settle_claim(&mut players, claim("", "s1"));
    let notice = seat.heed(&String::new(), &verdict);
    assert_eq!(notice, Some(Payload::DespawnPlayer { player_id: own.clone() }));
    assert_eq!(seat.player(), None);
    assert_eq!(seat.heed(&String::new(), &verdict), None);
    // The next player is proposed for the other slot.
    match seat.fill(&players, &slots) {
        Some(Payload::Player(state)) => {
            assert_eq!(state.spawn_id, "s2");
            assert_ne!(state.id, own);
        }
        other => panic!("expected a player, got {:?}", other),
    }
}

#[test]
fn verdicts_on_others_leave_the_seat_alone() {
    let mut seat = Seat::new("me".to_string());
    let other = "y".to_string();
    let verdict = ClaimVerdict::Granted { evicted: vec!["x".to_string()] };
    assert_eq!(seat.heed(&other, &verdict), None);
    let slots = vec![slot("s1", 1.0)];
    let own = match seat.fill(&Arena::new(), &slots) {
        Some(Payload::Player(state)) => state.id,
        other => panic!("expected a player, got {:?}", other),
    };
    assert_eq!(seat.heed(&other, &verdict), None);
    // Another player's claim was refused in favour of ours.
    assert_eq!(seat.heed(&other, &ClaimVerdict::Refused { holder: own.clone() }), None);
    // Our own claim was granted.
    assert_eq!(seat.heed(&own, &ClaimVerdict::Granted { evicted: vec![other.clone()] }), None);
    assert_eq!(seat.player(), Some(&own));
}

#[test]
fn seat_is_vacated_when_its_player_is_gone() {
    let mut seat = Seat::new("me".to_string());
    let slots = vec![slot("s1", 1.0)];
    let own = match seat.fill(&Arena::new(), &slots) {
        Some(Payload::Player(state)) => state.id,
        other => panic!("expected a player, got {:?}", other),
    };
    assert!(!seat.vacate(&"someone-else".to_string()));
    assert_eq!(seat.player(), Some(&own));
    assert!(seat.vacate(&own));
    assert_eq!(seat.player(), None);
    assert!(!seat.vacate(&own));
}
