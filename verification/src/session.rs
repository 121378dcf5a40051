//! A peer's session: what it does with each message that the relay bus
//! hands to the local application.

use vstd::prelude::*;
use crate::arena::{
    casualties, flagged, holds, lemma_flagged_holds, states_of, survivors, upserted, SlotView,
};
use crate::claims::{
    claimed, lemma_flagged_then_swept, lemma_lower_id_wins, lemma_sole_occupant_flagged,
    lemma_sole_occupant_swept, outranked, sole_occupant, vacant, verdict_for, ClaimVerdict,
    ClaimVerdictView,
};
use crate::ident::{lemma_text_order, text_before};
use crate::model::{
    views, BulletState, Envelope, EnvelopeView, Input, Payload, PayloadView, PlayerState,
    PlayerStateView, Snapshot, SnapshotView,
};
use crate::reconciler::{
    leading, offered, sound, stamps_of, swept, verdict_on, Reconciler, ReconcilerView, Removed,
    Verdict,
};

verus! {

/// What a session did with a message, and what is left for the
/// application to do.
#[derive(Debug, PartialEq, Eq)]
pub enum Reaction {
    /// The message speaks of an entity that is known to be gone; it was
    /// ignored.
    Ignored,
    /// The announcement of the player `claimant` was settled as a claim on
    /// its spawn slot.
    Claim { claimant: String, verdict: ClaimVerdict },
    /// A bullet's announcement was taken over; the bullet is new where
    /// `created` holds.
    BulletSynced { created: bool },
    /// An intent of a client, to be applied by the simulation; `id` is the
    /// id of the message that carried it.
    Intent { id: String, client_id: String, input: Input },
    /// A snapshot was offered to the reconciler.
    Reconciled(Verdict),
    /// A peer has lost track: a full snapshot is to be sent. However many
    /// peers ask within one tick, [`Session::tick`] says so once.
    SnapshotWanted,
    /// The player with the id is gone; `known` tells whether the entity set
    /// held it.
    PlayerGone { player_id: String, known: bool },
}

/// Mathematical view of a [`Reaction`].
pub enum ReactionView {
    Ignored,
    Claim { claimant: Seq<char>, verdict: ClaimVerdictView },
    BulletSynced { created: bool },
    Intent { id: Seq<char>, client_id: Seq<char>, input: Input },
    Reconciled(Verdict),
    SnapshotWanted,
    PlayerGone { player_id: Seq<char>, known: bool },
}

impl View for Reaction {
    type V = ReactionView;

    open spec fn view(&self) -> ReactionView {
        match self {
            Reaction::Ignored => ReactionView::Ignored,
            Reaction::Claim { claimant, verdict } => ReactionView::Claim {
                claimant: claimant@,
                verdict: verdict@,
            },
            Reaction::BulletSynced { created } => ReactionView::BulletSynced { created: *created },
            Reaction::Intent { id, client_id, input } => ReactionView::Intent {
                id: id@,
                client_id: client_id@,
                input: *input,
            },
            Reaction::Reconciled(verdict) => ReactionView::Reconciled(*verdict),
            Reaction::SnapshotWanted => ReactionView::SnapshotWanted,
            Reaction::PlayerGone { player_id, known } => ReactionView::PlayerGone {
                player_id: player_id@,
                known: *known,
            },
        }
    }
}

/// Mathematical view of a [`Session`].
pub struct SessionView {
    /// The local entity set.
    pub world: ReconcilerView,
    /// The ids of the entities that are known to be gone, in the order in
    /// which the session learned of them.
    pub gone: Seq<Seq<char>>,
}

/// The list of ids known to be gone, after one more id was learned.
pub open spec fn buried(gone: Seq<Seq<char>>, id: Seq<char>) -> Seq<Seq<char>> {
    if gone.contains(id) {
        gone
    } else {
        gone.push(id)
    }
}

/// The session after a message.
pub open spec fn ingested(state: SessionView, envelope: EnvelopeView) -> SessionView {
    match envelope.payload {
        PayloadView::Player(claim) => if state.gone.contains(claim.id) {
            state
        } else {
            SessionView {
                world: ReconcilerView {
                    players: claimed(state.world.players, claim),
                    ..state.world
                },
                ..state
            }
        },
        PayloadView::Bullet(bullet) => if state.gone.contains(bullet.id) {
            state
        } else {
            SessionView {
                world: ReconcilerView {
                    bullets: upserted::<BulletState>(state.world.bullets, bullet),
                    ..state.world
                },
                ..state
            }
        },
        PayloadView::Input { client_id, input } => state,
        PayloadView::Snapshot(snapshot) => SessionView {
            world: offered(state.world, snapshot),
            ..state
        },
        PayloadView::OutOfSync => state,
        PayloadView::DespawnPlayer { player_id } => SessionView {
            world: ReconcilerView {
                players: flagged::<PlayerState>(state.world.players, player_id),
                ..state.world
            },
            gone: buried(state.gone, player_id),
        },
    }
}

/// The reaction to a message.
pub open spec fn reaction_to(state: SessionView, envelope: EnvelopeView) -> ReactionView {
    match envelope.payload {
        PayloadView::Player(claim) => if state.gone.contains(claim.id) {
            ReactionView::Ignored
        } else {
            ReactionView::Claim {
                claimant: claim.id,
                verdict: verdict_for(state.world.players, claim),
            }
        },
        PayloadView::Bullet(bullet) => if state.gone.contains(bullet.id) {
            ReactionView::Ignored
        } else {
            ReactionView::BulletSynced {
                created: !holds::<BulletState>(state.world.bullets, bullet.id),
            }
        },
        PayloadView::Input { client_id, input } => ReactionView::Intent {
            id: envelope.id,
            client_id,
            input,
        },
        PayloadView::Snapshot(snapshot) => ReactionView::Reconciled(
            verdict_on(state.world, snapshot),
        ),
        PayloadView::OutOfSync => ReactionView::SnapshotWanted,
        PayloadView::DespawnPlayer { player_id } => ReactionView::PlayerGone {
            player_id,
            known: holds::<PlayerState>(state.world.players, player_id),
        },
    }
}

/// The snapshots among the messages of a tick, in the order of arrival.
pub open spec fn snapshots_among(arrived: Seq<EnvelopeView>) -> Seq<SnapshotView>
    decreases arrived.len(),
{
    if arrived.len() == 0 {
        Seq::empty()
    } else {
        match arrived.last().payload {
            PayloadView::Snapshot(snapshot) => snapshots_among(arrived.drop_last()).push(snapshot),
            _ => snapshots_among(arrived.drop_last()),
        }
    }
}

/// The session after the messages of a tick other than snapshots, one by
/// one in the order of arrival.
pub open spec fn ingested_others(state: SessionView, arrived: Seq<EnvelopeView>) -> SessionView
    decreases arrived.len(),
{
    if arrived.len() == 0 {
        state
    } else {
        let earlier = ingested_others(state, arrived.drop_last());
        if arrived.last().payload is Snapshot {
            earlier
        } else {
            ingested(earlier, arrived.last())
        }
    }
}

/// Whether one of the reactions asks for a snapshot to be sent.
pub open spec fn snapshot_wanted(reactions: Seq<ReactionView>) -> bool {
    exists|i: int| 0 <= i < reactions.len() && #[trigger] reactions[i] is SnapshotWanted
}

/// Whether one of the messages asks for a snapshot.
pub open spec fn snapshot_requested(arrived: Seq<EnvelopeView>) -> bool {
    exists|i: int| 0 <= i < arrived.len() && (#[trigger] arrived[i]).payload is OutOfSync
}

/// Whether at most one of the reactions asks for a snapshot to be sent.
pub open spec fn asks_once(reactions: Seq<ReactionView>) -> bool {
    forall|i: int, j: int|
        0 <= i < j < reactions.len() ==> !(#[trigger] reactions[i] is SnapshotWanted
            && #[trigger] reactions[j] is SnapshotWanted)
}

/// The reactions to the messages of a tick other than snapshots, in the
/// order of arrival. Requests for a snapshot are answered once a tick: the
/// first of them gives rise to a reaction, the others to none.
pub open spec fn reactions_to_others(state: SessionView, arrived: Seq<EnvelopeView>) -> Seq<
    ReactionView,
>
    decreases arrived.len(),
{
    if arrived.len() == 0 {
        Seq::empty()
    } else {
        let earlier = reactions_to_others(state, arrived.drop_last());
        if arrived.last().payload is Snapshot {
            earlier
        } else if arrived.last().payload is OutOfSync && snapshot_wanted(earlier) {
            earlier
        } else {
            earlier.push(reaction_to(ingested_others(state, arrived.drop_last()), arrived.last()))
        }
    }
}

/// The session after a tick: every message other than a snapshot was
/// taken in the order of arrival, and then, of the snapshots that arrived,
/// the one with the greatest timestamp was offered to the reconciler. The
/// other snapshots of the tick count for nothing.
pub open spec fn after_tick(state: SessionView, arrived: Seq<EnvelopeView>) -> SessionView {
    let others = ingested_others(state, arrived);
    let snapshots = snapshots_among(arrived);
    if snapshots.len() == 0 {
        others
    } else {
        SessionView {
            world: offered(others.world, snapshots[leading(stamps_of(snapshots))]),
            gone: others.gone,
        }
    }
}

/// The reactions of a tick: those to the messages other than snapshots, in
/// the order of arrival, and behind them the verdict on the snapshot that
/// counted, where one arrived.
pub open spec fn reactions_of_tick(state: SessionView, arrived: Seq<EnvelopeView>) -> Seq<
    ReactionView,
> {
    let others = ingested_others(state, arrived);
    let snapshots = snapshots_among(arrived);
    if snapshots.len() == 0 {
        reactions_to_others(state, arrived)
    } else {
        reactions_to_others(state, arrived).push(
            ReactionView::Reconciled(
                verdict_on(others.world, snapshots[leading(stamps_of(snapshots))]),
            ),
        )
    }
}

/// The players among those known to be gone that an entity set holds:
/// how many there are.
pub open spec fn known_among(players: Seq<SlotView<PlayerStateView>>, gone: Seq<Seq<char>>) -> nat
    decreases gone.len(),
{
    if gone.len() == 0 {
        0
    } else if holds::<PlayerState>(players, gone.last()) {
        known_among(players, gone.drop_last()) + 1
    } else {
        known_among(players, gone.drop_last())
    }
}

/// The entity set after every player named in a list was scheduled for
/// removal.
pub open spec fn purged(world: ReconcilerView, gone: Seq<Seq<char>>) -> ReconcilerView
    decreases gone.len(),
{
    if gone.len() == 0 {
        world
    } else {
        let earlier = purged(world, gone.drop_last());
        ReconcilerView {
            players: flagged::<PlayerState>(earlier.players, gone.last()),
            ..earlier
        }
    }
}

/// The session after the teardown pass.
pub open spec fn torn_down(state: SessionView) -> SessionView {
    SessionView { world: swept(state.world), gone: state.gone }
}

/// A message that announces a player.
pub open spec fn announcing(id: Seq<char>, claim: PlayerStateView) -> EnvelopeView {
    EnvelopeView { id, payload: PayloadView::Player(claim) }
}

/// A message that tells of a player's despawn.
pub open spec fn despawning(id: Seq<char>, player_id: Seq<char>) -> EnvelopeView {
    EnvelopeView { id, payload: PayloadView::DespawnPlayer { player_id } }
}

/// A peer's session: the reconciler with its entity set, and the ids of
/// the entities that are known to be gone.
pub struct Session {
    world: Reconciler,
    gone: Vec<String>,
}

impl View for Session {
    type V = SessionView;

    closed spec fn view(&self) -> SessionView {
        SessionView { world: self.world@, gone: views(self.gone@) }
    }
}

impl Session {
    /// The session's invariant: that of its reconciler, and no id is
    /// recorded twice as gone.
    pub open spec fn wf(&self) -> bool {
        &&& sound(self@.world)
        &&& self@.gone.no_duplicates()
    }

    /// A session that knows of nothing.
    pub fn new() -> (session: Self)
        ensures
            session@ == (SessionView {
                world: ReconcilerView {
                    latest: None,
                    players: Seq::empty(),
                    bullets: Seq::empty(),
                },
                gone: Seq::empty(),
            }),
            session.wf(),
    {
        let session = Session { world: Reconciler::new(), gone: Vec::new() };
        assert(views(session.gone@) =~= Seq::<Seq<char>>::empty());
        session
    }

    /// The reconciler and its entity set.
    pub fn world(&self) -> (world: &Reconciler)
        ensures
            world@ == self@.world,
    {
        &self.world
    }

    /// Whether the entity with the id is known to be gone.
    pub fn is_gone(&self, id: &String) -> (gone: bool)
        ensures
            gone == self@.gone.contains(id@),
    {
        let mut i: usize = 0;
        while i < self.gone.len()
            invariant
                i <= self.gone.len(),
                forall|j: int| 0 <= j < i ==> #[trigger] views(self.gone@)[j] != id@,
            decreases self.gone.len() - i,
        {
            if self.gone[i] == *id {
                assert(views(self.gone@)[i as int] == id@);
                return true;
            }
            i += 1;
        }
        false
    }

    /// Records that the entity with the id is gone.
    fn bury(&mut self, id: String)
        requires
            old(self)@.gone.no_duplicates(),
        ensures
            final(self)@ == (SessionView {
                world: old(self)@.world,
                gone: buried(old(self)@.gone, id@),
            }),
            final(self)@.gone.no_duplicates(),
    {
        if !self.is_gone(&id) {
            let ghost before = views(self.gone@);
            self.gone.push(id);
            assert(views(self.gone@) =~= before.push(id@));
        }
    }

    /// Takes a message that the relay bus handed over. A player's or a
    /// bullet's announcement is ignored where the entity is known to be
    /// gone; otherwise the player's is settled as a claim on its spawn slot
    /// and the bullet's is taken over. A snapshot is offered to the
    /// reconciler. A despawn notice schedules the player for removal and
    /// records that it is gone. Intents and requests for a snapshot change
    /// nothing here and are handed on.
    pub fn ingest(&mut self, envelope: Envelope) -> (reaction: Reaction)
        requires
            old(self).wf(),
        ensures
            final(self)@ == ingested(old(self)@, envelope@),
            reaction@ == reaction_to(old(self)@, envelope@),
            final(self).wf(),
    {
        match envelope.payload {
            Payload::Player(claim) => {
                if self.is_gone(&claim.id) {
                    Reaction::Ignored
                } else {
                    let claimant = claim.id.clone();
                    Reaction::Claim { claimant, verdict: self.world.claim_player(claim) }
                }
            },
            Payload::Bullet(bullet) => {
                if self.is_gone(&bullet.id) {
                    Reaction::Ignored
                } else {
                    Reaction::BulletSynced { created: self.world.sync_bullet(bullet) }
                }
            },
            Payload::Input { client_id, input } => Reaction::Intent {
                id: envelope.id,
                client_id,
                input,
            },
            Payload::Snapshot(snapshot) => Reaction::Reconciled(self.world.offer(&snapshot)),
            Payload::OutOfSync => Reaction::SnapshotWanted,
            Payload::DespawnPlayer { player_id } => {
                let known = self.world.despawn_player(&player_id);
                self.bury(player_id.clone());
                Reaction::PlayerGone { player_id, known }
            },
        }
    }

    /// Takes the messages that arrived within one tick. Messages other than
    /// snapshots are taken one by one, as [`Session::ingest`] takes them. Of
    /// the snapshots only the one with the greatest timestamp is offered to
    /// the reconciler, once the other messages are dealt with; a late
    /// snapshot of the same tick cannot undo a newer one. However many
    /// requests for a snapshot arrived, at most one reaction asks for one
    /// to be sent.
    pub fn tick(&mut self, arrived: &Vec<Envelope>) -> (reactions: Vec<Reaction>)
        requires
            old(self).wf(),
        ensures
            final(self)@ == after_tick(old(self)@, views(arrived@)),
            views(reactions@) == reactions_of_tick(old(self)@, views(arrived@)),
            asks_once(views(reactions@)),
            snapshot_wanted(views(reactions@)) <==> snapshot_requested(views(arrived@)),
            final(self).wf(),
    {
        let ghost start = self@;
        let ghost listed = views(arrived@);
        let mut reactions: Vec<Reaction> = Vec::new();
        let mut batch: Vec<Snapshot> = Vec::new();
        let mut asked = false;
        let mut i: usize = 0;
        proof {
            lemma_asks_once(start, listed);
        }
        while i < arrived.len()
            invariant
                i <= arrived.len(),
                listed == views(arrived@),
                self.wf(),
                self@ == ingested_others(start, listed.take(i as int)),
                views(reactions@) == reactions_to_others(start, listed.take(i as int)),
                views(batch@) == snapshots_among(listed.take(i as int)),
                asked == snapshot_wanted(views(reactions@)),
            decreases arrived.len() - i,
        {
            let ghost sofar = views(reactions@);
            let ghost gathered = views(batch@);
            proof {
                assert(listed.take(i as int + 1).drop_last() =~= listed.take(i as int));
                assert(listed.take(i as int + 1).last() == listed[i as int]);
                assert(listed[i as int] == arrived[i as int]@);
            }
            match &arrived[i].payload {
                Payload::Snapshot(snapshot) => {
                    batch.push(snapshot.clone());
                    assert(views(batch@) =~= gathered.push(snapshot@));
                },
                Payload::OutOfSync => {
                    if !asked {
                        reactions.push(Reaction::SnapshotWanted);
                        asked = true;
                        proof {
                            assert(views(reactions@) =~= sofar.push(ReactionView::SnapshotWanted));
                            assert(views(reactions@)[sofar.len() as int] is SnapshotWanted);
                        }
                    }
                },
                _ => {
                    let reaction = self.ingest(arrived[i].clone());
                    reactions.push(reaction);
                    proof {
                        assert(views(reactions@) =~= sofar.push(reaction@));
                        if snapshot_wanted(views(reactions@)) {
                            let k = choose|k: int|
                                0 <= k < views(reactions@).len() && #[trigger] views(
                                    reactions@,
                                )[k] is SnapshotWanted;
                            assert(sofar[k] is SnapshotWanted);
                        }
                        if snapshot_wanted(sofar) {
                            let k = choose|k: int|
                                0 <= k < sofar.len() && #[trigger] sofar[k] is SnapshotWanted;
                            assert(views(reactions@)[k] is SnapshotWanted);
                        }
                    }
                },
            }
            i += 1;
        }
        assert(listed.take(arrived.len() as int) =~= listed);
        let ghost sofar = views(reactions@);
        match self.world.offer_batch(&batch) {
            Some((_, verdict)) => {
                reactions.push(Reaction::Reconciled(verdict));
                assert(views(reactions@) =~= sofar.push(ReactionView::Reconciled(verdict)));
            },
            None => {},
        }
        reactions
    }

    /// The answer to the requests for a snapshot that a tick brought: one
    /// snapshot of the entity set under the given timestamp where any of the
    /// reactions asks for one, however many do, and nothing where none does.
    pub fn answer(&self, reactions: &Vec<Reaction>, timestamp: u64) -> (reply: Option<Payload>)
        requires
            self.wf(),
        ensures
            snapshot_wanted(views(reactions@)) ==> reply is Some && reply->0@
                == PayloadView::Snapshot(
                SnapshotView {
                    timestamp,
                    players: states_of(survivors(self@.world.players)),
                    bullets: states_of(survivors(self@.world.bullets)),
                },
            ),
            !snapshot_wanted(views(reactions@)) ==> reply is None,
    {
        if snapshot_due(reactions) {
            Some(Payload::Snapshot(self.world.capture(timestamp)))
        } else {
            None
        }
    }

    /// Takes a bullet out of the game for good: it is scheduled for removal
    /// and recorded as gone, so that a late announcement does not bring it
    /// back. Tells whether the entity set held it.
    pub fn retire_bullet(&mut self, id: String) -> (known: bool)
        requires
            old(self).wf(),
        ensures
            known == holds::<BulletState>(old(self)@.world.bullets, id@),
            final(self)@ == (SessionView {
                world: ReconcilerView {
                    bullets: flagged::<BulletState>(old(self)@.world.bullets, id@),
                    ..old(self)@.world
                },
                gone: buried(old(self)@.gone, id@),
            }),
            final(self).wf(),
    {
        let known = self.world.despawn_bullet(&id);
        self.bury(id);
        known
    }

    /// The teardown pass over the entity set: removes every entity that is
    /// scheduled for removal, and names what it removed. What is known to
    /// be gone stays known.
    pub fn sweep(&mut self) -> (removed: Removed)
        requires
            old(self).wf(),
        ensures
            final(self)@ == (SessionView { world: swept(old(self)@.world), gone: old(self)@.gone }),
            views(removed.players@) == casualties::<PlayerState>(old(self)@.world.players),
            views(removed.bullets@) == casualties::<BulletState>(old(self)@.world.bullets),
            final(self).wf(),
    {
        self.world.sweep()
    }

    /// Schedules for removal every player that is known to be gone, however
    /// it came back into the entity set. Returns how many of those known to
    /// be gone the entity set held.
    pub fn purge(&mut self) -> (count: usize)
        requires
            old(self).wf(),
        ensures
            final(self)@.gone == old(self)@.gone,
            final(self)@.world == purged(old(self)@.world, old(self)@.gone),
            count == known_among(old(self)@.world.players, old(self)@.gone),
            final(self).wf(),
    {
        let ghost gone = self@.gone;
        let ghost start = self@.world;
        let mut count: usize = 0;
        let mut i: usize = 0;
        while i < self.gone.len()
            invariant
                i <= self.gone.len(),
                self.wf(),
                self@.gone == gone,
                gone == views(self.gone@),
                self@.world == purged(start, gone.take(i as int)),
                count == known_among(start.players, gone.take(i as int)),
                count <= i,
            decreases self.gone.len() - i,
        {
            proof {
                assert(gone.take(i as int + 1).drop_last() =~= gone.take(i as int));
                assert(gone.take(i as int + 1).last() == gone[i as int]);
                lemma_purged_holds(start, gone.take(i as int), gone[i as int]);
            }
            if self.world.despawn_player(&self.gone[i]) {
                count += 1;
            }
            i += 1;
        }
        assert(gone.take(self.gone.len() as int) =~= gone);
        count
    }
}

/// Whether one of the reactions asks for a snapshot to be sent.
pub fn snapshot_due(reactions: &Vec<Reaction>) -> (due: bool)
    ensures
        due == snapshot_wanted(views(reactions@)),
{
    let mut i: usize = 0;
    while i < reactions.len()
        invariant
            i <= reactions.len(),
            forall|j: int| 0 <= j < i ==> !(#[trigger] views(reactions@)[j] is SnapshotWanted),
        decreases reactions.len() - i,
    {
        match &reactions[i] {
            Reaction::SnapshotWanted => {
                assert(views(reactions@)[i as int] is SnapshotWanted);
                return true;
            },
            _ => {},
        }
        i += 1;
    }
    false
}

/// Scheduling players for removal changes no id: the entity set holds the
/// same players as before.
pub proof fn lemma_purged_holds(world: ReconcilerView, gone: Seq<Seq<char>>, id: Seq<char>)
    ensures
        holds::<PlayerState>(purged(world, gone).players, id) == holds::<PlayerState>(
            world.players,
            id,
        ),
    decreases gone.len(),
{
    if gone.len() > 0 {
        lemma_purged_holds(world, gone.drop_last(), id);
        lemma_flagged_holds::<PlayerState>(
            purged(world, gone.drop_last()).players,
            gone.last(),
            id,
        );
    }
}

/// Requests for a snapshot are answered once a tick: where no request
/// arrived, no reaction asks for a snapshot to be sent; where requests
/// arrived, however many, exactly one reaction does.
pub proof fn lemma_asks_once(state: SessionView, arrived: Seq<EnvelopeView>)
    ensures
        asks_once(reactions_to_others(state, arrived)),
        asks_once(reactions_of_tick(state, arrived)),
        snapshot_wanted(reactions_to_others(state, arrived)) <==> snapshot_requested(arrived),
        snapshot_wanted(reactions_of_tick(state, arrived)) <==> snapshot_requested(arrived),
    decreases arrived.len(),
{
    if arrived.len() > 0 {
        lemma_asks_once(state, arrived.drop_last());
        let earlier = reactions_to_others(state, arrived.drop_last());
        let all = reactions_to_others(state, arrived);
        let shorter = arrived.drop_last();
        let last = arrived.last();
        assert(snapshot_requested(arrived) <==> snapshot_requested(shorter)
            || last.payload is OutOfSync) by {
            if snapshot_requested(arrived) {
                let i = choose|i: int|
                    0 <= i < arrived.len() && (#[trigger] arrived[i]).payload is OutOfSync;
                if i < shorter.len() {
                    assert(shorter[i].payload is OutOfSync);
                }
            }
            if snapshot_requested(shorter) {
                let i = choose|i: int|
                    0 <= i < shorter.len() && (#[trigger] shorter[i]).payload is OutOfSync;
                assert(arrived[i].payload is OutOfSync);
            }
            if last.payload is OutOfSync {
                assert(arrived[arrived.len() - 1].payload is OutOfSync);
            }
        }
        assert(snapshot_wanted(all) <==> snapshot_wanted(earlier) || last.payload is OutOfSync) by {
            if snapshot_wanted(all) {
                let i = choose|i: int| 0 <= i < all.len() && #[trigger] all[i] is SnapshotWanted;
                if i < earlier.len() {
                    assert(earlier[i] is SnapshotWanted);
                }
            }
            if snapshot_wanted(earlier) {
                let i = choose|i: int|
                    0 <= i < earlier.len() && #[trigger] earlier[i] is SnapshotWanted;
                assert(all[i] is SnapshotWanted);
            }
            if last.payload is OutOfSync && !snapshot_wanted(earlier) {
                assert(all[earlier.len() as int] is SnapshotWanted);
            }
        }
        assert forall|i: int, j: int| 0 <= i < j < all.len() implies !(#[trigger] all[i]
            is SnapshotWanted && #[trigger] all[j] is SnapshotWanted) by {
            if j < earlier.len() {
                assert(all[i] == earlier[i] && all[j] == earlier[j]);
            } else if all[j] is SnapshotWanted {
                assert(all[i] == earlier[i]);
                if earlier[i] is SnapshotWanted {
                    assert(snapshot_wanted(earlier));
                }
            }
        }
    }
    let others = reactions_to_others(state, arrived);
    let whole = reactions_of_tick(state, arrived);
    assert forall|i: int, j: int| 0 <= i < j < whole.len() implies !(#[trigger] whole[i]
        is SnapshotWanted && #[trigger] whole[j] is SnapshotWanted) by {
        if j < others.len() {
            assert(whole[i] == others[i] && whole[j] == others[j]);
        }
    }
    assert(snapshot_wanted(whole) <==> snapshot_wanted(others)) by {
        if snapshot_wanted(whole) {
            let i = choose|i: int| 0 <= i < whole.len() && #[trigger] whole[i] is SnapshotWanted;
            assert(others[i] is SnapshotWanted);
        }
        if snapshot_wanted(others) {
            let i = choose|i: int| 0 <= i < others.len() && #[trigger] others[i] is SnapshotWanted;
            assert(whole[i] is SnapshotWanted);
        }
    }
}

/// Every peer reaches the same outcome: two players that are not known to
/// be gone announce themselves for one spawn slot, and the id of the first
/// sorts before the id of the second. In whichever order a session is
/// handed the two announcements, under whatever message ids, the outcome is
/// the same. Where no player with a still lower id stands in the slot, as
/// in a vacant slot, the first player ends up as the only occupant of the
/// slot; where such a player stands there, the players stay as they were.
pub proof fn lemma_sessions_agree(
    state: SessionView,
    low: PlayerStateView,
    high: PlayerStateView,
    first_id: Seq<char>,
    second_id: Seq<char>,
)
    requires
        low.spawn_id == high.spawn_id,
        text_before(low.id, high.id),
        !state.gone.contains(low.id),
        !state.gone.contains(high.id),
    ensures
        ({
            let low_first = ingested(
                ingested(state, announcing(first_id, low)),
                announcing(second_id, high),
            );
            let high_first = ingested(
                ingested(state, announcing(first_id, high)),
                announcing(second_id, low),
            );
            &&& vacant(state.world.players, low.spawn_id) ==> !outranked(state.world.players, low)
            &&& !outranked(state.world.players, low) ==> sole_occupant(
                low_first.world.players,
                low,
            ) && sole_occupant(high_first.world.players, low)
            &&& outranked(state.world.players, low) ==> low_first == state && high_first == state
        }),
{
    lemma_lower_id_wins(state.world.players, low, high);
}

/// The collision played out: after the two announcements, in whichever
/// order, the player with the higher id is told to be gone, and the
/// teardown pass runs. Where no player with a still lower id stood in the
/// slot, the session then holds the player with the lower id as the only
/// occupant of the slot, and holds the other player nowhere; this is so for
/// both orders of arrival, and so on every peer.
pub proof fn lemma_collision_settled(
    state: SessionView,
    low: PlayerStateView,
    high: PlayerStateView,
    first_id: Seq<char>,
    second_id: Seq<char>,
    third_id: Seq<char>,
)
    requires
        low.spawn_id == high.spawn_id,
        text_before(low.id, high.id),
        !outranked(state.world.players, low),
        !state.gone.contains(low.id),
        !state.gone.contains(high.id),
    ensures
        ({
            let low_first = torn_down(
                ingested(
                    ingested(
                        ingested(state, announcing(first_id, low)),
                        announcing(second_id, high),
                    ),
                    despawning(third_id, high.id),
                ),
            );
            let high_first = torn_down(
                ingested(
                    ingested(
                        ingested(state, announcing(first_id, high)),
                        announcing(second_id, low),
                    ),
                    despawning(third_id, high.id),
                ),
            );
            &&& sole_occupant(low_first.world.players, low)
            &&& sole_occupant(high_first.world.players, low)
            &&& !holds::<PlayerState>(low_first.world.players, high.id)
            &&& !holds::<PlayerState>(high_first.world.players, high.id)
        }),
{
    lemma_text_order(low.id, high.id, low.id);
    lemma_sessions_agree(state, low, high, first_id, second_id);
    let low_first = ingested(
        ingested(state, announcing(first_id, low)),
        announcing(second_id, high),
    );
    let high_first = ingested(
        ingested(state, announcing(first_id, high)),
        announcing(second_id, low),
    );
    lemma_sole_occupant_flagged(low_first.world.players, low, high.id);
    lemma_sole_occupant_flagged(high_first.world.players, low, high.id);
    lemma_sole_occupant_swept(flagged::<PlayerState>(low_first.world.players, high.id), low);
    lemma_sole_occupant_swept(flagged::<PlayerState>(high_first.world.players, high.id), low);
    lemma_flagged_then_swept(low_first.world.players, high.id);
    lemma_flagged_then_swept(high_first.world.players, high.id);
}

} // verus!
