//! The state reconciler: it owns the local entity set and lets it follow
//! the stream of authoritative snapshots, newest timestamp first.

use vstd::prelude::*;
use crate::arena::{
    casualties, distinct_slots, entry_map, flagged, fresh, holds, lemma_entry_of_key,
    lemma_fresh_members, lemma_reconciled_distinct, lemma_reconciled_picture,
    lemma_survivors_distinct, lists, live_map, local_slot, reconciled, states_of, survivors,
    upserted, Arena, SlotView,
};
use crate::claims::{claimed, settle_claim, verdict_for, ClaimVerdict};
use crate::model::{
    coherent, views, BulletState, BulletStateView, PlayerState, PlayerStateView, Snapshot,
    SnapshotView,
};

verus! {

/// What became of a snapshot that was offered to the reconciler.
#[derive(Clone, Copy, Debug, PartialEq, Eq, Structural)]
pub enum Verdict {
    /// The snapshot was newer than anything applied before, and the entity
    /// set now follows it.
    Applied,
    /// The snapshot was not newer than the one applied last; nothing
    /// changed.
    Stale,
    /// The snapshot named one id twice; nothing changed.
    Malformed,
}

/// Mathematical view of a [`Reconciler`].
pub struct ReconcilerView {
    /// The timestamp of the snapshot applied last.
    pub latest: Option<u64>,
    pub players: Seq<SlotView<PlayerStateView>>,
    pub bullets: Seq<SlotView<BulletStateView>>,
}

/// Whether a snapshot with this timestamp is newer than what was applied:
/// strictly greater wins, an equal one keeps what is there, and before
/// anything was applied every snapshot is newer.
pub open spec fn newer(latest: Option<u64>, timestamp: u64) -> bool {
    match latest {
        None => true,
        Some(t) => timestamp > t,
    }
}

/// The verdict on a snapshot offered in a given state.
pub open spec fn verdict_on(state: ReconcilerView, snapshot: SnapshotView) -> Verdict {
    if !newer(state.latest, snapshot.timestamp) {
        Verdict::Stale
    } else if !coherent(snapshot) {
        Verdict::Malformed
    } else {
        Verdict::Applied
    }
}

/// The state after a snapshot was offered.
pub open spec fn offered(state: ReconcilerView, snapshot: SnapshotView) -> ReconcilerView {
    if verdict_on(state, snapshot) == Verdict::Applied {
        ReconcilerView {
            latest: Some(snapshot.timestamp),
            players: reconciled::<PlayerState>(state.players, snapshot.players),
            bullets: reconciled::<BulletState>(state.bullets, snapshot.bullets),
        }
    } else {
        state
    }
}

/// The state after a sequence of snapshots was offered one by one.
pub open spec fn offered_all(state: ReconcilerView, snapshots: Seq<SnapshotView>) -> ReconcilerView
    decreases snapshots.len(),
{
    if snapshots.len() == 0 {
        state
    } else {
        offered(offered_all(state, snapshots.drop_last()), snapshots.last())
    }
}

/// The state after the teardown pass.
pub open spec fn swept(state: ReconcilerView) -> ReconcilerView {
    ReconcilerView {
        latest: state.latest,
        players: survivors(state.players),
        bullets: survivors(state.bullets),
    }
}

/// A reconciler's invariant: within each of the two id spaces no two
/// entities carry the same id.
pub open spec fn sound(state: ReconcilerView) -> bool {
    &&& distinct_slots::<PlayerState>(state.players)
    &&& distinct_slots::<BulletState>(state.bullets)
}

/// Whether every entity of the set was confirmed by a snapshot.
pub open spec fn all_confirmed(state: ReconcilerView) -> bool {
    &&& forall|i: int| 0 <= i < state.players.len() ==> (#[trigger] state.players[i]).confirmed
    &&& forall|i: int| 0 <= i < state.bullets.len() ==> (#[trigger] state.bullets[i]).confirmed
}

/// The index of the snapshot of a batch that counts: the one with the
/// greatest timestamp, and among equals the one that arrived last.
pub open spec fn leading(stamps: Seq<u64>) -> int
    decreases stamps.len(),
{
    if stamps.len() <= 1 {
        0
    } else {
        let before = leading(stamps.drop_last());
        if stamps.last() >= stamps[before] {
            stamps.len() - 1
        } else {
            before
        }
    }
}

/// The timestamps of a batch of snapshots, in order.
pub open spec fn stamps_of(batch: Seq<SnapshotView>) -> Seq<u64> {
    Seq::new(batch.len(), |i: int| batch[i].timestamp)
}

/// The ids of the entities that a teardown pass removed.
#[derive(Debug, PartialEq, Eq)]
pub struct Removed {
    pub players: Vec<String>,
    pub bullets: Vec<String>,
}

/// The owner of the local entity set.
pub struct Reconciler {
    latest: Option<u64>,
    players: Arena<PlayerState>,
    bullets: Arena<BulletState>,
}

impl View for Reconciler {
    type V = ReconcilerView;

    closed spec fn view(&self) -> ReconcilerView {
        ReconcilerView { latest: self.latest, players: self.players@, bullets: self.bullets@ }
    }
}

impl Reconciler {
    /// The reconciler's invariant.
    pub open spec fn wf(&self) -> bool {
        sound(self@)
    }

    /// A reconciler that has applied nothing and holds no entity.
    pub fn new() -> (reconciler: Self)
        ensures
            reconciler@ == (ReconcilerView {
                latest: None,
                players: Seq::empty(),
                bullets: Seq::empty(),
            }),
            reconciler.wf(),
    {
        Reconciler { latest: None, players: Arena::new(), bullets: Arena::new() }
    }

    /// The timestamp of the snapshot applied last.
    pub fn latest(&self) -> (latest: Option<u64>)
        ensures
            latest == self@.latest,
    {
        self.latest
    }

    /// The players of the local entity set.
    pub fn players(&self) -> (arena: &Arena<PlayerState>)
        ensures
            arena@ == self@.players,
    {
        &self.players
    }

    /// The bullets of the local entity set.
    pub fn bullets(&self) -> (arena: &Arena<BulletState>)
        ensures
            arena@ == self@.bullets,
    {
        &self.bullets
    }

    /// Offers one snapshot. It is applied where it is newer than the one
    /// applied last and names no id twice; otherwise nothing changes.
    pub fn offer(&mut self, snapshot: &Snapshot) -> (verdict: Verdict)
        requires
            old(self).wf(),
        ensures
            verdict == verdict_on(old(self)@, snapshot@),
            final(self)@ == offered(old(self)@, snapshot@),
            final(self).wf(),
    {
        let is_newer = match self.latest {
            None => true,
            Some(t) => snapshot.timestamp > t,
        };
        if !is_newer {
            return Verdict::Stale;
        }
        if !snapshot.is_coherent() {
            return Verdict::Malformed;
        }
        self.players.reconcile(&snapshot.players);
        self.bullets.reconcile(&snapshot.bullets);
        self.latest = Some(snapshot.timestamp);
        Verdict::Applied
    }

    /// Offers the snapshots that arrived within one tick: only the one with
    /// the greatest timestamp is considered, the others are discarded. The
    /// result names the snapshot considered and the verdict on it; it is
    /// `None` for an empty batch, which changes nothing.
    pub fn offer_batch(&mut self, batch: &Vec<Snapshot>) -> (outcome: Option<(usize, Verdict)>)
        requires
            old(self).wf(),
        ensures
            batch@.len() == 0 ==> outcome is None && final(self)@ == old(self)@,
            batch@.len() > 0 ==> {
                let chosen = leading(stamps_of(views(batch@)));
                &&& 0 <= chosen < batch@.len()
                &&& outcome == Some(
                    (chosen as usize, verdict_on(old(self)@, views(batch@)[chosen])),
                )
                &&& final(self)@ == offered(old(self)@, views(batch@)[chosen])
            },
            final(self).wf(),
    {
        match select_latest(batch) {
            None => None,
            Some(chosen) => {
                assert(views(batch@)[chosen as int] == batch[chosen as int]@);
                let verdict = self.offer(&batch[chosen]);
                Some((chosen, verdict))
            },
        }
    }

    /// Adds a player that the local simulation created ahead of any
    /// authoritative mention. Reconciliation leaves such a player alone
    /// until a snapshot mentions it.
    pub fn spawn_local_player(&mut self, state: PlayerState) -> (added: bool)
        requires
            old(self).wf(),
        ensures
            added == !holds::<PlayerState>(old(self)@.players, state@.id),
            final(self)@ == (ReconcilerView {
                latest: old(self)@.latest,
                players: if added {
                    old(self)@.players.push(local_slot(state@))
                } else {
                    old(self)@.players
                },
                bullets: old(self)@.bullets,
            }),
            final(self).wf(),
    {
        self.players.insert_local(state)
    }

    /// Adds a bullet that the local simulation created ahead of any
    /// authoritative mention.
    pub fn spawn_local_bullet(&mut self, state: BulletState) -> (added: bool)
        requires
            old(self).wf(),
        ensures
            added == !holds::<BulletState>(old(self)@.bullets, state@.id),
            final(self)@ == (ReconcilerView {
                latest: old(self)@.latest,
                players: old(self)@.players,
                bullets: if added {
                    old(self)@.bullets.push(local_slot(state@))
                } else {
                    old(self)@.bullets
                },
            }),
            final(self).wf(),
    {
        self.bullets.insert_local(state)
    }

    /// Schedules the player with the id for removal.
    pub fn despawn_player(&mut self, id: &String) -> (found: bool)
        requires
            old(self).wf(),
        ensures
            found == holds::<PlayerState>(old(self)@.players, id@),
            final(self)@ == (ReconcilerView {
                latest: old(self)@.latest,
                players: flagged::<PlayerState>(old(self)@.players, id@),
                bullets: old(self)@.bullets,
            }),
            final(self).wf(),
    {
        self.players.flag(id)
    }

    /// Schedules the bullet with the id for removal.
    pub fn despawn_bullet(&mut self, id: &String) -> (found: bool)
        requires
            old(self).wf(),
        ensures
            found == holds::<BulletState>(old(self)@.bullets, id@),
            final(self)@ == (ReconcilerView {
                latest: old(self)@.latest,
                players: old(self)@.players,
                bullets: flagged::<BulletState>(old(self)@.bullets, id@),
            }),
            final(self).wf(),
    {
        self.bullets.flag(id)
    }

    /// Settles a player's claim on its spawn slot, as its owner announced
    /// it: see [`settle_claim`].
    pub fn claim_player(&mut self, claim: PlayerState) -> (verdict: ClaimVerdict)
        requires
            old(self).wf(),
        ensures
            final(self)@ == (ReconcilerView {
                latest: old(self)@.latest,
                players: claimed(old(self)@.players, claim@),
                bullets: old(self)@.bullets,
            }),
            final(self).wf(),
            verdict@ == verdict_for(old(self)@.players, claim@),
    {
        settle_claim(&mut self.players, claim)
    }

    /// Takes the state of a bullet as its owner announced it: the bullet is
    /// overwritten, or created where it did not exist. Tells whether it was
    /// created.
    pub fn sync_bullet(&mut self, state: BulletState) -> (created: bool)
        requires
            old(self).wf(),
        ensures
            created == !holds::<BulletState>(old(self)@.bullets, state@.id),
            final(self)@ == (ReconcilerView {
                latest: old(self)@.latest,
                players: old(self)@.players,
                bullets: upserted::<BulletState>(old(self)@.bullets, state@),
            }),
            final(self).wf(),
    {
        self.bullets.upsert(state)
    }

    /// The teardown pass: removes every entity that is scheduled for
    /// removal, and names what it removed.
    pub fn sweep(&mut self) -> (removed: Removed)
        requires
            old(self).wf(),
        ensures
            final(self)@ == swept(old(self)@),
            views(removed.players@) == casualties::<PlayerState>(old(self)@.players),
            views(removed.bullets@) == casualties::<BulletState>(old(self)@.bullets),
            final(self).wf(),
    {
        let players = self.players.sweep();
        let bullets = self.bullets.sweep();
        Removed { players, bullets }
    }

    /// A snapshot of the entities that are not scheduled for removal, under
    /// the given timestamp: what a serving peer broadcasts.
    pub fn capture(&self, timestamp: u64) -> (snapshot: Snapshot)
        requires
            self.wf(),
        ensures
            snapshot@ == (SnapshotView {
                timestamp,
                players: states_of(survivors(self@.players)),
                bullets: states_of(survivors(self@.bullets)),
            }),
            coherent(snapshot@),
    {
        proof {
            lemma_survivors_distinct::<PlayerState>(self@.players);
            lemma_survivors_distinct::<BulletState>(self@.bullets);
        }
        Snapshot { timestamp, players: self.players.current(), bullets: self.bullets.current() }
    }
}

/// The index of the snapshot of a batch that counts: the one with the
/// greatest timestamp, and among equals the one that arrived last.
pub fn select_latest(batch: &Vec<Snapshot>) -> (chosen: Option<usize>)
    ensures
        match chosen {
            None => batch@.len() == 0,
            Some(i) => {
                &&& i < batch@.len()
                &&& i == leading(stamps_of(views(batch@)))
                &&& forall|j: int|
                    0 <= j < batch@.len() ==> (#[trigger] batch@[j]).timestamp
                        <= batch@[i as int].timestamp
                &&& forall|j: int|
                    i < j < batch@.len() ==> (#[trigger] batch@[j]).timestamp
                        < batch@[i as int].timestamp
            },
        },
{
    if batch.len() == 0 {
        return None;
    }
    let ghost stamps = stamps_of(views(batch@));
    proof {
        lemma_leading(stamps);
        assert forall|j: int| 0 <= j < batch@.len() implies stamps[j] == (
        #[trigger] batch@[j]).timestamp by {}
    }
    let mut best: usize = 0;
    let mut i: usize = 1;
    assert(stamps.take(1).len() == 1);
    while i < batch.len()
        invariant
            1 <= i <= batch.len(),
            stamps == stamps_of(views(batch@)),
            best < i,
            best == leading(stamps.take(i as int)),
        decreases batch.len() - i,
    {
        proof {
            assert(stamps.take(i as int + 1).drop_last() =~= stamps.take(i as int));
            assert(stamps.take(i as int + 1).last() == stamps[i as int]);
            assert(stamps.take(i as int + 1)[best as int] == stamps[best as int]);
            assert(stamps[i as int] == batch[i as int].timestamp);
            assert(stamps[best as int] == batch[best as int].timestamp);
        }
        if batch[i].timestamp >= batch[best].timestamp {
            best = i;
        }
        i += 1;
    }
    assert(stamps.take(batch.len() as int) =~= stamps);
    Some(best)
}

/// What [`leading`] picks: a position of the batch whose timestamp none
/// exceeds and none that follows equals.
pub proof fn lemma_leading(stamps: Seq<u64>)
    requires
        stamps.len() > 0,
    ensures
        0 <= leading(stamps) < stamps.len(),
        forall|i: int| 0 <= i < stamps.len() ==> #[trigger] stamps[i] <= stamps[leading(stamps)],
        forall|i: int|
            leading(stamps) < i < stamps.len() ==> #[trigger] stamps[i] < stamps[leading(stamps)],
    decreases stamps.len(),
{
    if stamps.len() > 1 {
        lemma_leading(stamps.drop_last());
        let before = leading(stamps.drop_last());
        assert(stamps.drop_last()[before] == stamps[before]);
        assert forall|i: int| 0 <= i < stamps.len() implies #[trigger] stamps[i] <= stamps[leading(
            stamps,
        )] by {
            if i < stamps.len() - 1 {
                assert(stamps.drop_last()[i] == stamps[i]);
            }
        }
        let best = leading(stamps);
        assert forall|i: int| best < i < stamps.len() implies #[trigger] stamps[i]
            < stamps[best] by {
            if i < stamps.len() - 1 {
                assert(stamps.drop_last()[i] == stamps[i]);
            }
        }
    }
}

/// Offering a snapshot keeps the reconciler's invariant.
pub proof fn lemma_offered_sound(state: ReconcilerView, snapshot: SnapshotView)
    requires
        sound(state),
    ensures
        sound(offered(state, snapshot)),
{
    if verdict_on(state, snapshot) == Verdict::Applied {
        lemma_reconciled_distinct::<PlayerState>(state.players, snapshot.players);
        lemma_reconciled_distinct::<BulletState>(state.bullets, snapshot.bullets);
    }
}

/// Once a snapshot was applied, the authoritative picture that the
/// reconciler holds is the picture that the snapshot describes: for players
/// and for bullets, the same ids with the same states.
pub proof fn lemma_applied_picture(state: ReconcilerView, snapshot: SnapshotView)
    requires
        sound(state),
        verdict_on(state, snapshot) == Verdict::Applied,
    ensures
        offered(state, snapshot).latest == Some(snapshot.timestamp),
        live_map::<PlayerState>(offered(state, snapshot).players) == entry_map::<PlayerState>(
            snapshot.players,
        ),
        live_map::<BulletState>(offered(state, snapshot).bullets) == entry_map::<BulletState>(
            snapshot.bullets,
        ),
{
    lemma_reconciled_picture::<PlayerState>(state.players, snapshot.players);
    lemma_reconciled_picture::<BulletState>(state.bullets, snapshot.bullets);
}

/// Offering snapshots one by one keeps the invariant, and afterwards any
/// timestamp that was newer than the start and exceeds all that were
/// offered is still newer.
pub proof fn lemma_offered_all(state: ReconcilerView, snapshots: Seq<SnapshotView>, later: u64)
    requires
        sound(state),
        newer(state.latest, later),
        forall|i: int| 0 <= i < snapshots.len() ==> (#[trigger] snapshots[i]).timestamp < later,
    ensures
        sound(offered_all(state, snapshots)),
        newer(offered_all(state, snapshots).latest, later),
    decreases snapshots.len(),
{
    if snapshots.len() > 0 {
        let shorter = snapshots.drop_last();
        assert forall|i: int| 0 <= i < shorter.len() implies (#[trigger] shorter[i]).timestamp
            < later by {
            assert(shorter[i] == snapshots[i]);
        }
        lemma_offered_all(state, shorter, later);
        lemma_offered_sound(offered_all(state, shorter), snapshots.last());
    }
}

/// Convergence: after snapshots with strictly increasing timestamps were
/// offered in that order, the last of them being newer than what the
/// reconciler had applied before, the authoritative picture that the
/// reconciler holds is exactly the last snapshot: no stale entity, none
/// missing, every state as the snapshot gives it.
pub proof fn lemma_convergence(state: ReconcilerView, snapshots: Seq<SnapshotView>)
    requires
        sound(state),
        snapshots.len() > 0,
        forall|i: int| 0 <= i < snapshots.len() ==> coherent(#[trigger] snapshots[i]),
        forall|i: int, j: int|
            0 <= i < j < snapshots.len() ==> (#[trigger] snapshots[i]).timestamp < (
            #[trigger] snapshots[j]).timestamp,
        newer(state.latest, snapshots.last().timestamp),
    ensures
        offered_all(state, snapshots).latest == Some(snapshots.last().timestamp),
        live_map::<PlayerState>(offered_all(state, snapshots).players) == entry_map::<PlayerState>(
            snapshots.last().players,
        ),
        live_map::<BulletState>(offered_all(state, snapshots).bullets) == entry_map::<BulletState>(
            snapshots.last().bullets,
        ),
        sound(offered_all(state, snapshots)),
{
    let shorter = snapshots.drop_last();
    let last = snapshots.last();
    assert forall|i: int| 0 <= i < shorter.len() implies (#[trigger] shorter[i]).timestamp
        < last.timestamp by {
        assert(shorter[i] == snapshots[i]);
        assert(snapshots[i].timestamp < snapshots[snapshots.len() - 1].timestamp);
    }
    lemma_offered_all(state, shorter, last.timestamp);
    let mid = offered_all(state, shorter);
    assert(verdict_on(mid, last) == Verdict::Applied);
    lemma_applied_picture(mid, last);
    lemma_offered_sound(mid, last);
}

/// Stale rejection: a snapshot that is not newer than the one applied just
/// before it changes nothing.
pub proof fn lemma_stale_rejected(state: ReconcilerView, first: SnapshotView, second: SnapshotView)
    requires
        verdict_on(state, first) == Verdict::Applied,
        second.timestamp <= first.timestamp,
    ensures
        verdict_on(offered(state, first), second) == Verdict::Stale,
        offered(offered(state, first), second) == offered(state, first),
{
}

/// A local creation is not reconciled away: a player that no snapshot
/// has confirmed yet stays as it is, in its place, when a snapshot that
/// does not mention it is offered. The same holds of a bullet.
pub proof fn lemma_local_entity_stays(state: ReconcilerView, snapshot: SnapshotView, at: int)
    ensures
        0 <= at < state.players.len() && !state.players[at].confirmed && !lists::<PlayerState>(
            snapshot.players,
            state.players[at].state.id,
        ) ==> offered(state, snapshot).players[at] == state.players[at],
        0 <= at < state.bullets.len() && !state.bullets[at].confirmed && !lists::<BulletState>(
            snapshot.bullets,
            state.bullets[at].state.id,
        ) ==> offered(state, snapshot).bullets[at] == state.bullets[at],
{
}

/// What a snapshot omits is marked: a confirmed player that an applied
/// snapshot does not mention is scheduled for removal, where it stands and
/// as it was. The same holds of a bullet.
pub proof fn lemma_absent_entity_marked(state: ReconcilerView, snapshot: SnapshotView, at: int)
    requires
        verdict_on(state, snapshot) == Verdict::Applied,
    ensures
        0 <= at < state.players.len() && state.players[at].confirmed && !lists::<PlayerState>(
            snapshot.players,
            state.players[at].state.id,
        ) ==> offered(state, snapshot).players[at] == (SlotView {
            state: state.players[at].state,
            confirmed: true,
            despawn: true,
        }),
        0 <= at < state.bullets.len() && state.bullets[at].confirmed && !lists::<BulletState>(
            snapshot.bullets,
            state.bullets[at].state.id,
        ) ==> offered(state, snapshot).bullets[at] == (SlotView {
            state: state.bullets[at].state,
            confirmed: true,
            despawn: true,
        }),
{
}

/// Nothing stale is left: where the entity set holds no local creation,
/// every entity that is not scheduled for removal after a snapshot was
/// applied is one that the snapshot mentions, and the set still holds no
/// local creation.
pub proof fn lemma_nothing_stale(state: ReconcilerView, snapshot: SnapshotView)
    requires
        sound(state),
        all_confirmed(state),
        verdict_on(state, snapshot) == Verdict::Applied,
    ensures
        all_confirmed(offered(state, snapshot)),
        forall|i: int|
            0 <= i < offered(state, snapshot).players.len() && !(#[trigger] offered(
                state,
                snapshot,
            ).players[i]).despawn ==> lists::<PlayerState>(
                snapshot.players,
                offered(state, snapshot).players[i].state.id,
            ),
        forall|i: int|
            0 <= i < offered(state, snapshot).bullets.len() && !(#[trigger] offered(
                state,
                snapshot,
            ).bullets[i]).despawn ==> lists::<BulletState>(
                snapshot.bullets,
                offered(state, snapshot).bullets[i].state.id,
            ),
{
    let after = offered(state, snapshot);
    lemma_fresh_members::<PlayerState>(state.players, snapshot.players);
    lemma_fresh_members::<BulletState>(state.bullets, snapshot.bullets);
    let new_players = fresh::<PlayerState>(state.players, snapshot.players);
    let new_bullets = fresh::<BulletState>(state.bullets, snapshot.bullets);
    let slots = after.players;
    assert forall|i: int| 0 <= i < slots.len() implies (#[trigger] slots[i]).confirmed
        && (!after.players[i].despawn ==> lists::<PlayerState>(
        snapshot.players,
        after.players[i].state.id,
    )) by {
        if i < state.players.len() {
            assert(state.players[i].confirmed);
            if lists::<PlayerState>(snapshot.players, state.players[i].state.id) {
                lemma_entry_of_key::<PlayerState>(snapshot.players, state.players[i].state.id);
            }
        } else {
            assert(after.players[i] == new_players[i - state.players.len()]);
        }
    }
    let slots = after.bullets;
    assert forall|i: int| 0 <= i < slots.len() implies (#[trigger] slots[i]).confirmed
        && (!after.bullets[i].despawn ==> lists::<BulletState>(
        snapshot.bullets,
        after.bullets[i].state.id,
    )) by {
        if i < state.bullets.len() {
            assert(state.bullets[i].confirmed);
            if lists::<BulletState>(snapshot.bullets, state.bullets[i].state.id) {
                lemma_entry_of_key::<BulletState>(snapshot.bullets, state.bullets[i].state.id);
            }
        } else {
            assert(after.bullets[i] == new_bullets[i - state.bullets.len()]);
        }
    }
}

} // verus!
