//! Spawn arbitration: what happens when two players claim one spawn slot.
//! The player whose id sorts lower keeps the slot; the other one is
//! scheduled for removal. Every peer applies the same rule to the same two
//! ids, so all of them agree without anyone being asked.

use vstd::prelude::*;
use crate::arena::{
    confirmed_slot, flagged, holds, lemma_survivors_cover, lemma_survivors_members, survivors,
    upserted, Arena, SlotView,
};
use crate::ident::{id_before, lemma_text_order, text_before};
use crate::model::{views, Payload, PayloadView, PlayerState, PlayerStateView};

verus! {

/// Whether the slot holds a player that stands in the claim's spawn slot
/// and is not the claimant: another id, the same spawn slot, and not
/// scheduled for removal.
pub open spec fn rival(slot: SlotView<PlayerStateView>, claim: PlayerStateView) -> bool {
    &&& !slot.despawn
    &&& slot.state.spawn_id == claim.spawn_id
    &&& slot.state.id != claim.id
}

/// Whether the slot holds a rival whose id sorts before the claimant's.
pub open spec fn outranks(slot: SlotView<PlayerStateView>, claim: PlayerStateView) -> bool {
    rival(slot, claim) && text_before(slot.state.id, claim.id)
}

/// Whether some rival's id sorts before the claimant's.
pub open spec fn outranked(slots: Seq<SlotView<PlayerStateView>>, claim: PlayerStateView) -> bool {
    exists|i: int| 0 <= i < slots.len() && outranks(#[trigger] slots[i], claim)
}

/// Whether the slot at the index is the first that outranks the claim.
pub open spec fn first_outranking(
    slots: Seq<SlotView<PlayerStateView>>,
    claim: PlayerStateView,
    at: int,
) -> bool {
    &&& 0 <= at < slots.len()
    &&& outranks(slots[at], claim)
    &&& forall|j: int| 0 <= j < at ==> !outranks(#[trigger] slots[j], claim)
}

/// The arena with every rival of the claim scheduled for removal.
pub open spec fn evicting(slots: Seq<SlotView<PlayerStateView>>, claim: PlayerStateView) -> Seq<
    SlotView<PlayerStateView>,
> {
    Seq::new(
        slots.len(),
        |i: int|
            if rival(slots[i], claim) {
                SlotView { state: slots[i].state, confirmed: slots[i].confirmed, despawn: true }
            } else {
                slots[i]
            },
    )
}

/// The ids of the rivals of the claim, in arena order.
pub open spec fn rivals(slots: Seq<SlotView<PlayerStateView>>, claim: PlayerStateView) -> Seq<
    Seq<char>,
>
    decreases slots.len(),
{
    if slots.len() == 0 {
        Seq::empty()
    } else if rival(slots.last(), claim) {
        rivals(slots.drop_last(), claim).push(slots.last().state.id)
    } else {
        rivals(slots.drop_last(), claim)
    }
}

/// The players after a claim was settled: unchanged where the claimant is
/// outranked; otherwise every rival is scheduled for removal and the
/// claimant stands in the arena as the claim describes it.
pub open spec fn claimed(slots: Seq<SlotView<PlayerStateView>>, claim: PlayerStateView) -> Seq<
    SlotView<PlayerStateView>,
> {
    if outranked(slots, claim) {
        slots
    } else {
        upserted::<PlayerState>(evicting(slots, claim), claim)
    }
}

/// Whether no player that is not scheduled for removal stands in the
/// spawn slot.
pub open spec fn vacant(slots: Seq<SlotView<PlayerStateView>>, spawn_id: Seq<char>) -> bool {
    forall|i: int|
        0 <= i < slots.len() ==> (#[trigger] slots[i]).despawn || slots[i].state.spawn_id
            != spawn_id
}

/// Whether the claimant alone occupies its spawn slot: it stands in the
/// arena as the claim describes it, and no other player that is not
/// scheduled for removal stands in that spawn slot.
pub open spec fn sole_occupant(
    slots: Seq<SlotView<PlayerStateView>>,
    claim: PlayerStateView,
) -> bool {
    &&& exists|i: int| 0 <= i < slots.len() && #[trigger] slots[i] == confirmed_slot(claim)
    &&& forall|i: int|
        0 <= i < slots.len() && !(#[trigger] slots[i]).despawn && slots[i].state.spawn_id
            == claim.spawn_id ==> slots[i].state.id == claim.id
}

/// How a claim on a spawn slot was settled.
#[derive(Debug, PartialEq, Eq)]
pub enum ClaimVerdict {
    /// The claimant holds the slot. The players named lost it to the
    /// claimant and are scheduled for removal; the owner of one of them
    /// announces its despawn and spawns again elsewhere.
    Granted { evicted: Vec<String> },
    /// The slot stays with the player named, whose id sorts before the
    /// claimant's. Nothing changed.
    Refused { holder: String },
}

/// Mathematical view of a [`ClaimVerdict`].
pub enum ClaimVerdictView {
    Granted { evicted: Seq<Seq<char>> },
    Refused { holder: Seq<char> },
}

impl View for ClaimVerdict {
    type V = ClaimVerdictView;

    open spec fn view(&self) -> ClaimVerdictView {
        match self {
            ClaimVerdict::Granted { evicted } => ClaimVerdictView::Granted {
                evicted: views(evicted@),
            },
            ClaimVerdict::Refused { holder } => ClaimVerdictView::Refused { holder: holder@ },
        }
    }
}

/// The verdict on a claim: refused in favour of the first player in the
/// arena that outranks the claimant, or granted at the cost of its rivals.
pub open spec fn verdict_for(
    slots: Seq<SlotView<PlayerStateView>>,
    claim: PlayerStateView,
) -> ClaimVerdictView {
    if outranked(slots, claim) {
        ClaimVerdictView::Refused {
            holder: slots[choose|at: int| #[trigger] first_outranking(slots, claim, at)].state.id,
        }
    } else {
        ClaimVerdictView::Granted { evicted: rivals(slots, claim) }
    }
}

/// Settles a claim: the state of a player as its owner announced it,
/// spawn slot included.
pub fn settle_claim(players: &mut Arena<PlayerState>, claim: PlayerState) -> (verdict: ClaimVerdict)
    requires
        old(players).wf(),
    ensures
        final(players)@ == claimed(old(players)@, claim@),
        final(players).wf(),
        verdict@ == verdict_for(old(players)@, claim@),
{
    let ghost before = players@;
    let count = players.len();
    let mut i: usize = 0;
    while i < count
        invariant
            i <= count,
            count == before.len(),
            players@ == before,
            players.wf(),
            forall|j: int| 0 <= j < i ==> !outranks(#[trigger] before[j], claim@),
        decreases count - i,
    {
        let slot = players.slot(i);
        if !slot.despawn && slot.state.spawn_id == claim.spawn_id && !(slot.state.id == claim.id)
            && id_before(&slot.state.id, &claim.id) {
            let holder = slot.state.id.clone();
            proof {
                assert(outranks(before[i as int], claim@));
                assert(first_outranking(before, claim@, i as int));
                let at = choose|at: int| #[trigger] first_outranking(before, claim@, at);
                if at < i {
                    assert(!outranks(before[at], claim@));
                } else if i < at {
                    assert(!outranks(before[i as int], claim@));
                }
            }
            return ClaimVerdict::Refused { holder };
        }
        i += 1;
    }
    let mut evicted: Vec<String> = Vec::new();
    i = 0;
    while i < count
        invariant
            i <= count,
            count == before.len(),
            players.wf(),
            players@.len() == count,
            forall|x: int|
                0 <= x < i ==> #[trigger] players@[x] == evicting(before, claim@)[x],
            forall|x: int| i <= x < count ==> #[trigger] players@[x] == before[x],
            views(evicted@) == rivals(before.take(i as int), claim@),
        decreases count - i,
    {
        let ghost here = players@;
        let ghost gone = views(evicted@);
        proof {
            assert(before.take(i as int + 1).drop_last() =~= before.take(i as int));
            assert(before.take(i as int + 1).last() == before[i as int]);
            assert(here[i as int] == before[i as int]);
        }
        let slot = players.slot(i);
        if !slot.despawn && slot.state.spawn_id == claim.spawn_id && !(slot.state.id == claim.id) {
            evicted.push(slot.state.id.clone());
            players.flag_at(i);
            proof {
                assert(views(evicted@) =~= gone.push(before[i as int].state.id));
            }
        }
        proof {
            assert forall|x: int| 0 <= x < i + 1 implies #[trigger] players@[x] == evicting(
                before,
                claim@,
            )[x] by {
                if x < i {
                    assert(players@[x] == here[x]);
                }
            }
            assert forall|x: int| i + 1 <= x < count implies #[trigger] players@[x]
                == before[x] by {
                assert(players@[x] == here[x]);
            }
        }
        i += 1;
    }
    proof {
        assert(before.take(count as int) =~= before);
        assert(players@ =~= evicting(before, claim@));
    }
    players.upsert(claim);
    ClaimVerdict::Granted { evicted }
}

/// Whether a player lost its spawn slot when a claim was settled: it is
/// among those that the claimant evicted, or it is the claimant and the
/// claim was refused.
pub open spec fn lost_slot(claimant: Seq<char>, verdict: ClaimVerdictView, own: Seq<char>) -> bool {
    match verdict {
        ClaimVerdictView::Granted { evicted } => evicted.contains(own),
        ClaimVerdictView::Refused { holder } => claimant == own,
    }
}

/// What the owner of a player announces once a claim was settled: the
/// despawn of its own player, where that player lost its slot, be it to
/// the claimant or as the claimant. The owner then spawns again in another
/// slot.
pub fn concession(claimant: &String, verdict: &ClaimVerdict, own_id: &String) -> (notice: Option<
    Payload,
>)
    ensures
        lost_slot(claimant@, verdict@, own_id@) ==> notice is Some && notice->0@
            == (PayloadView::DespawnPlayer { player_id: own_id@ }),
        !lost_slot(claimant@, verdict@, own_id@) ==> notice is None,
{
    match verdict {
        ClaimVerdict::Granted { evicted } => {
            let mut i: usize = 0;
            while i < evicted.len()
                invariant
                    i <= evicted.len(),
                    verdict@ == (ClaimVerdictView::Granted { evicted: views(evicted@) }),
                    forall|j: int| 0 <= j < i ==> #[trigger] views(evicted@)[j] != own_id@,
                decreases evicted.len() - i,
            {
                if evicted[i] == *own_id {
                    assert(views(evicted@)[i as int] == own_id@);
                    return Some(Payload::DespawnPlayer { player_id: own_id.clone() });
                }
                i += 1;
            }
            None
        },
        ClaimVerdict::Refused { holder } => {
            if *claimant == *own_id {
                Some(Payload::DespawnPlayer { player_id: own_id.clone() })
            } else {
                None
            }
        },
    }
}

/// A claimant that no rival outranks comes to occupy its spawn slot alone:
/// its claim is granted, its rivals are scheduled for removal, and every
/// other slot of the arena stays as it was.
pub proof fn lemma_granted_claim(slots: Seq<SlotView<PlayerStateView>>, claim: PlayerStateView)
    requires
        !outranked(slots, claim),
    ensures
        sole_occupant(claimed(slots, claim), claim),
        forall|i: int|
            0 <= i < claimed(slots, claim).len() ==> {
                let after = #[trigger] claimed(slots, claim)[i];
                after == confirmed_slot(claim) || (i < slots.len() && (after == slots[i]
                    || after.despawn))
            },
{
    let cleared = evicting(slots, claim);
    let after = claimed(slots, claim);
    assert(after == upserted::<PlayerState>(cleared, claim));
    assert forall|i: int| 0 <= i < after.len() implies {
        let slot = #[trigger] after[i];
        slot == confirmed_slot(claim) || (i < slots.len() && slot.state.id != claim.id && (slot
            == slots[i] || (slot.despawn && rival(slots[i], claim))))
    } by {
        if i < cleared.len() && cleared[i].state.id != claim.id {
            assert(after[i] == cleared[i]);
        }
    }
    if holds::<PlayerState>(cleared, claim.id) {
        let c = choose|c: int|
            0 <= c < cleared.len() && (#[trigger] cleared[c]).state.id == claim.id;
        assert(after[c] == confirmed_slot(claim));
    } else {
        assert(after[cleared.len() as int] == confirmed_slot(claim));
    }
    assert forall|i: int|
        0 <= i < after.len() && !(#[trigger] after[i]).despawn && after[i].state.spawn_id
            == claim.spawn_id implies after[i].state.id == claim.id by {
        if after[i] != confirmed_slot(claim) {
            assert(after[i] == slots[i]);
            assert(rival(slots[i], claim));
            assert(cleared[i].despawn);
        }
    }
}

/// Spawn collision determinism: two players claim one spawn slot, and the
/// id of the first sorts before the id of the second. Whichever claim a
/// peer sees first, the outcome is the same. Where no player with a still
/// lower id stands in the slot, as in a vacant slot, the first player ends
/// up as the only occupant of the slot, and the second holds no place in
/// it. Where such a player stands there, both claims are refused and the
/// arena stays as it was.
pub proof fn lemma_lower_id_wins(
    slots: Seq<SlotView<PlayerStateView>>,
    low: PlayerStateView,
    high: PlayerStateView,
)
    requires
        low.spawn_id == high.spawn_id,
        text_before(low.id, high.id),
    ensures
        vacant(slots, low.spawn_id) ==> !outranked(slots, low),
        !outranked(slots, low) ==> sole_occupant(claimed(claimed(slots, low), high), low)
            && sole_occupant(claimed(claimed(slots, high), low), low),
        outranked(slots, low) ==> claimed(claimed(slots, low), high) == slots && claimed(
            claimed(slots, high),
            low,
        ) == slots,
{
    lemma_text_order(low.id, high.id, low.id);
    if outranked(slots, low) {
        // Who outranks the lower id outranks the higher one too.
        let i = choose|i: int| 0 <= i < slots.len() && outranks(#[trigger] slots[i], low);
        lemma_text_order(slots[i].state.id, low.id, high.id);
        lemma_text_order(high.id, high.id, high.id);
        assert(outranks(slots[i], high));
    } else {
        // The lower id first: the higher one is refused.
        lemma_granted_claim(slots, low);
        let first = claimed(slots, low);
        let at = choose|i: int| 0 <= i < first.len() && #[trigger] first[i] == confirmed_slot(low);
        assert(outranks(first[at], high));
        assert(claimed(first, high) == first);
        // The higher id first: granted or refused, it does not outrank the
        // lower one, and nothing that stays does.
        let early = claimed(slots, high);
        if !outranked(slots, high) {
            lemma_granted_claim(slots, high);
        }
        assert(!outranked(early, low)) by {
            if outranked(early, low) {
                let i = choose|i: int| 0 <= i < early.len() && outranks(#[trigger] early[i], low);
                if early[i] != confirmed_slot(high) {
                    assert(early[i] == slots[i]);
                    assert(outranks(slots[i], low));
                }
            }
        }
        lemma_granted_claim(early, low);
    }
}

/// The only occupant of a spawn slot stays so when another player is
/// scheduled for removal.
pub proof fn lemma_sole_occupant_flagged(
    slots: Seq<SlotView<PlayerStateView>>,
    claim: PlayerStateView,
    other: Seq<char>,
)
    requires
        sole_occupant(slots, claim),
        other != claim.id,
    ensures
        sole_occupant(flagged::<PlayerState>(slots, other), claim),
{
    let after = flagged::<PlayerState>(slots, other);
    let at = choose|i: int| 0 <= i < slots.len() && #[trigger] slots[i] == confirmed_slot(claim);
    assert(after[at] == confirmed_slot(claim));
    assert forall|i: int|
        0 <= i < after.len() && !(#[trigger] after[i]).despawn && after[i].state.spawn_id
            == claim.spawn_id implies after[i].state.id == claim.id by {
        assert(after[i] == slots[i]);
    }
}

/// The only occupant of a spawn slot stays so through the teardown pass.
pub proof fn lemma_sole_occupant_swept(
    slots: Seq<SlotView<PlayerStateView>>,
    claim: PlayerStateView,
)
    requires
        sole_occupant(slots, claim),
    ensures
        sole_occupant(survivors(slots), claim),
{
    let kept = survivors(slots);
    lemma_survivors_members(slots);
    let at = choose|i: int| 0 <= i < slots.len() && #[trigger] slots[i] == confirmed_slot(claim);
    lemma_survivors_cover(slots, at);
    let k = choose|k: int| 0 <= k < kept.len() && kept[k] == slots[at];
    assert(kept[k] == confirmed_slot(claim));
    assert forall|i: int|
        0 <= i < kept.len() && !(#[trigger] kept[i]).despawn && kept[i].state.spawn_id
            == claim.spawn_id implies kept[i].state.id == claim.id by {
        let p = choose|p: int| 0 <= p < slots.len() && slots[p] == kept[i];
        assert(slots[p] == kept[i]);
    }
}

/// A player that was scheduled for removal is gone after the teardown
/// pass.
pub proof fn lemma_flagged_then_swept(slots: Seq<SlotView<PlayerStateView>>, id: Seq<char>)
    ensures
        !holds::<PlayerState>(survivors(flagged::<PlayerState>(slots, id)), id),
{
    let marked = flagged::<PlayerState>(slots, id);
    let kept = survivors(marked);
    lemma_survivors_members(marked);
    if holds::<PlayerState>(kept, id) {
        let i = choose|i: int| 0 <= i < kept.len() && (#[trigger] kept[i]).state.id == id;
        let p = choose|p: int| 0 <= p < marked.len() && marked[p] == kept[i];
        assert(marked[p].despawn);
    }
}

} // verus!
