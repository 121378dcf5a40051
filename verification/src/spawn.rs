//! Spawning: which spawn slot a player is given, and the state it starts
//! with.

use vstd::prelude::*;
use crate::arena::{holds, local_slot, Arena, SlotView};
use crate::claims::{concession, lost_slot, vacant, ClaimVerdict, ClaimVerdictView};
use crate::ident::mint_id;
use crate::model::{
    views, Color, Payload, PayloadView, PlayerState, PlayerStateView, Vec2, Vec3,
};

verus! {

/// A place of the level where a player may appear.
#[derive(Debug, PartialEq, Eq)]
pub struct SpawnSlot {
    pub id: String,
    pub position: Vec3,
    pub color: Color,
    pub radius: u32,
}

/// Mathematical view of a [`SpawnSlot`].
pub struct SpawnSlotView {
    pub id: Seq<char>,
    pub position: Vec3,
    pub color: Color,
    pub radius: u32,
}

impl View for SpawnSlot {
    type V = SpawnSlotView;

    open spec fn view(&self) -> SpawnSlotView {
        SpawnSlotView {
            id: self.id@,
            position: self.position,
            color: self.color,
            radius: self.radius,
        }
    }
}

/// Why a player was not spawned.
#[derive(Clone, Copy, Debug, PartialEq, Eq, Structural)]
pub enum SpawnRefusal {
    /// The client already has a player that is not scheduled for removal.
    AlreadyPlaying,
    /// Every spawn slot is occupied.
    NoFreeSlot,
    /// A player with the new id exists already.
    IdTaken,
}

/// Whether the client has a player that is not scheduled for removal.
pub open spec fn plays(players: Seq<SlotView<PlayerStateView>>, client_id: Seq<char>) -> bool {
    exists|i: int|
        0 <= i < players.len() && !(#[trigger] players[i]).despawn && players[i].state.client_id
            == client_id
}

/// Whether the spawn slot at the index is the first vacant one.
pub open spec fn first_vacant(
    players: Seq<SlotView<PlayerStateView>>,
    slots: Seq<SpawnSlotView>,
    at: int,
) -> bool {
    &&& 0 <= at < slots.len()
    &&& vacant(players, slots[at].id)
    &&& forall|j: int| 0 <= j < at ==> !vacant(players, (#[trigger] slots[j]).id)
}

/// Whether no spawn slot is vacant.
pub open spec fn all_occupied(
    players: Seq<SlotView<PlayerStateView>>,
    slots: Seq<SpawnSlotView>,
) -> bool {
    forall|j: int| 0 <= j < slots.len() ==> !vacant(players, (#[trigger] slots[j]).id)
}

/// The state with which a player starts in a spawn slot: at the slot's
/// position, with its colour and radius, at rest.
pub open spec fn starting_state(
    slot: SpawnSlotView,
    client_id: Seq<char>,
    id: Seq<char>,
) -> PlayerStateView {
    PlayerStateView {
        id,
        client_id,
        spawn_id: slot.id,
        radius: slot.radius,
        color: slot.color,
        position: slot.position,
        velocity: Vec2 { x: 0, y: 0 },
    }
}

/// The outcome of planning a spawn for a client under a given id: refused
/// for a client that is playing, where no slot is vacant, or where the id
/// is taken, in this order of precedence; otherwise the state with which
/// the player starts in the first vacant slot.
pub open spec fn planned(
    players: Seq<SlotView<PlayerStateView>>,
    slots: Seq<SpawnSlotView>,
    client_id: Seq<char>,
    id: Seq<char>,
) -> Result<PlayerStateView, SpawnRefusal> {
    if plays(players, client_id) {
        Err(SpawnRefusal::AlreadyPlaying)
    } else if all_occupied(players, slots) {
        Err(SpawnRefusal::NoFreeSlot)
    } else if holds::<PlayerState>(players, id) {
        Err(SpawnRefusal::IdTaken)
    } else {
        Ok(
            starting_state(
                slots[choose|at: int| #[trigger] first_vacant(players, slots, at)],
                client_id,
                id,
            ),
        )
    }
}

/// The view of the outcome of a spawn.
pub open spec fn outcome_view(outcome: Result<PlayerState, SpawnRefusal>) -> Result<
    PlayerStateView,
    SpawnRefusal,
> {
    match outcome {
        Ok(state) => Ok(state@),
        Err(refusal) => Err(refusal),
    }
}

/// The number of characters of a minted id.
pub open spec fn minted_len() -> nat {
    36
}

/// Whether no player carries an id that could have been minted. A freshly
/// minted id is then free for certain.
pub open spec fn none_minted(players: Seq<SlotView<PlayerStateView>>) -> bool {
    forall|i: int| 0 <= i < players.len() ==> (#[trigger] players[i]).state.id.len() != minted_len()
}

/// Whether a player that is not scheduled for removal stands in the spawn
/// slot.
pub fn is_occupied(players: &Arena<PlayerState>, spawn_id: &String) -> (occupied: bool)
    ensures
        occupied == !vacant(players@, spawn_id@),
{
    let mut i: usize = 0;
    while i < players.len()
        invariant
            i <= players@.len(),
            forall|j: int|
                0 <= j < i ==> (#[trigger] players@[j]).despawn || players@[j].state.spawn_id
                    != spawn_id@,
        decreases players@.len() - i,
    {
        let slot = players.slot(i);
        if !slot.despawn && slot.state.spawn_id == *spawn_id {
            assert(!players@[i as int].despawn && players@[i as int].state.spawn_id == spawn_id@);
            return true;
        }
        i += 1;
    }
    false
}

/// Whether the client has a player that is not scheduled for removal.
pub fn is_playing(players: &Arena<PlayerState>, client_id: &String) -> (playing: bool)
    ensures
        playing == plays(players@, client_id@),
{
    let mut i: usize = 0;
    while i < players.len()
        invariant
            i <= players@.len(),
            forall|j: int|
                0 <= j < i ==> (#[trigger] players@[j]).despawn || players@[j].state.client_id
                    != client_id@,
        decreases players@.len() - i,
    {
        let slot = players.slot(i);
        if !slot.despawn && slot.state.client_id == *client_id {
            return true;
        }
        i += 1;
    }
    false
}

/// The index of the first spawn slot in which no player stands.
pub fn first_unclaimed(players: &Arena<PlayerState>, slots: &Vec<SpawnSlot>) -> (found: Option<
    usize,
>)
    ensures
        match found {
            Some(at) => first_vacant(players@, views(slots@), at as int),
            None => all_occupied(players@, views(slots@)),
        },
{
    let mut j: usize = 0;
    while j < slots.len()
        invariant
            j <= slots.len(),
            forall|x: int|
                0 <= x < j ==> !vacant(players@, (#[trigger] views(slots@)[x]).id),
        decreases slots.len() - j,
    {
        assert(views(slots@)[j as int] == slots[j as int]@);
        if !is_occupied(players, &slots[j].id) {
            return Some(j);
        }
        j += 1;
    }
    None
}

/// Plans the spawning of a player for a client under a given id: in the
/// first vacant spawn slot, with the state that the slot prescribes.
/// Nothing is planned for a client that is playing, where no slot is
/// vacant, or where the id is taken, in this order of precedence.
pub fn plan_spawn(
    players: &Arena<PlayerState>,
    slots: &Vec<SpawnSlot>,
    client_id: &String,
    id: String,
) -> (plan: Result<PlayerState, SpawnRefusal>)
    ensures
        match plan {
            Ok(state) => {
                &&& !plays(players@, client_id@)
                &&& !holds::<PlayerState>(players@, id@)
                &&& exists|at: int|
                    #[trigger] first_vacant(players@, views(slots@), at) && state@
                        == starting_state(views(slots@)[at], client_id@, id@)
            },
            Err(SpawnRefusal::AlreadyPlaying) => plays(players@, client_id@),
            Err(SpawnRefusal::NoFreeSlot) => {
                &&& !plays(players@, client_id@)
                &&& all_occupied(players@, views(slots@))
            },
            Err(SpawnRefusal::IdTaken) => {
                &&& !plays(players@, client_id@)
                &&& !all_occupied(players@, views(slots@))
                &&& holds::<PlayerState>(players@, id@)
            },
        },
        outcome_view(plan) == planned(players@, views(slots@), client_id@, id@),
{
    if is_playing(players, client_id) {
        return Err(SpawnRefusal::AlreadyPlaying);
    }
    match first_unclaimed(players, slots) {
        None => Err(SpawnRefusal::NoFreeSlot),
        Some(at) => {
            assert(views(slots@)[at as int] == slots[at as int]@);
            proof {
                let listed = views(slots@);
                assert(vacant(players@, listed[at as int].id));
                let chosen = choose|c: int| #[trigger] first_vacant(players@, listed, c);
                lemma_first_vacant_unique(players@, listed, at as int, chosen);
            }
            if players.contains(&id) {
                return Err(SpawnRefusal::IdTaken);
            }
            let slot = &slots[at];
            Ok(
                PlayerState {
                    id,
                    client_id: client_id.clone(),
                    spawn_id: slot.id.clone(),
                    radius: slot.radius,
                    color: slot.color,
                    position: slot.position,
                    velocity: Vec2 { x: 0, y: 0 },
                },
            )
        },
    }
}

/// Proposes the spawning of a player for a client under a freshly minted
/// id: the state to announce to the peers, who settle it as a claim on its
/// spawn slot. The proposal is what [`plan_spawn`] plans under the id that
/// was minted. Nothing is proposed for a client that is playing, or where no
/// slot is vacant.
pub fn propose_spawn(
    players: &Arena<PlayerState>,
    slots: &Vec<SpawnSlot>,
    client_id: &String,
) -> (proposal: Result<PlayerState, SpawnRefusal>)
    ensures
        plays(players@, client_id@) <==> proposal == Err::<PlayerState, SpawnRefusal>(
            SpawnRefusal::AlreadyPlaying,
        ),
        !plays(players@, client_id@) && all_occupied(players@, views(slots@))
            <==> proposal == Err::<PlayerState, SpawnRefusal>(SpawnRefusal::NoFreeSlot),
        proposal matches Ok(state) ==> {
            &&& !holds::<PlayerState>(players@, state@.id)
            &&& exists|at: int|
                #[trigger] first_vacant(players@, views(slots@), at) && state@
                    == starting_state(views(slots@)[at], client_id@, state@.id)
        },
        exists|id: Seq<char>|
            id.len() == minted_len() && outcome_view(proposal) == #[trigger] planned(
                players@,
                views(slots@),
                client_id@,
                id,
            ),
{
    let id = mint_id();
    let ghost minted = id@;
    let proposal = plan_spawn(players, slots, client_id, id);
    assert(outcome_view(proposal) == planned(players@, views(slots@), client_id@, minted));
    proposal
}

/// Spawns a player for a client under a freshly minted id: the player
/// joins the arena as a local entity, and a copy of its state comes back
/// to be announced. The arena is unchanged where the spawning is refused.
pub fn spawn_player(
    players: &mut Arena<PlayerState>,
    slots: &Vec<SpawnSlot>,
    client_id: &String,
) -> (outcome: Result<PlayerState, SpawnRefusal>)
    requires
        old(players).wf(),
    ensures
        final(players).wf(),
        plays(old(players)@, client_id@) <==> outcome == Err::<PlayerState, SpawnRefusal>(
            SpawnRefusal::AlreadyPlaying,
        ),
        !plays(old(players)@, client_id@) && all_occupied(
            old(players)@,
            views(slots@),
        ) <==> outcome == Err::<PlayerState, SpawnRefusal>(SpawnRefusal::NoFreeSlot),
        match outcome {
            Ok(state) => {
                &&& final(players)@ == old(players)@.push(local_slot(state@))
                &&& exists|at: int|
                    #[trigger] first_vacant(old(players)@, views(slots@), at)
                        && state@ == starting_state(
                        views(slots@)[at],
                        client_id@,
                        state@.id,
                    )
            },
            Err(_) => final(players)@ == old(players)@,
        },
        exists|id: Seq<char>|
            id.len() == minted_len() && outcome_view(outcome) == #[trigger] planned(
                old(players)@,
                views(slots@),
                client_id@,
                id,
            ),
        !plays(old(players)@, client_id@) && !all_occupied(old(players)@, views(slots@))
            && none_minted(old(players)@) ==> outcome is Ok,
{
    let ghost before = players@;
    let proposal = propose_spawn(players, slots, client_id);
    let ghost minted = choose|id: Seq<char>|
        id.len() == minted_len() && outcome_view(proposal) == #[trigger] planned(
            before,
            views(slots@),
            client_id@,
            id,
        );
    proof {
        if none_minted(before) && holds::<PlayerState>(before, minted) {
            let i = choose|i: int|
                0 <= i < before.len() && (#[trigger] before[i]).state.id == minted;
            assert(before[i].state.id.len() != minted_len());
        }
    }
    match proposal {
        Ok(state) => {
            let announced = state.clone();
            let added = players.insert_local(state);
            assert(added);
            let outcome = Ok(announced);
            assert(outcome_view(outcome) == planned(before, views(slots@), client_id@, minted));
            outcome
        },
        Err(refusal) => {
            let outcome = Err(refusal);
            assert(outcome_view(outcome) == planned(before, views(slots@), client_id@, minted));
            outcome
        },
    }
}

/// Mathematical view of a [`Seat`].
pub struct SeatView {
    /// The client that sits here.
    pub client_id: Seq<char>,
    /// The id of the client's player, while it has one.
    pub player: Option<Seq<char>>,
}

/// A seat after it was seen to, and what there is to announce.
pub struct Seating {
    pub seat: SeatView,
    pub announcement: Option<PayloadView>,
}

/// What seeing to a seat comes to, where `id` is the id that a new player
/// would get: a seat that is taken stays as it is; an empty one is taken by
/// the player planned for the client under that id, who is announced; and
/// where no player can be planned the seat stays empty.
pub open spec fn seated(
    seat: SeatView,
    players: Seq<SlotView<PlayerStateView>>,
    slots: Seq<SpawnSlotView>,
    id: Seq<char>,
) -> Seating {
    if seat.player is Some {
        Seating { seat, announcement: None }
    } else {
        match planned(players, slots, seat.client_id, id) {
            Ok(state) => Seating {
                seat: SeatView { client_id: seat.client_id, player: Some(id) },
                announcement: Some(PayloadView::Player(state)),
            },
            Err(_) => Seating { seat, announcement: None },
        }
    }
}

/// What heeding a verdict comes to: a seat whose player lost its slot is
/// given up, and the despawn of that player is announced; any other seat
/// stays as it is.
pub open spec fn heeded(seat: SeatView, claimant: Seq<char>, verdict: ClaimVerdictView) -> Seating {
    match seat.player {
        Some(own) => if lost_slot(claimant, verdict, own) {
            Seating {
                seat: SeatView { client_id: seat.client_id, player: None },
                announcement: Some(PayloadView::DespawnPlayer { player_id: own }),
            }
        } else {
            Seating { seat, announcement: None }
        },
        None => Seating { seat, announcement: None },
    }
}

/// The view of what there is to announce.
pub open spec fn announced(announcement: Option<Payload>) -> Option<PayloadView> {
    match announcement {
        Some(payload) => Some(payload@),
        None => None,
    }
}

/// A client's seat in the game: which player is its own. A client whose
/// seat is empty asks for a player; one whose player lost its spawn slot
/// gives it up and asks again.
pub struct Seat {
    client_id: String,
    player: Option<String>,
}

impl View for Seat {
    type V = SeatView;

    closed spec fn view(&self) -> SeatView {
        SeatView {
            client_id: self.client_id@,
            player: match self.player {
                Some(id) => Some(id@),
                None => None,
            },
        }
    }
}

impl Seat {
    /// The seat of a client that has no player yet.
    pub fn new(client_id: String) -> (seat: Seat)
        ensures
            seat@ == (SeatView { client_id: client_id@, player: None }),
    {
        Seat { client_id, player: None }
    }

    /// The id of the client's player, while it has one.
    pub fn player(&self) -> (player: Option<&String>)
        ensures
            match player {
                Some(id) => self@.player == Some(id@),
                None => self@.player is None,
            },
    {
        self.player.as_ref()
    }

    /// Sees to it that the client has a player: where the seat is empty, a
    /// spawn is proposed and the proposed player takes the seat. What comes
    /// back is the announcement to send, if there is one. A seat that is
    /// taken stays as it is, and so does one for which no spawn can be
    /// proposed. A spawn is proposed under a freshly minted id; it cannot
    /// fail for the id's sake where no player carries an id of that kind.
    pub fn fill(
        &mut self,
        players: &Arena<PlayerState>,
        slots: &Vec<SpawnSlot>,
    ) -> (announcement: Option<Payload>)
        ensures
            final(self)@.client_id == old(self)@.client_id,
            old(self)@.player is Some ==> announcement is None && final(self)@ == old(self)@,
            old(self)@.player is None && (plays(players@, old(self)@.client_id) || all_occupied(
                players@,
                views(slots@),
            )) ==> announcement is None && final(self)@ == old(self)@,
            match announcement {
                Some(payload) => {
                    &&& old(self)@.player is None
                    &&& payload@ is Player
                    &&& final(self)@.player == Some(payload@->Player_0.id)
                    &&& !holds::<PlayerState>(players@, payload@->Player_0.id)
                    &&& exists|at: int|
                        #[trigger] first_vacant(players@, views(slots@), at) && payload@->Player_0
                            == starting_state(
                            views(slots@)[at],
                            old(self)@.client_id,
                            payload@->Player_0.id,
                        )
                },
                None => final(self)@ == old(self)@,
            },
            exists|id: Seq<char>|
                id.len() == minted_len() && (Seating {
                    seat: final(self)@,
                    announcement: announced(announcement),
                }) == #[trigger] seated(old(self)@, players@, views(slots@), id),
            old(self)@.player is None && !plays(players@, old(self)@.client_id) && !all_occupied(
                players@,
                views(slots@),
            ) && none_minted(players@) ==> announcement is Some,
    {
        let ghost before = self@;
        let ghost listed = views(slots@);
        if self.player.is_some() {
            proof {
                let any = Seq::new(minted_len(), |i: int| 'x');
                assert(any.len() == minted_len());
                assert((Seating { seat: self@, announcement: None }) == seated(
                    before,
                    players@,
                    listed,
                    any,
                ));
            }
            return None;
        }
        let proposal = propose_spawn(players, slots, &self.client_id);
        let ghost minted = choose|id: Seq<char>|
            id.len() == minted_len() && outcome_view(proposal) == #[trigger] planned(
                players@,
                listed,
                before.client_id,
                id,
            );
        proof {
            if none_minted(players@) && holds::<PlayerState>(players@, minted) {
                let i = choose|i: int|
                    0 <= i < players@.len() && (#[trigger] players@[i]).state.id == minted;
                assert(players@[i].state.id.len() != minted_len());
            }
        }
        match proposal {
            Ok(state) => {
                assert(state@.id == minted);
                self.player = Some(state.id.clone());
                let announcement = Some(Payload::Player(state));
                assert((Seating { seat: self@, announcement: announced(announcement) }) == seated(
                    before,
                    players@,
                    listed,
                    minted,
                ));
                announcement
            },
            Err(_) => {
                assert((Seating { seat: self@, announcement: None }) == seated(
                    before,
                    players@,
                    listed,
                    minted,
                ));
                None
            },
        }
    }

    /// Takes note of the verdict on a player's claim. Where the client's own
    /// player lost its slot, because the claimant evicted it or because it
    /// was the claimant and was refused, the seat is given up, and what
    /// comes back is the despawn notice to send. The next call of
    /// [`Seat::fill`] then proposes a new player.
    pub fn heed(&mut self, claimant: &String, verdict: &ClaimVerdict) -> (notice: Option<Payload>)
        ensures
            (Seating { seat: final(self)@, announcement: announced(notice) }) == heeded(
                old(self)@,
                claimant@,
                verdict@,
            ),
    {
        let notice = match &self.player {
            Some(own) => concession(claimant, verdict, own),
            None => None,
        };
        if notice.is_some() {
            self.player = None;
        }
        notice
    }

    /// Takes note that a player is gone: the seat is given up where it was
    /// the client's own. Tells whether it was.
    pub fn vacate(&mut self, player_id: &String) -> (own: bool)
        ensures
            own == (old(self)@.player == Some(player_id@)),
            final(self)@ == (SeatView {
                client_id: old(self)@.client_id,
                player: if own {
                    None
                } else {
                    old(self)@.player
                },
            }),
    {
        let own = match &self.player {
            Some(id) => *id == *player_id,
            None => false,
        };
        if own {
            self.player = None;
        }
        own
    }
}

/// There is one first vacant slot at most.
pub proof fn lemma_first_vacant_unique(
    players: Seq<SlotView<PlayerStateView>>,
    slots: Seq<SpawnSlotView>,
    a: int,
    b: int,
)
    requires
        first_vacant(players, slots, a),
        first_vacant(players, slots, b),
    ensures
        a == b,
{
    if a < b {
        assert(!vacant(players, slots[a].id));
    } else if b < a {
        assert(!vacant(players, slots[b].id));
    }
}

} // verus!
