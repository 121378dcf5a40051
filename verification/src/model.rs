//! The values that travel between peers, and their mathematical views.
//!
//! Numbers that the game treats as single-precision floats (coordinates,
//! radii, colour channels) are carried as their IEEE-754 bit patterns: the
//! core only stores and forwards them.

use vstd::prelude::*;
use crate::arena::{distinct_entries, distinct_ids};
use crate::ident::mint_id;

verus! {

/// A pair of single-precision numbers, each as its bit pattern.
#[derive(Clone, Copy, Debug, PartialEq, Eq, Structural)]
pub struct Vec2 {
    pub x: u32,
    pub y: u32,
}

/// A triple of single-precision numbers, each as its bit pattern.
#[derive(Clone, Copy, Debug, PartialEq, Eq, Structural)]
pub struct Vec3 {
    pub x: u32,
    pub y: u32,
    pub z: u32,
}

/// A rotation quaternion, each component as its bit pattern.
#[derive(Clone, Copy, Debug, PartialEq, Eq, Structural)]
pub struct Quat {
    pub x: u32,
    pub y: u32,
    pub z: u32,
    pub w: u32,
}

/// A colour, each channel as the bit pattern of a single-precision number.
#[derive(Clone, Copy, Debug, PartialEq, Eq, Structural)]
pub struct Color {
    pub r: u32,
    pub g: u32,
    pub b: u32,
}

/// The views of the items of a vector, in order.
pub open spec fn views<T: View>(items: Seq<T>) -> Seq<T::V> {
    Seq::new(items.len(), |i: int| items[i]@)
}

/// A value that carries the textual id under which peers know it.
pub trait Keyed: View + Sized {
    /// The id inside a view of the value.
    spec fn key_of(v: Self::V) -> Seq<char>;

    /// The id of the value.
    fn key(&self) -> (k: &String)
        ensures
            k@ == Self::key_of(self@),
    ;

    /// An independent copy with the same view.
    fn replica(&self) -> (r: Self)
        ensures
            r@ == self@,
    ;
}

/// Copies a list item by item.
pub fn replicate<T: Keyed>(items: &Vec<T>) -> (copy: Vec<T>)
    ensures
        views(copy@) == views(items@),
{
    let mut copy: Vec<T> = Vec::new();
    let mut i: usize = 0;
    while i < items.len()
        invariant
            i <= items.len(),
            copy.len() == i,
            forall|j: int| 0 <= j < i ==> copy[j]@ == items[j]@,
        decreases items.len() - i,
    {
        copy.push(items[i].replica());
        i += 1;
    }
    assert(views(copy@) =~= views(items@));
    copy
}

/// The state of one player as a snapshot describes it.
#[derive(Debug, PartialEq, Eq)]
pub struct PlayerState {
    pub id: String,
    pub client_id: String,
    pub spawn_id: String,
    pub radius: u32,
    pub color: Color,
    pub position: Vec3,
    pub velocity: Vec2,
}

/// Mathematical view of a [`PlayerState`].
pub struct PlayerStateView {
    pub id: Seq<char>,
    pub client_id: Seq<char>,
    pub spawn_id: Seq<char>,
    pub radius: u32,
    pub color: Color,
    pub position: Vec3,
    pub velocity: Vec2,
}

impl View for PlayerState {
    type V = PlayerStateView;

    open spec fn view(&self) -> PlayerStateView {
        PlayerStateView {
            id: self.id@,
            client_id: self.client_id@,
            spawn_id: self.spawn_id@,
            radius: self.radius,
            color: self.color,
            position: self.position,
            velocity: self.velocity,
        }
    }
}

impl Clone for PlayerState {
    fn clone(&self) -> (r: Self)
        ensures
            r@ == self@,
    {
        PlayerState {
            id: self.id.clone(),
            client_id: self.client_id.clone(),
            spawn_id: self.spawn_id.clone(),
            radius: self.radius,
            color: self.color,
            position: self.position,
            velocity: self.velocity,
        }
    }
}

impl Keyed for PlayerState {
    open spec fn key_of(v: PlayerStateView) -> Seq<char> {
        v.id
    }

    fn key(&self) -> (k: &String) {
        &self.id
    }

    fn replica(&self) -> (r: Self) {
        self.clone()
    }
}

/// The state of one bullet as a snapshot describes it.
#[derive(Debug, PartialEq, Eq)]
pub struct BulletState {
    pub id: String,
    pub position: Vec3,
    pub rotation: Quat,
    pub velocity: Vec2,
}

/// Mathematical view of a [`BulletState`].
pub struct BulletStateView {
    pub id: Seq<char>,
    pub position: Vec3,
    pub rotation: Quat,
    pub velocity: Vec2,
}

impl View for BulletState {
    type V = BulletStateView;

    open spec fn view(&self) -> BulletStateView {
        BulletStateView {
            id: self.id@,
            position: self.position,
            rotation: self.rotation,
            velocity: self.velocity,
        }
    }
}

impl Clone for BulletState {
    fn clone(&self) -> (r: Self)
        ensures
            r@ == self@,
    {
        BulletState {
            id: self.id.clone(),
            position: self.position,
            rotation: self.rotation,
            velocity: self.velocity,
        }
    }
}

impl Keyed for BulletState {
    open spec fn key_of(v: BulletStateView) -> Seq<char> {
        v.id
    }

    fn key(&self) -> (k: &String) {
        &self.id
    }

    fn replica(&self) -> (r: Self) {
        self.clone()
    }
}

/// A complete authoritative description of the live players and bullets
/// at one instant of the serving peer.
#[derive(Debug, PartialEq, Eq)]
pub struct Snapshot {
    pub timestamp: u64,
    pub players: Vec<PlayerState>,
    pub bullets: Vec<BulletState>,
}

/// Mathematical view of a [`Snapshot`].
pub struct SnapshotView {
    pub timestamp: u64,
    pub players: Seq<PlayerStateView>,
    pub bullets: Seq<BulletStateView>,
}

impl View for Snapshot {
    type V = SnapshotView;

    open spec fn view(&self) -> SnapshotView {
        SnapshotView {
            timestamp: self.timestamp,
            players: views(self.players@),
            bullets: views(self.bullets@),
        }
    }
}

impl Clone for Snapshot {
    fn clone(&self) -> (r: Self)
        ensures
            r@ == self@,
    {
        Snapshot {
            timestamp: self.timestamp,
            players: replicate(&self.players),
            bullets: replicate(&self.bullets),
        }
    }
}

/// A snapshot's invariant: within it an id names one player at most and
/// one bullet at most. Players and bullets are separate namespaces.
pub open spec fn coherent(snapshot: SnapshotView) -> bool {
    &&& distinct_entries::<PlayerState>(snapshot.players)
    &&& distinct_entries::<BulletState>(snapshot.bullets)
}

impl Snapshot {
    /// Whether the snapshot keeps its invariant.
    pub fn is_coherent(&self) -> (ok: bool)
        ensures
            ok == coherent(self@),
    {
        distinct_ids(&self.players) && distinct_ids(&self.bullets)
    }
}

/// What a player asks the simulation to do.
#[derive(Clone, Copy, Debug, PartialEq, Eq, Structural)]
pub enum Input {
    Spawn,
    MoveLeft,
    MoveRight,
    Jump,
    Shoot { aim: Vec2 },
    Block,
}

/// The payload of an envelope: a closed set of message kinds.
#[derive(Debug, PartialEq, Eq)]
pub enum Payload {
    /// The state of one player, sent by the peer that owns it.
    Player(PlayerState),
    /// The state of one bullet.
    Bullet(BulletState),
    /// An intent of the client with the given id.
    Input { client_id: String, input: Input },
    /// A complete authoritative description of the world.
    Snapshot(Snapshot),
    /// The sender has lost track and asks for a full snapshot.
    OutOfSync,
    /// The player with the given id is gone.
    DespawnPlayer { player_id: String },
}

/// Mathematical view of a [`Payload`].
pub enum PayloadView {
    Player(PlayerStateView),
    Bullet(BulletStateView),
    Input { client_id: Seq<char>, input: Input },
    Snapshot(SnapshotView),
    OutOfSync,
    DespawnPlayer { player_id: Seq<char> },
}

impl View for Payload {
    type V = PayloadView;

    open spec fn view(&self) -> PayloadView {
        match self {
            Payload::Player(state) => PayloadView::Player(state@),
            Payload::Bullet(state) => PayloadView::Bullet(state@),
            Payload::Input { client_id, input } => PayloadView::Input {
                client_id: client_id@,
                input: *input,
            },
            Payload::Snapshot(snapshot) => PayloadView::Snapshot(snapshot@),
            Payload::OutOfSync => PayloadView::OutOfSync,
            Payload::DespawnPlayer { player_id } => PayloadView::DespawnPlayer {
                player_id: player_id@,
            },
        }
    }
}

impl Clone for Payload {
    fn clone(&self) -> (r: Self)
        ensures
            r@ == self@,
    {
        match self {
            Payload::Player(state) => Payload::Player(state.clone()),
            Payload::Bullet(state) => Payload::Bullet(state.clone()),
            Payload::Input { client_id, input } => Payload::Input {
                client_id: client_id.clone(),
                input: *input,
            },
            Payload::Snapshot(snapshot) => Payload::Snapshot(snapshot.clone()),
            Payload::OutOfSync => Payload::OutOfSync,
            Payload::DespawnPlayer { player_id } => Payload::DespawnPlayer {
                player_id: player_id.clone(),
            },
        }
    }
}

/// One message: a payload under the id that names the logical event. The
/// id is minted once, where the event is created, and is the only key by
/// which the relay tells messages apart.
#[derive(Debug, PartialEq, Eq)]
pub struct Envelope {
    pub id: String,
    pub payload: Payload,
}

/// Mathematical view of an [`Envelope`].
pub struct EnvelopeView {
    pub id: Seq<char>,
    pub payload: PayloadView,
}

impl View for Envelope {
    type V = EnvelopeView;

    open spec fn view(&self) -> EnvelopeView {
        EnvelopeView { id: self.id@, payload: self.payload@ }
    }
}

impl Clone for Envelope {
    fn clone(&self) -> (r: Self)
        ensures
            r@ == self@,
    {
        Envelope { id: self.id.clone(), payload: self.payload.clone() }
    }
}

impl Envelope {
    /// Wraps a payload into an envelope under a freshly minted id: the one
    /// id under which every peer will know this logical event.
    pub fn seal(payload: Payload) -> (envelope: Envelope)
        ensures
            envelope@.payload == payload@,
            envelope@.id.len() == 36,
    {
        Envelope { id: mint_id(), payload }
    }
}

} // verus!
