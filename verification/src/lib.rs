//! Relay and state-reconciliation core of a small multiplayer arena game.
//!
//! The crate holds the parts of the game's networking that have real
//! invariants: the deduplicating relay bus, the reconciler that makes the
//! local entity set follow authoritative snapshots, the rule that resolves
//! two claims on one spawn slot, and the framing of messages on the wire.
//! Sockets, threads and channels live outside; they hand plain values in and
//! carry plain values out.
//!
//! The data flows from the connection readers through the relay bus to the
//! local application, whose session applies each message to the entity set:
//!
//! * [`wire`] and [`codec`]: frames and the byte layout of envelopes;
//! * [`reader`]: bytes of one connection to events for the bus;
//! * [`dedup`] and [`bus`]: at-most-once relay to the peers and to the local
//!   application;
//! * [`session`]: what a peer does with each message it is handed;
//! * [`arena`] and [`reconciler`]: the entity set and its diff against
//!   snapshots;
//! * [`ident`], [`claims`] and [`spawn`]: ids, spawn slots, and who keeps a
//!   slot that two players claim;
//! * [`model`]: the values that travel.

pub mod arena;
pub mod bus;
pub mod claims;
pub mod codec;
pub mod dedup;
pub mod ident;
pub mod model;
pub mod reader;
pub mod reconciler;
pub mod session;
pub mod spawn;
pub mod wire;
