//! Client-server netcode for a real-time multiplayer 2D game.
//!
//! The server owns the authoritative world state ([`state::State`]): a roster
//! of players, a tick timestamp, and the set of move identifiers acknowledged
//! since the last broadcast. Clients run a latency-hiding pipeline
//! ([`client::Game`]) that composes prediction, reconciliation and entity
//! interpolation over the snapshots the server broadcasts.
//!
//! All quantities are fixed point: horizontal positions and deltas are held in
//! micro-units (one world unit is [`MICROS_PER_UNIT`] micro-units) and times
//! in milliseconds since the Unix epoch. Transport, rendering and input stay
//! outside this crate; the wire encoding they carry is defined in [`codec`].

use vstd::prelude::*;

pub mod client;
pub mod codec;
pub mod event;
pub mod laws;
pub mod math;
pub mod session;
pub mod state;

pub use event::Action;
pub use state::State;

verus! {

/// SocketIO channel name for client-side actions
pub const ACTION_CHANNEL: &'static str = "action";

/// SocketIO channel name for sending state updates to the client
pub const STATE_CHANNEL: &'static str = "state";

/// SocketIO channel name to send join information to the client
pub const JOIN_CHANNEL: &'static str = "join";

/// SocketIO channel name to send errors to the client
pub const ERROR_CHANNEL: &'static str = "error";

/// Number of micro-units in one world unit: the scale of all fixed-point
/// positions and deltas in this crate.
pub const MICROS_PER_UNIT: i64 = 1_000_000;

/// Max number of micro-units traveled per second for a client (2.5 world
/// units per second). Used to prevent cheating.
pub const MAX_UNITS_PER_SECOND_MICROS: i64 = 2_500_000;

/// Time in milliseconds between two server broadcasts.
pub const STATE_UPDATE_INTERVAL_MS: u64 = 333;

/// Length of the jump window in milliseconds: a player is airborne for this
/// long after the start of a jump.
pub const JUMP_WINDOW_MS: i64 = 330;

/// Smallest position discrepancy, in micro-units, that the client reports to
/// the server as a move (0.01 world units).
pub const MOVE_EPSILON_MICROS: i64 = 10_000;

/// Default simulated round-trip latency in milliseconds.
pub const DEFAULT_SIMULATED_PING_MS: u64 = 250;

} // verus!
