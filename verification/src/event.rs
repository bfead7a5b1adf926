//! Actions exchanged between client and server, and the join reply.

use vstd::prelude::*;

verus! {

/// Action that can be sent to the server's action channel.
#[derive(Clone, Copy, Debug)]
pub enum Action {
    Join,
    Player { id: usize, action: PlayerAction },
}

/// Actions that can be performed on a player that has joined the game.
#[derive(Clone, Copy, Debug)]
pub enum PlayerAction {
    /// Start a jump at the given wall-clock instant in milliseconds.
    Jump { at: i64 },
    /// Move by `delta_x` micro-units; `id` is a fresh 128-bit identifier
    /// generated for this move, echoed back by the server as an
    /// acknowledgement.
    Move { delta_x: i64, id: u128 },
}

/// Response from joining the game; includes the player's global ID.
#[derive(Clone, Copy, Debug)]
pub struct JoinResponse {
    pub player_id: usize,
}

impl JoinResponse {
    /// Create a join response
    pub fn new(player_id: usize) -> (r: Self)
        ensures
            r == (JoinResponse { player_id }),
    {
        Self { player_id }
    }
}

/// Relies on `uuid::Uuid::new_v4`, a version-4 UUID drawn from the operating
/// system's randomness, taken as its 128-bit value. The value is random, so
/// nothing is promised of it.
#[verifier::external_body]
fn fresh_move_id() -> u128 {
    uuid::Uuid::new_v4().as_u128()
}

/// Holds when `a` is a move action by player `player_id` of `delta_x`
/// micro-units, whatever its move identifier.
pub open spec fn is_move_action(a: Action, player_id: usize, delta_x: i64) -> bool {
    match a {
        Action::Player { id, action } => id == player_id && match action {
            PlayerAction::Move { delta_x: d, id: _ } => d == delta_x,
            _ => false,
        },
        _ => false,
    }
}

/// The move identifier carried by a move action (zero for any other action).
pub open spec fn move_id_of(a: Action) -> u128 {
    match a {
        Action::Player { action: PlayerAction::Move { id, .. }, .. } => id,
        _ => 0,
    }
}

impl Action {
    /// Join the game
    pub fn player_join() -> (r: Self)
        ensures
            r == Action::Join,
    {
        Self::Join
    }

    /// Get the ack_id of the current event, if it has one
    pub fn ack_id(&self) -> (r: Option<(u128, PlayerAction)>)
        ensures
            r == match *self {
                Action::Player { action: PlayerAction::Move { delta_x, id }, .. } => Some(
                    (id, PlayerAction::Move { delta_x, id }),
                ),
                _ => None::<(u128, PlayerAction)>,
            },
    {
        match self {
            Action::Join => None,
            Action::Player { action, id: _ } => match action {
                PlayerAction::Jump { at: _ } => None,
                PlayerAction::Move { delta_x, id } => Some(
                    (*id, PlayerAction::Move { delta_x: *delta_x, id: *id }),
                ),
            },
        }
    }

    /// Create a jump action
    pub fn player_jump(player_id: usize, at: i64) -> (r: Self)
        ensures
            r == (Action::Player { id: player_id, action: PlayerAction::Jump { at } }),
    {
        Self::Player { id: player_id, action: PlayerAction::Jump { at } }
    }

    /// Create a player movement action, with a freshly drawn move identifier.
    pub fn player_move(player_id: usize, delta_x: i64) -> (r: Self)
        ensures
            is_move_action(r, player_id, delta_x),
    {
        Self::Player {
            id: player_id,
            action: PlayerAction::Move { delta_x, id: fresh_move_id() },
        }
    }
}

} // verus!
