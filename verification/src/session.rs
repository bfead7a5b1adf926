//! Per-connection server session logic: mapping inbound actions onto
//! authoritative-state mutations, and disconnect handling.
//!
//! The transport callbacks in the surrounding application decode each inbound
//! payload, take the state lock, and call [`handle_action`]; the reply, if
//! any, is emitted to that connection only, after the lock is released.

use vstd::prelude::*;

use crate::codec::parse_action_spec;
use crate::event::{Action, JoinResponse, PlayerAction};
use crate::math::sat_i64;
use crate::state::{
    ack_record, applied_delta, is_cheating, move_dt_ms, State, StateError, Player,
};

verus! {

/// What a session emits back to its own connection after one inbound action.
#[derive(Clone, Copy, Debug)]
pub enum SessionReply {
    /// Sent on the join channel: the id assigned to this connection.
    Joined(JoinResponse),
    /// Sent on the error channel: the action failed (or was clamped).
    Rejected(StateError),
    /// Sent on the error channel: the inbound payload did not parse.
    Malformed,
}

/// What one action does to the authoritative state and what the session
/// emits for it: a join assigns the next id and replies with it; a jump sets
/// the player's jump time; a move applies the velocity-capped delta and
/// records its acknowledgement; an unknown player or a capped move is
/// reported to this connection only.
pub open spec fn action_outcome(
    pre: State,
    post: State,
    rem_post: usize,
    rem_pre: usize,
    action: Action,
    now_ms: i64,
    r: Option<SessionReply>,
) -> bool {
    &&& post.timestamp == pre.timestamp
    &&& (action matches Action::Join ==> {
        &&& post.new_player_id == pre.new_player_id + 1
        &&& post.players_map() == pre.players_map().insert(
            pre.new_player_id as int,
            Player { id: pre.new_player_id, x: 0i64, last_jump_at: None::<i64> },
        )
        &&& post.acknowledged@ == pre.acknowledged@
        &&& rem_post == pre.new_player_id
        &&& r == Some(SessionReply::Joined(JoinResponse { player_id: pre.new_player_id }))
    })
    &&& (action matches Action::Player { id, action: inner } ==> rem_post == rem_pre
        && post.new_player_id == pre.new_player_id && (match inner {
        PlayerAction::Jump { at } => {
            let known = pre.players_map().contains_key(id as int);
            &&& post.acknowledged@ == pre.acknowledged@
            &&& (known ==> post.players_map() == pre.players_map().insert(
                id as int,
                Player { id, x: pre.players_map()[id as int].x, last_jump_at: Some(at) },
            ) && r == None::<SessionReply>)
            &&& (!known ==> post.players_map() == pre.players_map() && r == Some(
                SessionReply::Rejected(StateError::UnknownPlayer(id)),
            ))
        },
        PlayerAction::Move { delta_x, id: ack_id } => {
            let dt = move_dt_ms(now_ms as int, pre.timestamp as int);
            let known = pre.players_map().contains_key(id as int);
            let cheat = is_cheating(delta_x as int, dt);
            &&& (known ==> post.acknowledged@ == ack_record(pre.acknowledged@, ack_id))
            &&& (!known ==> r == Some(SessionReply::Rejected(StateError::UnknownPlayer(id)))
                && post.players_map() == pre.players_map() && post.acknowledged@
                == pre.acknowledged@)
            &&& (known ==> post.players_map() == pre.players_map().insert(
                id as int,
                Player {
                    id,
                    x: sat_i64(
                        pre.players_map()[id as int].x + applied_delta(delta_x as int, dt),
                    ) as i64,
                    last_jump_at: pre.players_map()[id as int].last_jump_at,
                },
            ))
            &&& (known && cheat ==> r == Some(
                SessionReply::Rejected(
                    StateError::Cheating { units: delta_x, timeframe_ms: dt as i64 },
                ),
            ))
            &&& (known && !cheat ==> r == None::<SessionReply>)
        },
    }))
}

/// Apply one inbound action to the authoritative state.
///
/// A `Join` assigns the next id, remembers it on the connection and replies
/// with it; a jump or move is applied to the named player, and any failure is
/// reported back to this connection only. `now_ms` is the arrival time used
/// by the velocity cap.
pub fn handle_action(
    state: &mut State,
    remembered: &mut usize,
    action: Action,
    now_ms: i64,
) -> (r: Option<SessionReply>)
    requires
        old(state).wf(),
        action matches Action::Join ==> old(state).new_player_id < usize::MAX,
    ensures
        final(state).wf(),
        action_outcome(
            *old(state),
            *final(state),
            *final(remembered),
            *old(remembered),
            action,
            now_ms,
            r,
        ),
{
    match action {
        Action::Join => {
            let player_id = state.player_join();
            *remembered = player_id;
            Some(SessionReply::Joined(JoinResponse::new(player_id)))
        },
        Action::Player { id: player_id, action } => match action {
            PlayerAction::Jump { at } => match state.player_jump(player_id, at) {
                Ok(()) => None,
                Err(e) => Some(SessionReply::Rejected(e)),
            },
            PlayerAction::Move { delta_x, id: ack_id } => match state.player_move_at(
                player_id,
                delta_x,
                ack_id,
                now_ms,
            ) {
                Ok(()) => None,
                Err(e) => Some(SessionReply::Rejected(e)),
            },
        },
    }
}

/// Handle one raw inbound payload: decode it as an action and apply it.
///
/// A payload that does not parse is reported on the error channel and leaves
/// the state untouched.
pub fn handle_payload(
    state: &mut State,
    remembered: &mut usize,
    payload: &Vec<u8>,
    now_ms: i64,
) -> (r: Option<SessionReply>)
    requires
        old(state).wf(),
        parse_action_spec(payload@) matches Some(a) && a matches Action::Join ==> old(
            state,
        ).new_player_id < usize::MAX,
    ensures
        final(state).wf(),
        match parse_action_spec(payload@) {
            Option::Some(a) => action_outcome(
                *old(state),
                *final(state),
                *final(remembered),
                *old(remembered),
                a,
                now_ms,
                r,
            ),
            Option::None => r == Some(SessionReply::Malformed)
                && final(state).players@ == old(state).players@
                && final(state).timestamp == old(state).timestamp
                && final(state).acknowledged@ == old(state).acknowledged@
                && final(state).new_player_id == old(state).new_player_id
                && *final(remembered) == *old(remembered),
        },
{
    match crate::codec::parse_action(payload) {
        Some(action) => handle_action(state, remembered, action, now_ms),
        None => Some(SessionReply::Malformed),
    }
}

/// Handle a disconnect: remove the connection's remembered player from the
/// roster, exactly once; an unknown id is reported, not fatal.
pub fn handle_disconnect(state: &mut State, remembered: usize) -> (r: Option<SessionReply>)
    requires
        old(state).wf(),
    ensures
        final(state).wf(),
        final(state).timestamp == old(state).timestamp,
        final(state).acknowledged@ == old(state).acknowledged@,
        final(state).new_player_id == old(state).new_player_id,
        old(state).players_map().contains_key(remembered as int) ==> final(state).players_map()
            == old(state).players_map().remove(remembered as int) && r == None::<SessionReply>,
        !old(state).players_map().contains_key(remembered as int) ==> final(state).players_map()
            == old(state).players_map() && r == Some(
            SessionReply::Rejected(StateError::UnknownPlayer(remembered)),
        ),
{
    match state.player_leave(remembered) {
        Ok(()) => None,
        Err(e) => Some(SessionReply::Rejected(e)),
    }
}

} // verus!
