//! The library's cross-function guarantees, stated and proved over the same
//! spec functions that the operations' contracts use.

use vstd::prelude::*;

use crate::client::{
    log_insert, log_nodup, retain_unacked, sum_unacked, lemma_retain_all_acked, UnackedMove,
};
use crate::math::sat_i64;
use crate::state::{
    ack_record, applied_delta, is_cheating, lemma_roster_map_ids, State,
};
use crate::MAX_UNITS_PER_SECOND_MICROS;

verus! {

/// One authoritative-state mutation, as processed between two broadcasts.
/// `known` on a move records whether its target player stood on the roster
/// at processing time: only such a move is acknowledged, as
/// [`State::player_move_at`] ensures; one aimed at an unknown player is
/// rejected and does not apply.
pub enum ServerOp {
    Join,
    Leave { player_id: usize },
    Jump { player_id: usize, at: i64 },
    Move { player_id: usize, delta_x: i64, ack_id: u128, now_ms: i64, known: bool },
}

/// Whether the operation is a move (the only operation that can record an
/// acknowledgement).
pub open spec fn is_move_op(op: ServerOp) -> bool {
    match op {
        ServerOp::Move { .. } => true,
        _ => false,
    }
}

/// The acknowledgement identifier an operation records, if any: that of a
/// move whose player exists.
pub open spec fn op_ack_id(op: ServerOp) -> Option<u128> {
    match op {
        ServerOp::Move { ack_id, known, .. } => if known {
            Some(ack_id)
        } else {
            None
        },
        _ => None,
    }
}

/// The acknowledgement list after a window of operations: each move by a
/// player on the roster records its identifier, as [`State::player_move_at`]
/// ensures; no other operation touches the list, as their contracts ensure.
pub open spec fn ack_after(ack: Seq<u128>, ops: Seq<ServerOp>) -> Seq<u128>
    decreases ops.len(),
{
    if ops.len() == 0 {
        ack
    } else {
        let next = match op_ack_id(ops.first()) {
            Option::Some(id) => ack_record(ack, id),
            Option::None => ack,
        };
        ack_after(next, ops.drop_first())
    }
}

/// Every snapshot the server broadcasts is keyed consistently: the player
/// stored under an id bears that id.
pub proof fn lemma_broadcast_player_ids(s: &State)
    requires
        s.wf(),
    ensures
        forall|k: int| #[trigger] s.players_map().contains_key(k) ==> s.players_map()[k].id as int
            == k,
{
    lemma_roster_map_ids(s.players@);
}

/// A window without moves leaves the acknowledgement list untouched.
pub proof fn lemma_ack_unchanged_without_moves(ack: Seq<u128>, ops: Seq<ServerOp>)
    requires
        forall|i: int| 0 <= i < ops.len() ==> !is_move_op(#[trigger] ops[i]),
    ensures
        ack_after(ack, ops) == ack,
    decreases ops.len(),
{
    if ops.len() > 0 {
        assert(!is_move_op(ops[0]));
        assert forall|i: int| 0 <= i < ops.drop_first().len() implies !is_move_op(
            #[trigger] ops.drop_first()[i],
        ) by {
            assert(!is_move_op(ops[i + 1]));
        }
        lemma_ack_unchanged_without_moves(ack, ops.drop_first());
    }
}

/// Between two consecutive broadcasts with no intervening move, the second
/// broadcast's acknowledgement set is empty: the first tick clears the list,
/// and no other operation adds to it.
pub proof fn lemma_consecutive_broadcasts_ack_empty(ops: Seq<ServerOp>)
    requires
        forall|i: int| 0 <= i < ops.len() ==> !is_move_op(#[trigger] ops[i]),
    ensures
        ack_after(Seq::empty(), ops) =~= Seq::<u128>::empty(),
{
    lemma_ack_unchanged_without_moves(Seq::empty(), ops);
}

/// An identifier once on the list stays there through a window.
pub proof fn lemma_ack_after_monotone(ack: Seq<u128>, ops: Seq<ServerOp>, m: u128)
    requires
        ack.contains(m),
    ensures
        ack_after(ack, ops).contains(m),
    decreases ops.len(),
{
    if ops.len() > 0 {
        match op_ack_id(ops.first()) {
            Option::Some(ack_id) => {
                if !ack.contains(ack_id) {
                    assert(ack.push(ack_id).contains(m)) by {
                        let i = choose|i: int| 0 <= i < ack.len() && ack[i] == m;
                        assert(ack.push(ack_id)[i] == m);
                    }
                }
                lemma_ack_after_monotone(ack_record(ack, ack_id), ops.drop_first(), m);
            },
            Option::None => {
                lemma_ack_after_monotone(ack, ops.drop_first(), m);
            },
        }
    }
}

/// A move whose player exists, processed in a window, is acknowledged in the
/// broadcast that ends it: its identifier is in the list the next tick
/// serializes.
pub proof fn lemma_move_acknowledged(ack: Seq<u128>, ops: Seq<ServerOp>, k: int)
    requires
        0 <= k < ops.len(),
        op_ack_id(ops[k]) is Some,
    ensures
        ack_after(ack, ops).contains(op_ack_id(ops[k]).unwrap()),
    decreases ops.len(),
{
    let m = op_ack_id(ops[k]).unwrap();
    if k == 0 {
        match op_ack_id(ops.first()) {
            Option::Some(ack_id) => {
                assert(ack_record(ack, ack_id).contains(ack_id)) by {
                    if ack.contains(ack_id) {
                    } else {
                        assert(ack.push(ack_id)[ack.len() as int] == ack_id);
                    }
                }
                lemma_ack_after_monotone(ack_record(ack, ack_id), ops.drop_first(), m);
            },
            Option::None => {
                assert(false);
            },
        }
    } else {
        assert(ops.drop_first()[k - 1] == ops[k]);
        match op_ack_id(ops.first()) {
            Option::Some(ack_id) => {
                lemma_move_acknowledged(ack_record(ack, ack_id), ops.drop_first(), k - 1);
            },
            Option::None => {
                lemma_move_acknowledged(ack, ops.drop_first(), k - 1);
            },
        }
    }
}

/// An identifier that is not on the list and that no move of the window
/// carries is absent from the broadcast that ends the window. Together with
/// [`lemma_move_acknowledged`] and the tick's clearing of the list, this
/// makes each move identifier appear in exactly the one broadcast that
/// follows its processing, as long as no later move reuses it.
pub proof fn lemma_ack_absent_without_resend(ack: Seq<u128>, ops: Seq<ServerOp>, m: u128)
    requires
        !ack.contains(m),
        forall|i: int| 0 <= i < ops.len() ==> op_ack_id(#[trigger] ops[i]) != Some(m),
    ensures
        !ack_after(ack, ops).contains(m),
    decreases ops.len(),
{
    if ops.len() > 0 {
        assert forall|i: int| 0 <= i < ops.drop_first().len() implies op_ack_id(
            #[trigger] ops.drop_first()[i],
        ) != Some(m) by {
            assert(op_ack_id(ops[i + 1]) != Some(m));
        }
        match op_ack_id(ops.first()) {
            Option::Some(ack_id) => {
                assert(op_ack_id(ops[0]) != Some(m));
                assert(ack_id != m);
                assert(!ack_record(ack, ack_id).contains(m)) by {
                    if !ack.contains(ack_id) {
                        if ack.push(ack_id).contains(m) {
                            let i = choose|i: int|
                                0 <= i < ack.push(ack_id).len() && ack.push(ack_id)[i] == m;
                            assert(0 <= i < ack.len() && ack[i] == m);
                            assert(false);
                        }
                    }
                }
                lemma_ack_absent_without_resend(ack_record(ack, ack_id), ops.drop_first(), m);
            },
            Option::None => {
                lemma_ack_absent_without_resend(ack, ops.drop_first(), m);
            },
        }
    }
}

/// The velocity cap: a move within the cap is applied in full; one above it
/// is applied exactly at the cap's distance over the timeframe, in the move's
/// direction (and the server reports the `Cheating` error, as
/// [`State::player_move_at`] ensures).
pub proof fn lemma_velocity_cap(delta: int, dt: int)
    requires
        dt >= 0,
    ensures
        !is_cheating(delta, dt) ==> applied_delta(delta, dt) == delta,
        is_cheating(delta, dt) && delta >= 0 ==> applied_delta(delta, dt) * 1000
            == MAX_UNITS_PER_SECOND_MICROS * dt,
        is_cheating(delta, dt) && delta < 0 ==> applied_delta(delta, dt) * 1000 == -(
        MAX_UNITS_PER_SECOND_MICROS * dt),
{
    if is_cheating(delta, dt) {
        assert((2500 * dt) * 1000 == 2_500_000 * dt) by (nonlinear_arith);
        assert(((-2500) * dt) * 1000 == -(2_500_000 * dt)) by (nonlinear_arith);
    }
}

/// Reconciliation convergence: with prediction and reconciliation on, no
/// local input, and a static server, an initial discrepancy `d` between the
/// client's local position and the server's is resolved within one broadcast
/// round trip.
///
/// The first snapshot acknowledges everything in flight; the client then
/// sends exactly `d` and keeps its local position. The server applies the
/// move in full (it is within the cap) and echoes its identifier, so after
/// the second snapshot nothing is unacknowledged, the discrepancy is zero (no
/// further move is sent), and the displayed own position equals the server's.
/// A discrepancy below the move threshold is never sent, so exact convergence
/// is claimed only for `d == 0` or `|d|` at least the threshold.
pub proof fn lemma_reconciliation_convergence(
    local_x: i64,
    server_x: i64,
    log: Seq<UnackedMove>,
    acked1: Seq<u128>,
    acked2: Seq<u128>,
    m: u128,
    dt: int,
)
    requires
        log_nodup(log),
        forall|i: int| 0 <= i < log.len() ==> acked1.contains(#[trigger] log[i].id),
        i64::MIN <= local_x - server_x <= i64::MAX,
        local_x == server_x || local_x - server_x >= crate::MOVE_EPSILON_MICROS as int || server_x
            - local_x >= crate::MOVE_EPSILON_MICROS as int,
        dt >= 0,
        !is_cheating(local_x - server_x, dt),
        acked2.contains(m),
    ensures
        ({
            let log1 = retain_unacked(log, acked1);  // in flight after the first snapshot
            let reconciled1 = sat_i64(server_x + sum_unacked(log1));
            let disc1 = sat_i64(local_x - reconciled1);  // the correction the client sends
            let server_x2 = sat_i64(server_x + applied_delta(disc1, dt));  // the server applies it
            let log2 = log_insert(log1, m, disc1 as i64);
            let log3 = retain_unacked(log2, acked2);  // in flight after the second snapshot
            let reconciled2 = sat_i64(server_x2 + sum_unacked(log3));
            let disc2 = sat_i64(local_x - reconciled2);
            &&& disc1 == local_x - server_x
            &&& server_x2 == local_x
            &&& log3 =~= Seq::<UnackedMove>::empty()
            &&& disc2 == 0
            &&& sat_i64(reconciled2 + disc2) == local_x
        }),
{
    let log1 = retain_unacked(log, acked1);
    lemma_retain_all_acked(log, acked1);
    assert(sum_unacked(log1) == 0);
    let reconciled1 = sat_i64(server_x + sum_unacked(log1));
    assert(reconciled1 == server_x as int);
    let disc1 = sat_i64(local_x - reconciled1);
    assert(disc1 == local_x - server_x);
    let server_x2 = sat_i64(server_x + applied_delta(disc1, dt));
    assert(applied_delta(disc1, dt) == disc1);
    assert(server_x2 == local_x as int);
    let log2 = log_insert(log1, m, disc1 as i64);
    assert(!crate::client::log_has(log1, m));
    assert(log2 =~= log1.push(UnackedMove { id: m, delta_x: disc1 as i64 }));
    assert(log2.len() == 1);
    assert forall|i: int| 0 <= i < log2.len() implies acked2.contains(#[trigger] log2[i].id) by {
        assert(log2[0].id == m);
    }
    lemma_retain_all_acked(log2, acked2);
    let log3 = retain_unacked(log2, acked2);
    assert(sum_unacked(log3) == 0);
}

} // verus!
