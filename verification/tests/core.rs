use netcode::event::{Action, PlayerAction};
use netcode::math::{jump_y_at, lerp};
use netcode::session::{handle_action, handle_disconnect, handle_payload, SessionReply};
use netcode::state::{Player, State, StateError};

#[test]
fn test_lerp() {
    assert_eq!(lerp(0, 1_000_000, 1, 2), 500_000);
    assert_eq!(lerp(0, 10_000_000, 1, 4), 2_500_000);
}

#[test]
fn lerp_endpoints() {
    assert_eq!(lerp(-3_000_000, 7_000_000, 0, 333), -3_000_000);
    assert_eq!(lerp(-3_000_000, 7_000_000, 333, 333), 7_000_000);
    // unclamped: extrapolates past the target
    assert_eq!(lerp(0, 1_000_000, 3, 2), 1_500_000);
}

#[test]
fn jump_curve_values() {
    assert_eq!(jump_y_at(-1), 0);
    assert_eq!(jump_y_at(0), 0);
    assert_eq!(jump_y_at(165), 249_975);
    assert_eq!(jump_y_at(330), 9_900);
    assert_eq!(jump_y_at(331), 0);
}

#[test]
fn player_y_follows_jump() {
    let p = Player::new(4);
    assert_eq!(p.y(123_456), 0);
    let jumped = Player { id: 4, x: 0, last_jump_at: Some(1_000) };
    assert_eq!(jumped.y(1_165), 249_975);
    assert_eq!(jumped.y(2_000), 0);
    assert_eq!(jumped.y(500), 0);
}

#[test]
fn single_player_join() {
    let mut state = State::default();
    let mut remembered: usize = 0;
    let reply = handle_action(&mut state, &mut remembered, Action::player_join(), 0);
    match reply {
        Some(SessionReply::Joined(j)) => assert_eq!(j.player_id, 0),
        _ => panic!("expected a join reply"),
    }
    assert_eq!(remembered, 0);
    let bytes = state.tick_at(777);
    let snap = netcode::codec::parse_snapshot(&bytes).expect("snapshot parses");
    assert_eq!(snap.players.len(), 1);
    assert_eq!(snap.players[0].id, 0);
    assert_eq!(snap.players[0].x, 0);
    assert_eq!(snap.players[0].last_jump_at, None);
    assert_eq!(snap.timestamp, 777);
    assert!(snap.acknowledged.is_empty());
    assert!(state.acknowledged.is_empty());
}

#[test]
fn move_over_cap_is_clamped() {
    let mut state = State::default();
    state.player_join();
    let _ = state.tick_at(1_000);
    // 0.5 units 100 ms after the tick: 5 units/s > 2.5 units/s
    let ack: u128 = 42;
    let r = state.player_move_at(0, 500_000, ack, 1_100);
    assert_eq!(
        r,
        Err(StateError::Cheating { units: 500_000, timeframe_ms: 100 })
    );
    assert_eq!(state.players[0].x, 250_000);
    // the acknowledgement is still recorded and broadcast
    let bytes = state.tick_at(1_333);
    let snap = netcode::codec::parse_snapshot(&bytes).expect("snapshot parses");
    assert_eq!(snap.acknowledged, vec![42]);
    assert_eq!(snap.players[0].x, 250_000);
}

#[test]
fn move_within_cap_is_applied() {
    let mut state = State::default();
    state.player_join();
    let _ = state.tick_at(1_000);
    // 0.5 units 500 ms after the tick: 1 unit/s <= 2.5 units/s
    let r = state.player_move_at(0, 500_000, 77, 1_500);
    assert_eq!(r, Ok(()));
    assert_eq!(state.players[0].x, 500_000);
    let bytes = state.tick_at(1_666);
    let snap = netcode::codec::parse_snapshot(&bytes).expect("snapshot parses");
    assert_eq!(snap.acknowledged, vec![77]);
}

#[test]
fn disconnect_cleanup_and_ids_never_reused() {
    let mut state = State::default();
    for _ in 0..4 {
        state.player_join();
    }
    let r = handle_disconnect(&mut state, 3);
    assert!(r.is_none());
    let bytes = state.tick_at(10);
    let snap = netcode::codec::parse_snapshot(&bytes).expect("snapshot parses");
    assert!(snap.players.iter().all(|p| p.id != 3));
    let next = state.player_join();
    assert_eq!(next, 4);
}

#[test]
fn disconnect_of_unknown_player_is_reported() {
    let mut state = State::default();
    let r = handle_disconnect(&mut state, 9);
    match r {
        Some(SessionReply::Rejected(StateError::UnknownPlayer(9))) => {},
        _ => panic!("expected an unknown-player error"),
    }
}

#[test]
fn jump_of_unknown_player_is_reported() {
    let mut state = State::default();
    let mut remembered: usize = 0;
    let r = handle_action(
        &mut state,
        &mut remembered,
        Action::player_jump(5, 1_000),
        1_000,
    );
    match r {
        Some(SessionReply::Rejected(StateError::UnknownPlayer(5))) => {},
        _ => panic!("expected an unknown-player error"),
    }
}

#[test]
fn jump_sets_jump_time() {
    let mut state = State::default();
    state.player_join();
    assert_eq!(state.player_jump(0, 2_500), Ok(()));
    assert_eq!(state.players[0].last_jump_at, Some(2_500));
}

#[test]
fn broadcast_without_moves_has_empty_acknowledged() {
    let mut state = State::default();
    state.player_join();
    let _ = state.tick_at(100);
    // a jump and a leave between broadcasts record no acknowledgement
    let _ = state.player_jump(0, 150);
    state.player_join();
    let bytes = state.tick_at(433);
    let snap = netcode::codec::parse_snapshot(&bytes).expect("snapshot parses");
    assert!(snap.acknowledged.is_empty());
}

#[test]
fn move_acknowledged_in_exactly_one_broadcast() {
    let mut state = State::default();
    state.player_join();
    let _ = state.tick_at(0);
    let _ = state.player_move_at(0, 100_000, 555, 100);
    let first = state.tick_at(333);
    let second = state.tick_at(666);
    let s1 = netcode::codec::parse_snapshot(&first).expect("snapshot parses");
    let s2 = netcode::codec::parse_snapshot(&second).expect("snapshot parses");
    assert_eq!(s1.acknowledged, vec![555]);
    assert!(s2.acknowledged.is_empty());
}

#[test]
fn duplicate_acknowledgement_recorded_once() {
    let mut state = State::default();
    state.player_join();
    let _ = state.tick_at(0);
    let _ = state.player_move_at(0, 1_000, 9, 1_000);
    let _ = state.player_move_at(0, 1_000, 9, 1_000);
    assert_eq!(state.acknowledged, vec![9]);
}

#[test]
fn malformed_payload_is_reported_and_ignored() {
    let mut state = State::default();
    state.player_join();
    let mut remembered: usize = 0;
    let payload: Vec<u8> = b"{\"Join\"".to_vec();
    let r = handle_payload(&mut state, &mut remembered, &payload, 0);
    assert!(matches!(r, Some(SessionReply::Malformed)));
    assert_eq!(state.players.len(), 1);
}

#[test]
fn payload_join_parses_and_applies() {
    let mut state = State::default();
    let mut remembered: usize = 7;
    let payload = netcode::codec::encode_action(&Action::Join);
    let r = handle_payload(&mut state, &mut remembered, &payload, 0);
    match r {
        Some(SessionReply::Joined(j)) => assert_eq!(j.player_id, 0),
        _ => panic!("expected a join reply"),
    }
    assert_eq!(remembered, 0);
}

#[test]
fn action_constructors() {
    assert!(matches!(Action::player_join(), Action::Join));
    let jump = Action::player_jump(3, 999);
    assert!(matches!(
        jump,
        Action::Player { id: 3, action: PlayerAction::Jump { at: 999 } }
    ));
    assert!(jump.ack_id().is_none());
    let mv = Action::player_move(2, -40_000);
    match mv {
        Action::Player { id, action: PlayerAction::Move { delta_x, id: move_id } } => {
            assert_eq!(id, 2);
            assert_eq!(delta_x, -40_000);
            let (ack, _) = mv.ack_id().expect("moves carry an ack id");
            assert_eq!(ack, move_id);
        },
        _ => panic!("expected a move action"),
    }
}

#[test]
fn fresh_move_ids_differ() {
    let a = Action::player_move(0, 1);
    let b = Action::player_move(0, 1);
    let ida = a.ack_id().unwrap().0;
    let idb = b.ack_id().unwrap().0;
    assert_ne!(ida, idb);
}

#[test]
fn clock_driven_tick_and_move() {
    let mut state = State::default();
    state.player_join();
    let bytes = state.tick();
    let snap = netcode::codec::parse_snapshot(&bytes).expect("snapshot parses");
    assert_eq!(snap.players.len(), 1);
    assert!(state.acknowledged.is_empty());
    // whatever the clock says, the acknowledgement is recorded and the
    // motion is capped at 2.5 units/s over the elapsed time
    let r = state.player_move(0, 500_000, 77);
    assert_eq!(state.acknowledged, vec![77]);
    match r {
        Ok(()) => assert_eq!(state.players[0].x, 500_000),
        Err(StateError::Cheating { units, .. }) => {
            assert_eq!(units, 500_000);
            assert!(state.players[0].x < 500_000);
        },
        Err(e) => panic!("unexpected error {:?}", e),
    }
}

#[test]
fn move_by_unknown_player_records_nothing() {
    let mut state = State::default();
    state.player_join();
    let _ = state.tick_at(0);
    // an erroring action does not apply: no motion, no acknowledgement
    let r = state.player_move_at(9, 500_000, 13, 100);
    assert_eq!(r, Err(StateError::UnknownPlayer(9)));
    assert!(state.acknowledged.is_empty());
    assert_eq!(state.players[0].x, 0);
    let bytes = state.tick_at(333);
    let snap = netcode::codec::parse_snapshot(&bytes).expect("snapshot parses");
    assert!(snap.acknowledged.is_empty());
}
