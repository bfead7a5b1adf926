use netcode::client::Game;
use netcode::event::{Action, JoinResponse, PlayerAction};
use netcode::session::{handle_action, SessionReply};
use netcode::state::State;

fn snapshot_of(state: &mut State, now_ms: i64) -> State {
    let bytes = state.tick_at(now_ms);
    netcode::codec::parse_snapshot(&bytes).expect("server snapshots parse")
}

#[test]
fn new_game_defaults() {
    let g = Game::new();
    assert!(g.player_idx.is_none());
    assert!(g.prediction && g.reconciliation && g.interpolation);
    assert!(g.unacknowledged.is_empty());
    assert_eq!(g.ping_cache, 0);
    assert!(g.local_state.players.is_empty());
}

#[test]
fn join_update_mirrors_player() {
    let mut g = Game::new();
    g.join_update(JoinResponse::new(2));
    assert_eq!(g.player_idx, Some(2));
    assert_eq!(g.local_state.players.len(), 1);
    assert_eq!(g.local_state.players[0].id, 2);
    assert_eq!(g.target_state.players.len(), 1);
    assert!(g.display_state.players.is_empty());
}

#[test]
fn move_player_is_optimistic() {
    let mut g = Game::new();
    g.join_update(JoinResponse::new(0));
    g.move_player(250_000);
    assert_eq!(g.local_state.players[0].x, 250_000);
    // the display has no own entry until the first snapshot arrives
    assert!(g.display_state.players.is_empty());
}

#[test]
fn mode_switch_coupling() {
    let mut g = Game::new();
    // disabling prediction also disables reconciliation
    g.toggle_prediction();
    assert!(!g.prediction && !g.reconciliation);
    // enabling reconciliation implicitly enables prediction
    g.toggle_reconciliation();
    assert!(g.prediction && g.reconciliation);
    // interpolation is independent
    g.toggle_interpolation();
    assert!(!g.interpolation && g.prediction && g.reconciliation);
}

#[test]
fn snapshot_before_join_is_mirrored() {
    let mut g = Game::new();
    let mut server = State::default();
    server.player_join();
    let snap = snapshot_of(&mut server, 333);
    let send = g.apply_snapshot(snap, 100, 400);
    assert!(send.is_none());
    assert_eq!(g.ping_cache, 100);
    assert_eq!(g.local_state.players.len(), 1);
    assert_eq!(g.display_state.players.len(), 1);
    assert_eq!(g.target_state.timestamp, 333);
}

#[test]
fn jump_is_predicted_and_scheduled() {
    let mut g = Game::new();
    g.join_update(JoinResponse::new(0));
    g.ping_cache = 200;
    let send = g.jump(5_000).expect("a jump is scheduled");
    assert_eq!(send.delay_ms, 100);
    assert!(matches!(
        send.action,
        Action::Player { id: 0, action: PlayerAction::Jump { at: 5_000 } }
    ));
    assert_eq!(g.local_state.players[0].last_jump_at, Some(5_000));
}

#[test]
fn interpolation_of_remote_player() {
    // two snapshots at t_prev = 0 and t_target = 333 ms; a remote player
    // moves from x = 0 to x = 1 unit; rendering at 500 ms with zero ping
    // places it at u = (500 - 333) / 333 of the way past the previous one.
    let mut g = Game::new();
    let mut server = State::default();
    server.player_join();
    let s1 = snapshot_of(&mut server, 0);
    let _ = g.apply_snapshot(s1, 0, 0);
    let _ = server.player_move_at(0, 1_000_000, 1, 500);
    let s2 = snapshot_of(&mut server, 333);
    let _ = g.apply_snapshot(s2, 0, 333);
    g.interpolate_frame(500);
    assert_eq!(g.display_state.players.len(), 1);
    // 167 / 333 of the way from 0 to 1_000_000, rounded down
    assert_eq!(g.display_state.players[0].x, 501_501);
    assert_eq!(g.local_state.players[0].x, 501_501);
}

#[test]
fn interpolation_skips_degenerate_window() {
    let mut g = Game::new();
    g.interpolate_frame(500);
    assert!(g.display_state.players.is_empty());
}

#[test]
fn reconciliation_quiescence_after_round_trip() {
    // A joined client with prediction and reconciliation on, a local
    // discrepancy from earlier input, and no further input: after one
    // broadcast round trip the displayed own position equals the server's
    // and nothing is left unacknowledged.
    let mut server = State::default();
    let mut remembered: usize = 0;
    let reply = handle_action(&mut server, &mut remembered, Action::Join, 0);
    let join = match reply {
        Some(SessionReply::Joined(j)) => j,
        _ => panic!("expected a join reply"),
    };
    let mut g = Game::new();
    g.join_update(join);

    // local input before the first broadcast: 0.3 units
    g.move_player(300_000);

    // first broadcast: the client sends the accumulated discrepancy
    let s1 = snapshot_of(&mut server, 1_000);
    let send = g.apply_snapshot(s1, 200, 1_050).expect("a move is scheduled");
    let (player_id, delta_x, move_id) = match send.action {
        Action::Player { id, action: PlayerAction::Move { delta_x, id: mid } } => {
            (id, delta_x, mid)
        },
        _ => panic!("expected a move"),
    };
    assert_eq!(player_id, 0);
    assert_eq!(delta_x, 300_000);
    assert_eq!(send.delay_ms, 100);
    assert_eq!(g.unacknowledged.len(), 1);

    // the server processes the move well under the cap (0.3 units in 300 ms)
    let r = handle_action(
        &mut server,
        &mut remembered,
        Action::Player { id: player_id, action: PlayerAction::Move { delta_x, id: move_id } },
        1_300,
    );
    assert!(r.is_none());
    assert_eq!(server.players[0].x, 300_000);

    // second broadcast: everything is acknowledged and display == server
    let s2 = snapshot_of(&mut server, 1_333);
    let send2 = g.apply_snapshot(s2, 200, 1_400);
    assert!(send2.is_none());
    assert!(g.unacknowledged.is_empty());
    assert_eq!(g.local_state.players[0].x, 300_000);
    assert_eq!(g.display_state.players[0].x, server.players[0].x);
}

#[test]
fn snapshot_preserves_local_jump_time() {
    let mut server = State::default();
    server.player_join();
    let mut g = Game::new();
    g.join_update(JoinResponse::new(0));
    let _ = g.jump(2_000);
    let snap = snapshot_of(&mut server, 2_050);
    let _ = g.apply_snapshot(snap, 0, 2_100);
    // the locally predicted jump time survives the server reset
    assert_eq!(g.local_state.players[0].last_jump_at, Some(2_000));
}

#[test]
fn small_discrepancy_sends_no_move() {
    let mut server = State::default();
    server.player_join();
    let mut g = Game::new();
    g.join_update(JoinResponse::new(0));
    g.move_player(9_999);
    let snap = snapshot_of(&mut server, 100);
    let send = g.apply_snapshot(snap, 0, 150);
    assert!(send.is_none());
    assert!(g.unacknowledged.is_empty());
    // the tiny discrepancy is kept locally, not sent
    assert_eq!(g.local_state.players[0].x, 9_999);
}

#[test]
fn own_player_is_not_interpolated() {
    let mut server = State::default();
    server.player_join();
    server.player_join();
    let mut g = Game::new();
    g.join_update(JoinResponse::new(0));
    g.move_player(500_000);
    let s1 = snapshot_of(&mut server, 0);
    let _ = g.apply_snapshot(s1, 0, 40);
    let _ = server.player_move_at(1, 700_000, 11, 300);
    let s2 = snapshot_of(&mut server, 333);
    let _ = g.apply_snapshot(s2, 0, 350);
    g.interpolate_frame(500);
    // the own player keeps the reconciled position, the remote one is lerped
    let own = g.display_state.players.iter().find(|p| p.id == 0).unwrap();
    assert_eq!(own.x, 500_000);
    let remote = g.display_state.players.iter().find(|p| p.id == 1).unwrap();
    assert_eq!(remote.x, netcode::math::lerp(0, 700_000, 500 - 333, 333));
}
