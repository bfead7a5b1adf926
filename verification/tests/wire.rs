use netcode::codec::{
    encode_action, encode_join_response, parse_action, parse_join_response, parse_snapshot,
};
use netcode::event::{Action, JoinResponse, PlayerAction};
use netcode::state::State;

#[test]
fn snapshot_encoding_is_readable_json() {
    let mut state = State::default();
    state.player_join();
    let _ = state.player_move_at(0, 250_000, 3, 100);
    let bytes = state.tick_at(333);
    let text = String::from_utf8(bytes).expect("ascii");
    assert_eq!(
        text,
        "{\"players\":[{\"id\":0,\"x\":250000,\"last_jump_at\":null}],\"timestamp\":333,\"acknowledged\":[3]}"
    );
}

#[test]
fn snapshot_round_trip() {
    let mut state = State::default();
    for _ in 0..3 {
        state.player_join();
    }
    let _ = state.player_jump(1, -5);
    let _ = state.player_move_at(2, 123_456, 99, 100);
    let _ = state.player_move_at(2, -1, 100, 100);
    let bytes = state.tick_at(424_242);
    let snap = parse_snapshot(&bytes).expect("round trip");
    assert_eq!(snap.timestamp, 424_242);
    assert_eq!(snap.acknowledged, vec![99, 100]);
    assert_eq!(snap.players.len(), 3);
    assert_eq!(snap.players[1].last_jump_at, Some(-5));
    assert_eq!(snap.players[2].x, 123_455);
}

#[test]
fn snapshot_fields_in_any_order() {
    let text = "{\"acknowledged\":[7],\"timestamp\":-4,\"players\":[{\"x\":-250000,\"last_jump_at\":12,\"id\":5}]}";
    let snap = parse_snapshot(&text.as_bytes().to_vec()).expect("tolerant parse");
    assert_eq!(snap.timestamp, -4);
    assert_eq!(snap.acknowledged, vec![7]);
    assert_eq!(snap.players[0].id, 5);
    assert_eq!(snap.players[0].x, -250_000);
    assert_eq!(snap.players[0].last_jump_at, Some(12));
}

#[test]
fn unknown_fields_are_ignored() {
    let text = "{\"version\":\"1.0\",\"players\":[{\"id\":0,\"color\":[1,2,3],\"x\":1,\"last_jump_at\":null}],\"timestamp\":0,\"acknowledged\":[],\"extra\":{\"a\":true}}";
    let snap = parse_snapshot(&text.as_bytes().to_vec()).expect("tolerant parse");
    assert_eq!(snap.players.len(), 1);
    assert_eq!(snap.players[0].x, 1);
}

#[test]
fn missing_required_field_fails() {
    let text = "{\"players\":[],\"acknowledged\":[]}";
    assert!(parse_snapshot(&text.as_bytes().to_vec()).is_none());
    let no_x = "{\"players\":[{\"id\":0,\"last_jump_at\":null}],\"timestamp\":0,\"acknowledged\":[]}";
    assert!(parse_snapshot(&no_x.as_bytes().to_vec()).is_none());
}

#[test]
fn malformed_snapshots_fail() {
    for text in [
        "",
        "{",
        "[]",
        "{\"players\":[],\"timestamp\":0,\"acknowledged\":[]}tail",
        "{\"players\":[],\"timestamp\":0.5,\"acknowledged\":[]}",
        "{\"players\":[{\"id\":0,\"x\":0,\"last_jump_at\":null},],\"timestamp\":0,\"acknowledged\":[]}",
    ] {
        assert!(parse_snapshot(&text.as_bytes().to_vec()).is_none(), "{}", text);
    }
}

#[test]
fn unsorted_roster_fails() {
    let text = "{\"players\":[{\"id\":1,\"x\":0,\"last_jump_at\":null},{\"id\":0,\"x\":0,\"last_jump_at\":null}],\"timestamp\":0,\"acknowledged\":[]}";
    assert!(parse_snapshot(&text.as_bytes().to_vec()).is_none());
}

#[test]
fn action_round_trips() {
    let join = encode_action(&Action::Join);
    assert_eq!(String::from_utf8(join.clone()).unwrap(), "{\"Join\":null}");
    assert!(matches!(parse_action(&join), Some(Action::Join)));

    let jump = encode_action(&Action::player_jump(4, -100));
    assert_eq!(
        String::from_utf8(jump.clone()).unwrap(),
        "{\"Player\":{\"id\":4,\"action\":{\"Jump\":{\"at\":-100}}}}"
    );
    assert!(matches!(
        parse_action(&jump),
        Some(Action::Player { id: 4, action: PlayerAction::Jump { at: -100 } })
    ));

    let mv = Action::Player {
        id: 1,
        action: PlayerAction::Move { delta_x: -42, id: 340_282_366_920_938_463_463_374_607_431_768_211_455 },
    };
    let bytes = encode_action(&mv);
    match parse_action(&bytes) {
        Some(Action::Player { id: 1, action: PlayerAction::Move { delta_x, id } }) => {
            assert_eq!(delta_x, -42);
            assert_eq!(id, u128::MAX);
        },
        _ => panic!("move should round trip"),
    }
}

#[test]
fn action_with_reordered_fields_parses() {
    let text = "{\"Player\":{\"action\":{\"Move\":{\"id\":9,\"delta_x\":5}},\"id\":2}}";
    match parse_action(&text.as_bytes().to_vec()) {
        Some(Action::Player { id: 2, action: PlayerAction::Move { delta_x: 5, id: 9 } }) => {},
        _ => panic!("tolerant action parse failed"),
    }
}

#[test]
fn malformed_actions_fail() {
    for text in [
        "",
        "{}",
        "{\"Join\":true}",
        "{\"Jump\":{\"at\":0}}",
        "{\"Player\":{\"id\":0}}",
        "{\"Player\":{\"id\":0,\"action\":{\"Move\":{\"delta_x\":1}}}}",
        "{\"Join\":null} ",
    ] {
        assert!(parse_action(&text.as_bytes().to_vec()).is_none(), "{}", text);
    }
}

#[test]
fn join_response_round_trip() {
    let bytes = encode_join_response(&JoinResponse::new(12));
    assert_eq!(String::from_utf8(bytes.clone()).unwrap(), "{\"player_id\":12}");
    let back = parse_join_response(&bytes).expect("round trip");
    assert_eq!(back.player_id, 12);
    assert!(parse_join_response(&"{\"player\":12}".as_bytes().to_vec()).is_none());
    let tolerant = parse_join_response(&"{\"note\":null,\"player_id\":3}".as_bytes().to_vec());
    assert_eq!(tolerant.expect("tolerant").player_id, 3);
}

#[test]
fn snapshot_of_empty_world() {
    let mut state = State::default();
    let bytes = state.tick_at(0);
    assert_eq!(
        String::from_utf8(bytes.clone()).unwrap(),
        "{\"players\":[],\"timestamp\":0,\"acknowledged\":[]}"
    );
    let snap = parse_snapshot(&bytes).expect("round trip");
    assert!(snap.players.is_empty());
}

#[test]
fn encode_player_extremes() {
    let mut state = State::default();
    state.player_join();
    // an absurd move saturates the position at the i64 floor
    let _ = state.player_move_at(0, i64::MIN, 1, i64::MAX);
    assert_eq!(state.players[0].x, i64::MIN);
    let bytes = state.tick_at(-1);
    let snap = parse_snapshot(&bytes).expect("round trip");
    assert_eq!(snap.players[0].x, i64::MIN);
    assert_eq!(snap.timestamp, -1);
}
