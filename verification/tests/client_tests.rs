use bombahead_rs::client::{
    action_message, bearer, build_game_state, choose_token, choose_ws_url, message_kind, on_event,
    ready_message, ClassicState, Event, MessageKind, Session, Step,
};
use bombahead_rs::{Action, Bomb, CellType, Player, Position};

fn player(id: &str, x: i32) -> Player {
    Player { id: id.to_string(), pos: Position { x, y: 0 }, health: 3, score: 0 }
}

#[test]
fn message_types_are_recognised() {
    assert_eq!(message_kind("welcome"), MessageKind::Welcome);
    assert_eq!(message_kind("back_to_lobby"), MessageKind::BackToLobby);
    assert_eq!(message_kind("update_lobby"), MessageKind::UpdateLobby);
    assert_eq!(message_kind("error"), MessageKind::ServerError);
    assert_eq!(message_kind("classic_state"), MessageKind::ClassicState);
    assert_eq!(message_kind("game_start"), MessageKind::GameStart);
    assert_eq!(message_kind("classic_input"), MessageKind::Other);
    assert_eq!(message_kind("Welcome"), MessageKind::Other);
}

#[test]
fn settings_fall_back_in_order() {
    assert_eq!(choose_ws_url(None), "ws://localhost:8038/ws");
    assert_eq!(choose_ws_url(Some("wss://x/ws".to_string())), "wss://x/ws");
    assert_eq!(choose_token(None, None), "dev-token-local");
    assert_eq!(choose_token(None, Some("b".to_string())), "b");
    assert_eq!(choose_token(Some("a".to_string()), Some("b".to_string())), "a");
    assert_eq!(bearer("tok"), "Bearer tok");
}

#[test]
fn outgoing_messages_are_json() {
    assert_eq!(
        ready_message(Some("t0k")),
        "{\"type\":\"player_status_update\",\"payload\":{\"isReady\":true,\"authToken\":\"t0k\"}}"
    );
    assert_eq!(ready_message(None), "{\"type\":\"player_status_update\",\"payload\":{\"isReady\":true}}");
    assert_eq!(
        ready_message(Some("a\"b\\c\nd\u{1}é")),
        "{\"type\":\"player_status_update\",\"payload\":{\"isReady\":true,\"authToken\":\"a\\\"b\\\\c\\nd\\u0001é\"}}"
    );
    assert_eq!(action_message(Action::MoveUp), "{\"type\":\"classic_input\",\"payload\":{\"move\":\"move_up\"}}");
    assert_eq!(action_message(Action::DoNothing), "{\"type\":\"classic_input\",\"payload\":{\"move\":\"nothing\"}}");
    assert_eq!(action_message(Action::PlaceBomb), "{\"type\":\"classic_input\",\"payload\":{\"move\":\"place_bomb\"}}");
}

#[test]
fn wire_names_of_cells_and_actions() {
    assert_eq!(CellType::Wall.wire_name(), "WALL");
    assert_eq!(CellType::from_wire_text("BOX"), CellType::Box);
    assert_eq!(CellType::from_wire_text("WALL"), CellType::Wall);
    assert_eq!(CellType::from_wire_text("wall"), CellType::Air);
    assert_eq!(CellType::from_wire_number(Some(0)), Some(CellType::Wall));
    assert_eq!(CellType::from_wire_number(Some(2)), Some(CellType::Box));
    assert_eq!(CellType::from_wire_number(Some(1)), Some(CellType::Air));
    assert_eq!(CellType::from_wire_number(None), None);
    assert_eq!(Action::MoveLeft.wire_name(), "move_left");
}

fn payload(players: Vec<Player>) -> ClassicState {
    ClassicState {
        players,
        width: 2,
        height: 2,
        cells: vec![CellType::Wall],
        bombs: vec![Bomb { pos: Position { x: 1, y: 1 }, fuse: 2 }],
        explosions: vec![],
    }
}

#[test]
fn game_state_splits_me_from_opponents() {
    let g = build_game_state(payload(vec![player("a", 0), player("me", 1), player("b", 2)]), "me");
    assert_eq!(g.me.as_ref().unwrap().pos.x, 1);
    assert_eq!(g.opponents.iter().map(|p| p.id.clone()).collect::<Vec<_>>(), vec!["a", "b"]);
    assert_eq!(g.players.len(), 3);
    assert_eq!(g.field.cells, vec![CellType::Wall, CellType::Air, CellType::Air, CellType::Air]);
    assert_eq!(g.bombs.len(), 1);
    assert_eq!(g.current_tick, 0);
}

#[test]
fn game_state_falls_back_to_first_player() {
    let g = build_game_state(payload(vec![player("a", 0), player("b", 2)]), "me");
    assert_eq!(g.me.as_ref().unwrap().id, "a");
    assert_eq!(g.opponents.len(), 1);
    assert_eq!(g.opponents[0].id, "b");
    let g = build_game_state(payload(vec![]), "me");
    assert!(g.me.is_none());
    assert!(g.opponents.is_empty());
}

#[test]
fn game_state_cuts_long_boards() {
    let mut p = payload(vec![]);
    p.width = 1;
    p.height = 1;
    p.cells = vec![CellType::Box, CellType::Wall];
    let g = build_game_state(p, "");
    assert_eq!(g.field.cells, vec![CellType::Box]);
}

fn printed(step: Step) -> String {
    match step {
        Step::Print(s) => s,
        _ => panic!("expected a line to print"),
    }
}

#[test]
fn session_reacts_to_messages() {
    let mut s = Session::new();
    assert!(matches!(on_event(&mut s, Event::Welcome(None)), Step::Idle));
    assert_eq!(s.my_id, "");
    assert_eq!(printed(on_event(&mut s, Event::Welcome(Some("me".to_string())))), "Connected as me");
    assert_eq!(s.my_id, "me");
    assert!(matches!(on_event(&mut s, Event::UpdateLobby), Step::Idle));
    assert_eq!(printed(on_event(&mut s, Event::GameStart)), "Game started");
    assert_eq!(
        printed(on_event(&mut s, Event::ServerError { message: Some("full".to_string()), raw_payload: String::new() })),
        "Server error: full"
    );
    assert_eq!(
        printed(on_event(&mut s, Event::ServerError { message: None, raw_payload: "42".to_string() })),
        "Server error (unparsed payload): 42"
    );
    assert_eq!(printed(on_event(&mut s, Event::Unknown("ping".to_string()))), "Ignoring message type \"ping\"");
    assert_eq!(
        printed(on_event(&mut s, Event::ClassicState(Err("bad".to_string())))),
        "Failed to parse classic state: bad"
    );
    match on_event(&mut s, Event::BackToLobby) {
        Step::Send { text, on_failure } => {
            assert_eq!(text, "{\"type\":\"player_status_update\",\"payload\":{\"isReady\":true}}");
            assert_eq!(on_failure, "Failed to re-ready in lobby");
        }
        _ => panic!("expected a message to send"),
    }
    match on_event(&mut s, Event::ClassicState(Ok(payload(vec![player("a", 0), player("me", 1)])))) {
        Step::Play(g) => {
            assert_eq!(g.me.unwrap().id, "me");
            assert_eq!(g.opponents.len(), 1);
        }
        _ => panic!("expected a turn"),
    }
    assert_eq!(s.my_id, "me");
}

#[test]
fn session_reacts_to_transport_events() {
    let mut s = Session::new();
    assert!(matches!(on_event(&mut s, Event::NonText), Step::Idle));
    assert_eq!(
        printed(on_event(&mut s, Event::BadEnvelope("expected value".to_string()))),
        "Invalid message envelope: expected value"
    );
    match on_event(&mut s, Event::ReadFailed("closed".to_string())) {
        Step::Stop(line) => assert_eq!(line, "Error reading message: closed"),
        _ => panic!("expected the client to stop"),
    }
    assert_eq!(s.my_id, "");
}
