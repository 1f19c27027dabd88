use bombahead_rs::{render_field, Bomb, CellType, Field, GameState, Player, Position};

fn pos(x: i32, y: i32) -> Position {
    Position { x, y }
}

fn player(id: &str, x: i32, y: i32, health: i32, score: i32) -> Player {
    Player { id: id.to_string(), pos: pos(x, y), health, score }
}

const LEGEND: &str = "Legend: [space] AIR  🧱 WALL  📦 BOX  💣 BOMB  💥 EXPLOSION  🤖 ME\n";

#[test]
fn render_without_state() {
    assert_eq!(render_field(None), "<nil game state>\n");
}

#[test]
fn render_empty_field() {
    let s = GameState {
        current_tick: 0,
        me: None,
        opponents: vec![],
        players: vec![],
        field: Field { width: 0, height: 3, cells: vec![] },
        bombs: vec![],
        explosions: vec![],
    };
    assert_eq!(render_field(Some(&s)), "<empty field>\n");
}

#[test]
fn render_small_board() {
    let me = player("me-1234", 0, 0, 3, 0);
    let s = GameState {
        current_tick: 0,
        me: Some(me.clone()),
        opponents: vec![player("opp", 2, 1, 2, 5)],
        players: vec![],
        field: Field {
            width: 3,
            height: 2,
            cells: vec![CellType::Air, CellType::Wall, CellType::Box, CellType::Air, CellType::Air, CellType::Air],
        },
        bombs: vec![Bomb { pos: pos(1, 1), fuse: 3 }],
        explosions: vec![pos(0, 1)],
    };
    let expected = String::new()
        + "╔══════╗\n"
        + "║🤖🧱📦║\n"
        + "║💥💣👾║\n"
        + "╚══════╝\n"
        + "--- PLAYERS ---\n"
        + "🤖 Player ...1234 | Health: 3, Score: 0 | Pos: (0,0)\n"
        + "👾 Player opp | Health: 2, Score: 5 | Pos: (2,1)\n"
        + "--- BOMBS ---\n"
        + "💣 at (1,1) | Fuse: 3\n"
        + LEGEND;
    assert_eq!(render_field(Some(&s)), expected);
}

#[test]
fn render_sorts_players_and_bombs_and_numbers_icons() {
    let s = GameState {
        current_tick: 0,
        me: Some(player("m", 0, 0, 1, 1)),
        opponents: vec![player("zed", 1, 0, -4, 10), player("abe", 1, 0, 2, 0), player("", 5, 5, 0, 0)],
        players: vec![
            player("zed", 1, 0, -4, 10),
            player("m", 0, 0, 1, 1),
            player("abe", 1, 0, 2, 0),
            player("", 5, 5, 0, 0),
        ],
        field: Field { width: 2, height: 1, cells: vec![CellType::Air, CellType::Air] },
        bombs: vec![
            Bomb { pos: pos(1, 0), fuse: 2 },
            Bomb { pos: pos(0, 0), fuse: 9 },
            Bomb { pos: pos(1, 0), fuse: -1 },
        ],
        explosions: vec![],
    };
    // opponent ids sorted: "", "abe", "zed" take icons 0, 1, 2; "m" then gets icon 3;
    // on (1,0) the later opponent, "abe", is drawn
    let expected = String::new()
        + "╔════╗\n"
        + "║🤖🏃║\n"
        + "╚════╝\n"
        + "--- PLAYERS ---\n"
        + "👾 Player <unknown> | Health: 0, Score: 0 | Pos: (5,5)\n"
        + "🏃 Player abe | Health: 2, Score: 0 | Pos: (1,0)\n"
        + "🤖 Player m | Health: 1, Score: 1 | Pos: (0,0)\n"
        + "🚶 Player zed | Health: -4, Score: 10 | Pos: (1,0)\n"
        + "--- BOMBS ---\n"
        + "💣 at (0,0) | Fuse: 9\n"
        + "💣 at (1,0) | Fuse: -1\n"
        + "💣 at (1,0) | Fuse: 2\n"
        + LEGEND;
    assert_eq!(render_field(Some(&s)), expected);
}

#[test]
fn render_board_without_players_or_bombs() {
    let s = GameState {
        current_tick: 0,
        me: None,
        opponents: vec![],
        players: vec![],
        field: Field { width: 1, height: 1, cells: vec![] },
        bombs: vec![],
        explosions: vec![pos(3, 3)],
    };
    let expected = String::new() + "╔══╗\n" + "║🧱║\n" + "╚══╝\n" + LEGEND;
    assert_eq!(render_field(Some(&s)), expected);
}

#[test]
fn render_shortens_long_ids_by_characters() {
    let s = GameState {
        current_tick: 0,
        me: None,
        opponents: vec![],
        players: vec![player("αβγδε", 0, 0, 1, 2), player("abcd", 0, 0, 1, 2)],
        field: Field { width: 1, height: 1, cells: vec![CellType::Box] },
        bombs: vec![],
        explosions: vec![pos(-1, 0)],
    };
    // no opponents: the players take icons 0 and 1 in id order
    let expected = String::new()
        + "╔══╗\n"
        + "║📦║\n"
        + "╚══╝\n"
        + "--- PLAYERS ---\n"
        + "👾 Player abcd | Health: 1, Score: 2 | Pos: (0,0)\n"
        + "🏃 Player ...βγδε | Health: 1, Score: 2 | Pos: (0,0)\n"
        + LEGEND;
    assert_eq!(render_field(Some(&s)), expected);
}
