use bombahead_rs::{Action, Bomb, CellType, Field, GameHelpers, GameState, Position};

fn pos(x: i32, y: i32) -> Position {
    Position { x, y }
}

fn state_from(rows: &[&str], bombs: Vec<Bomb>, explosions: Vec<Position>) -> GameState {
    let mut cells = Vec::new();
    for r in rows {
        for c in r.chars() {
            cells.push(match c {
                '#' => CellType::Wall,
                'B' => CellType::Box,
                _ => CellType::Air,
            });
        }
    }
    GameState {
        current_tick: 0,
        me: None,
        opponents: vec![],
        players: vec![],
        field: Field { width: rows[0].len() as i32, height: rows.len() as i32, cells },
        bombs,
        explosions,
    }
}

fn step(p: Position, a: Action) -> Position {
    match a {
        Action::MoveUp => pos(p.x, p.y - 1),
        Action::MoveDown => pos(p.x, p.y + 1),
        Action::MoveLeft => pos(p.x - 1, p.y),
        Action::MoveRight => pos(p.x + 1, p.y),
        _ => p,
    }
}

#[test]
fn following_next_actions_reaches_target_by_a_shortest_walk() {
    let rows = ["......", ".####.", "...#..", "#.....", "...##."];
    let s = state_from(&rows, vec![], vec![]);
    let h = GameHelpers::new(&s);
    let target = pos(4, 2);
    let mut cur = pos(0, 0);
    let mut steps = 0;
    while cur != target {
        let a = h.get_next_action_towards(&cur, &target);
        assert_ne!(a, Action::DoNothing);
        cur = step(cur, a);
        assert!(h.is_walkable(&cur));
        steps += 1;
        assert!(steps <= 30);
    }
    // shortest walk: down to (0,2), right along row 2/3 to (4,3), up to (4,2)
    assert_eq!(steps, 8);
}

#[test]
fn nearest_safe_square_is_closest_by_walking() {
    let s = state_from(&["....", "....", "...."], vec![Bomb { pos: pos(1, 1), fuse: 1 }], vec![]);
    let h = GameHelpers::new(&s);
    let safe = h.get_nearest_safe_position(&pos(1, 0));
    assert!(h.is_walkable(&safe) && h.is_safe(&safe));
    assert_eq!(pos(1, 0).distance_to(&safe), 1);
    // right is tried before left
    assert_eq!(safe, pos(2, 0));
    // a safe square is its own nearest safe square
    assert_eq!(h.get_nearest_safe_position(&safe), safe);
}

#[test]
fn nearest_box_is_reached_before_farther_ones() {
    let s = state_from(&["B...B", "....."], vec![], vec![]);
    let h = GameHelpers::new(&s);
    assert_eq!(h.find_nearest_box(&pos(3, 1)), Some(pos(4, 0)));
    assert_eq!(h.find_nearest_box(&pos(1, 1)), Some(pos(0, 0)));
}

#[test]
fn chain_reaction_spreads_danger() {
    // bomb 0 is under an explosion; its blast reaches bomb 1, whose blast reaches (1,4)
    let s = state_from(
        &[".....", ".....", ".....", ".....", "....."],
        vec![Bomb { pos: pos(1, 0), fuse: 9 }, Bomb { pos: pos(1, 2), fuse: 9 }],
        vec![pos(1, 0)],
    );
    let h = GameHelpers::new(&s);
    assert!(!h.is_safe(&pos(1, 4)));
    assert!(!h.is_safe(&pos(3, 2)));
    assert!(h.is_safe(&pos(4, 2)));
    assert!(h.is_safe(&pos(4, 4)));
}

#[test]
fn wire_names_read_back() {
    for c in [CellType::Air, CellType::Wall, CellType::Box] {
        assert_eq!(CellType::from_wire_text(c.wire_name()), c);
    }
    for a in [
        Action::MoveUp,
        Action::MoveDown,
        Action::MoveLeft,
        Action::MoveRight,
        Action::PlaceBomb,
        Action::DoNothing,
    ] {
        assert_eq!(Action::from_wire_text(a.wire_name()), Some(a));
    }
    assert_eq!(Action::from_wire_text("jump"), None);
}

#[test]
fn more_bombs_never_make_a_square_safer() {
    let rows = [".....", "....."];
    let s = state_from(&rows, vec![Bomb { pos: pos(0, 0), fuse: 1 }], vec![]);
    let t = state_from(
        &rows,
        vec![Bomb { pos: pos(4, 1), fuse: 7 }, Bomb { pos: pos(0, 0), fuse: 1 }, Bomb { pos: pos(0, 0), fuse: 8 }],
        vec![pos(4, 0)],
    );
    let hs = GameHelpers::new(&s);
    let ht = GameHelpers::new(&t);
    for y in -1..3 {
        for x in -1..6 {
            let p = pos(x, y);
            if !hs.is_safe(&p) {
                assert!(!ht.is_safe(&p));
            }
        }
    }
    assert!(hs.is_safe(&pos(4, 0)));
    assert!(!ht.is_safe(&pos(4, 0)));
}

#[test]
fn equal_states_render_the_same() {
    let s = state_from(&["B.", ".#"], vec![Bomb { pos: pos(1, 0), fuse: 2 }], vec![pos(0, 1)]);
    let t = s.clone();
    assert_eq!(s, t);
    assert_eq!(bombahead_rs::render_field(Some(&s)), bombahead_rs::render_field(Some(&t)));
}
