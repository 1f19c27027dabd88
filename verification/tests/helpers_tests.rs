use bombahead_rs::{Action, Bomb, CellType, Field, GameHelpers, GameState, Position};

fn pos(x: i32, y: i32) -> Position {
    Position { x, y }
}

/// Builds a state from rows of text: '.' air, '#' wall, 'B' box.
fn state_from(rows: &[&str], bombs: Vec<Bomb>, explosions: Vec<Position>) -> GameState {
    let height = rows.len() as i32;
    let width = rows[0].len() as i32;
    let mut cells = Vec::new();
    for r in rows {
        for c in r.chars() {
            cells.push(match c {
                '#' => CellType::Wall,
                'B' => CellType::Box,
                _ => CellType::Air,
            });
        }
    }
    GameState {
        current_tick: 0,
        me: None,
        opponents: vec![],
        players: vec![],
        field: Field { width, height, cells },
        bombs,
        explosions,
    }
}

#[test]
fn distance_is_manhattan() {
    assert_eq!(pos(1, 2).distance_to(&pos(4, -2)), 7);
    assert_eq!(pos(0, 0).distance_to(&pos(0, 0)), 0);
}

#[test]
fn cell_at_treats_outside_and_missing_cells_as_walls() {
    let field = Field { width: 2, height: 2, cells: vec![CellType::Air, CellType::Box, CellType::Air] };
    assert_eq!(field.cell_at(&pos(1, 0)), CellType::Box);
    assert_eq!(field.cell_at(&pos(0, 1)), CellType::Air);
    assert_eq!(field.cell_at(&pos(1, 1)), CellType::Wall);
    assert_eq!(field.cell_at(&pos(-1, 0)), CellType::Wall);
    assert_eq!(field.cell_at(&pos(2, 0)), CellType::Wall);
}

#[test]
fn walkable_excludes_walls_boxes_bombs_and_outside() {
    let s = state_from(&[".#B", "..."], vec![Bomb { pos: pos(2, 1), fuse: 3 }], vec![]);
    let h = GameHelpers::new(&s);
    assert!(h.is_walkable(&pos(0, 0)));
    assert!(!h.is_walkable(&pos(1, 0)));
    assert!(!h.is_walkable(&pos(2, 0)));
    assert!(!h.is_walkable(&pos(2, 1)));
    assert!(h.is_walkable(&pos(1, 1)));
    assert!(!h.is_walkable(&pos(3, 1)));
    assert!(!h.is_walkable(&pos(0, -1)));
}

#[test]
fn adjacent_positions_come_up_right_down_left() {
    let s = state_from(&["...", "...", "..."], vec![], vec![]);
    let h = GameHelpers::new(&s);
    assert_eq!(
        h.get_adjacent_walkable_positions(&pos(1, 1)),
        vec![pos(1, 0), pos(2, 1), pos(1, 2), pos(0, 1)]
    );
    assert_eq!(h.get_adjacent_walkable_positions(&pos(0, 0)), vec![pos(1, 0), pos(0, 1)]);
    let s = state_from(&[".#.", "...", "..."], vec![Bomb { pos: pos(0, 1), fuse: 4 }], vec![]);
    let h = GameHelpers::new(&s);
    assert_eq!(h.get_adjacent_walkable_positions(&pos(1, 1)), vec![pos(2, 1), pos(1, 2)]);
}

#[test]
fn next_action_follows_a_shortest_path() {
    let s = state_from(&["...", ".#.", "..."], vec![], vec![]);
    let h = GameHelpers::new(&s);
    assert_eq!(h.get_next_action_towards(&pos(0, 0), &pos(2, 0)), Action::MoveRight);
    assert_eq!(h.get_next_action_towards(&pos(0, 0), &pos(0, 2)), Action::MoveDown);
    // both ways round the wall are as short: up is tried before left
    assert_eq!(h.get_next_action_towards(&pos(2, 2), &pos(0, 0)), Action::MoveUp);
    assert_eq!(h.get_next_action_towards(&pos(2, 1), &pos(2, 0)), Action::MoveUp);
    assert_eq!(h.get_next_action_towards(&pos(1, 0), &pos(1, 2)), Action::MoveRight);
}

#[test]
fn next_action_does_nothing_when_stuck() {
    let s = state_from(&[".#.", "##.", "..."], vec![], vec![]);
    let h = GameHelpers::new(&s);
    assert_eq!(h.get_next_action_towards(&pos(0, 0), &pos(2, 2)), Action::DoNothing);
    assert_eq!(h.get_next_action_towards(&pos(0, 0), &pos(0, 0)), Action::DoNothing);
    // a target off the board cannot be reached
    assert_eq!(h.get_next_action_towards(&pos(2, 2), &pos(3, 2)), Action::DoNothing);
}

#[test]
fn next_action_needs_a_standable_start_and_a_box_or_walkable_target() {
    let s = state_from(&[".#B", "##.", "..."], vec![Bomb { pos: pos(2, 2), fuse: 4 }], vec![]);
    let h = GameHelpers::new(&s);
    // the start is a wall, a box, or off the board
    assert_eq!(h.get_next_action_towards(&pos(1, 0), &pos(2, 1)), Action::DoNothing);
    assert_eq!(h.get_next_action_towards(&pos(2, 0), &pos(2, 1)), Action::DoNothing);
    assert_eq!(h.get_next_action_towards(&pos(3, 1), &pos(2, 1)), Action::DoNothing);
    // the target is a wall
    assert_eq!(h.get_next_action_towards(&pos(2, 1), &pos(1, 1)), Action::DoNothing);
    // the target is a box: the path may end on it
    assert_eq!(h.get_next_action_towards(&pos(2, 1), &pos(2, 0)), Action::MoveUp);
    // the target has a bomb on it and is no box
    assert_eq!(h.get_next_action_towards(&pos(2, 1), &pos(2, 2)), Action::DoNothing);
    // the start has a bomb on it: the bot can still leave
    assert_eq!(h.get_next_action_towards(&pos(2, 2), &pos(0, 2)), Action::MoveLeft);
}

#[test]
fn next_action_towards_a_wall_does_nothing() {
    let s = state_from(&[".#"], vec![], vec![]);
    let h = GameHelpers::new(&s);
    assert_eq!(h.get_next_action_towards(&pos(0, 0), &pos(1, 0)), Action::DoNothing);
}

#[test]
fn bot_on_its_own_bomb_runs_to_safety() {
    let s = state_from(&["...."], vec![Bomb { pos: pos(0, 0), fuse: 1 }], vec![]);
    let h = GameHelpers::new(&s);
    let me = pos(0, 0);
    assert!(!h.is_safe(&me));
    let safe = h.get_nearest_safe_position(&me);
    assert_eq!(safe, pos(3, 0));
    assert_eq!(h.get_next_action_towards(&me, &safe), Action::MoveRight);
}

#[test]
fn bot_walks_towards_a_box() {
    let s = state_from(&["..B"], vec![], vec![]);
    let h = GameHelpers::new(&s);
    let me = pos(0, 0);
    let target = h.find_nearest_box(&me).unwrap();
    assert_eq!(target, pos(2, 0));
    assert_eq!(me.distance_to(&target), 2);
    assert_eq!(h.get_next_action_towards(&me, &target), Action::MoveRight);
    assert_eq!(h.get_next_action_towards(&pos(1, 0), &target), Action::MoveRight);
}

#[test]
fn explosions_and_chained_blasts_are_unsafe() {
    // bomb A goes off this tick, its blast reaches bomb B, whose blast reaches (4,0)
    let s = state_from(
        &["......", "......"],
        vec![Bomb { pos: pos(0, 0), fuse: 1 }, Bomb { pos: pos(2, 0), fuse: 5 }],
        vec![pos(5, 1)],
    );
    let h = GameHelpers::new(&s);
    assert!(!h.is_safe(&pos(0, 0)));
    assert!(!h.is_safe(&pos(1, 0)));
    assert!(!h.is_safe(&pos(3, 0)));
    assert!(!h.is_safe(&pos(4, 0)));
    assert!(h.is_safe(&pos(5, 0)));
    assert!(!h.is_safe(&pos(0, 1)));
    assert!(!h.is_safe(&pos(2, 1)));
    assert!(h.is_safe(&pos(1, 1)));
    assert!(!h.is_safe(&pos(5, 1)));
    assert!(!h.is_safe(&pos(6, 0)));
}

#[test]
fn blasts_stop_at_walls_and_boxes() {
    let s = state_from(&["..#..", ".....", "B....", "....."], vec![Bomb { pos: pos(0, 0), fuse: 0 }], vec![]);
    let h = GameHelpers::new(&s);
    // right: (1,0) covered, (2,0) is a wall
    assert!(!h.is_safe(&pos(1, 0)));
    assert!(h.is_safe(&pos(3, 0)));
    // down: (0,1), then the box at (0,2) stops the blast
    assert!(!h.is_safe(&pos(0, 1)));
    assert!(h.is_safe(&pos(0, 3)));
    assert!(h.is_safe(&pos(1, 1)));
}

#[test]
fn far_bombs_leave_squares_safe() {
    let s = state_from(&["......"], vec![Bomb { pos: pos(0, 0), fuse: 3 }], vec![]);
    let h = GameHelpers::new(&s);
    assert!(h.is_safe(&pos(1, 0)));
    assert!(!h.is_safe(&pos(0, 0)));
}

#[test]
fn nearest_safe_position_walks_out_of_the_blast() {
    let s = state_from(&[".....", ".###.", "....."], vec![Bomb { pos: pos(0, 0), fuse: 1 }], vec![]);
    let h = GameHelpers::new(&s);
    // standing on the bomb: (1,0) and (2,0), (0,1), (0,2) are in the blast
    assert_eq!(h.get_nearest_safe_position(&pos(0, 0)), pos(3, 0));
    assert_eq!(h.get_nearest_safe_position(&pos(4, 2)), pos(4, 2));
}

#[test]
fn nearest_safe_position_stays_when_nothing_is_safe() {
    let s = state_from(&["..", ".."], vec![], vec![pos(0, 0), pos(1, 0), pos(0, 1), pos(1, 1)]);
    let h = GameHelpers::new(&s);
    assert_eq!(h.get_nearest_safe_position(&pos(0, 0)), pos(0, 0));
}

#[test]
fn nearest_box_crosses_boxes_and_bombs_but_not_walls() {
    let s = state_from(&["..#B", "....", "B..."], vec![Bomb { pos: pos(1, 1), fuse: 5 }], vec![]);
    let h = GameHelpers::new(&s);
    assert_eq!(h.find_nearest_box(&pos(0, 0)), Some(pos(0, 2)));
    assert_eq!(h.find_nearest_box(&pos(3, 1)), Some(pos(3, 0)));
    assert_eq!(h.find_nearest_box(&pos(3, 0)), Some(pos(3, 0)));
    let s = state_from(&["..#.", "..#B"], vec![], vec![]);
    let h = GameHelpers::new(&s);
    assert_eq!(h.find_nearest_box(&pos(0, 0)), None);
}
