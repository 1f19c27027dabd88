use vstd::prelude::*;

use crate::board::bomb_at;
use crate::enums::CellType;
use crate::models::{Bomb, GameState, Position};

verus! {

/// How far a blast reaches in each direction.
pub const DEFAULT_BOMB_RANGE: i32 = 2;

/// Horizontal unit step of direction `dir` (up, right, down, left).
pub open spec fn dir_dx(dir: int) -> int {
    if dir == 1 { 1 } else if dir == 3 { -1 } else { 0 }
}

/// Vertical unit step of direction `dir` (up, right, down, left).
pub open spec fn dir_dy(dir: int) -> int {
    if dir == 0 { -1 } else if dir == 2 { 1 } else { 0 }
}

/// The square `step` squares away from `origin` in direction `dir`.
pub open spec fn offset(origin: Position, dir: int, step: int) -> Position {
    Position {
        x: (origin.x + dir_dx(dir) * step) as i32,
        y: (origin.y + dir_dy(dir) * step) as i32,
    }
}

/// The squares a blast from `origin` covers in direction `dir`, from `step`
/// squares out to the bomb range: it stops before a wall or the edge of the
/// board, and stops on (and includes) a box.
pub open spec fn ray(state: GameState, origin: Position, dir: int, step: int) -> Seq<Position>
    decreases DEFAULT_BOMB_RANGE + 1 - step,
{
    if step > DEFAULT_BOMB_RANGE || step < 1 {
        seq![]
    } else {
        let p = offset(origin, dir, step);
        if !state.field.in_bounds(p) || state.field.cell(p) == CellType::Wall {
            seq![]
        } else if state.field.cell(p) == CellType::Box {
            seq![p]
        } else {
            seq![p] + ray(state, origin, dir, step + 1)
        }
    }
}

/// The squares a bomb at `origin` covers when it explodes: its own square, then
/// the rays up, right, down and left.
pub open spec fn blast(state: GameState, origin: Position) -> Seq<Position> {
    seq![origin] + ray(state, origin, 0, 1) + ray(state, origin, 1, 1) + ray(state, origin, 2, 1)
        + ray(state, origin, 3, 1)
}

/// `(dx, dy)` is one square up, right, down or left.
pub open spec fn unit_dir(dx: int, dy: int) -> bool {
    ||| dx == 0 && (dy == 1 || dy == -1)
    ||| dy == 0 && (dx == 1 || dx == -1)
}

/// Every square up to two steps from `pos` along a row or a column has
/// coordinates inside `i32`.
pub open spec fn clear_of_i32_edges(pos: Position) -> bool {
    &&& i32::MIN + 2 <= pos.x <= i32::MAX - 2
    &&& i32::MIN + 2 <= pos.y <= i32::MAX - 2
}

/// What a ray holds: the first square out when it is on the board and not a
/// wall, and the second one when, besides, the first is air and the second is
/// on the board and not a wall.
proof fn lemma_ray_contains(state: GameState, o: Position, d: int, c: Position)
    ensures
        ray(state, o, d, 1).contains(c) <==> {
            let p1 = offset(o, d, 1);
            let p2 = offset(o, d, 2);
            let open1 = state.field.in_bounds(p1) && state.field.cell(p1) != CellType::Wall;
            ||| c == p1 && open1
            ||| c == p2 && open1 && state.field.cell(p1) == CellType::Air && state.field.in_bounds(p2)
                && state.field.cell(p2) != CellType::Wall
        },
{
    let p1 = offset(o, d, 1);
    let p2 = offset(o, d, 2);
    let r1 = ray(state, o, d, 1);
    let r2 = ray(state, o, d, 2);
    assert(ray(state, o, d, 3) =~= Seq::<Position>::empty());
    if !state.field.in_bounds(p2) || state.field.cell(p2) == CellType::Wall {
        assert(r2 =~= Seq::<Position>::empty());
    } else {
        assert(r2 =~= seq![p2]);
    }
    if !state.field.in_bounds(p1) || state.field.cell(p1) == CellType::Wall {
        assert(r1 =~= Seq::<Position>::empty());
    } else if state.field.cell(p1) == CellType::Box {
        assert(r1 =~= seq![p1]);
        assert(r1[0] == p1);
    } else {
        assert(r1 =~= seq![p1] + r2);
        assert(r1[0] == p1);
        if r2.len() == 1 {
            assert(r1[1] == p2);
            assert(r1 =~= seq![p1, p2]);
        } else {
            assert(r1 =~= seq![p1]);
        }
    }
}

/// A blast holds its bomb's square and the squares of its four rays.
proof fn lemma_blast_contains(state: GameState, o: Position, c: Position)
    ensures
        blast(state, o).contains(c) <==> c == o || ray(state, o, 0, 1).contains(c) || ray(
            state,
            o,
            1,
            1,
        ).contains(c) || ray(state, o, 2, 1).contains(c) || ray(state, o, 3, 1).contains(c),
{
    let s0 = seq![o];
    let r0 = ray(state, o, 0, 1);
    let r1 = ray(state, o, 1, 1);
    let r2 = ray(state, o, 2, 1);
    let r3 = ray(state, o, 3, 1);
    vstd::seq_lib::lemma_seq_concat_contains_all_elements(s0, r0, c);
    vstd::seq_lib::lemma_seq_concat_contains_all_elements(s0 + r0, r1, c);
    vstd::seq_lib::lemma_seq_concat_contains_all_elements(s0 + r0 + r1, r2, c);
    vstd::seq_lib::lemma_seq_concat_contains_all_elements(s0 + r0 + r1 + r2, r3, c);
    assert(s0[0] == o);
}

/// The direction (up, right, down, left) of the unit step `(dx, dy)`.
pub open spec fn dir_of(dx: int, dy: int) -> int {
    if dy == -1 { 0 } else if dx == 1 { 1 } else if dy == 1 { 2 } else { 3 }
}

/// A blast stops at walls and at the first box: going out from the bomb along
/// a row or a column, it covers the first square when that square is on the
/// board and not a wall, and the second square only when the first one is air
/// and the second one is on the board and not a wall (a box is hit and stops
/// the blast).
pub proof fn law_blast_stops_at_walls_and_boxes(state: GameState, o: Position, dx: int, dy: int)
    requires
        clear_of_i32_edges(o),
        unit_dir(dx, dy),
    ensures
        ({
            let p1 = Position { x: (o.x + dx) as i32, y: (o.y + dy) as i32 };
            let p2 = Position { x: (o.x + 2 * dx) as i32, y: (o.y + 2 * dy) as i32 };
            let open1 = state.field.in_bounds(p1) && state.field.cell(p1) != CellType::Wall;
            &&& blast(state, o).contains(p1) <==> open1
            &&& blast(state, o).contains(p2) <==> open1 && state.field.cell(p1) == CellType::Air
                && state.field.in_bounds(p2) && state.field.cell(p2) != CellType::Wall
        }),
{
    let p1 = Position { x: (o.x + dx) as i32, y: (o.y + dy) as i32 };
    let p2 = Position { x: (o.x + 2 * dx) as i32, y: (o.y + 2 * dy) as i32 };
    let d = dir_of(dx, dy);
    assert(offset(o, d, 1) == p1);
    assert(offset(o, d, 2) == p2);
    lemma_blast_contains(state, o, p1);
    lemma_blast_contains(state, o, p2);
    lemma_ray_contains(state, o, 0, p1);
    lemma_ray_contains(state, o, 1, p1);
    lemma_ray_contains(state, o, 2, p1);
    lemma_ray_contains(state, o, 3, p1);
    lemma_ray_contains(state, o, 0, p2);
    lemma_ray_contains(state, o, 1, p2);
    lemma_ray_contains(state, o, 2, p2);
    lemma_ray_contains(state, o, 3, p2);
}

/// A blast covers nothing off its rays: every square it covers besides the
/// bomb's own is on the board, is not a wall, and lies one or two squares from
/// the bomb along a row or a column, with air on the square between.
pub proof fn law_blast_covers_only_its_rays(state: GameState, o: Position, c: Position)
    requires
        clear_of_i32_edges(o),
        blast(state, o).contains(c),
        c != o,
    ensures
        state.field.in_bounds(c),
        state.field.cell(c) != CellType::Wall,
        exists|dx: int, dy: int|
            #[trigger] unit_dir(dx, dy) && ((c.x == o.x + dx && c.y == o.y + dy) || (c.x == o.x + 2 * dx
                && c.y == o.y + 2 * dy && state.field.in_bounds(
                Position { x: (o.x + dx) as i32, y: (o.y + dy) as i32 },
            ) && state.field.cell(Position { x: (o.x + dx) as i32, y: (o.y + dy) as i32 })
                == CellType::Air)),
{
    lemma_blast_contains(state, o, c);
    let d: int = if ray(state, o, 0, 1).contains(c) {
        0
    } else if ray(state, o, 1, 1).contains(c) {
        1
    } else if ray(state, o, 2, 1).contains(c) {
        2
    } else {
        3
    };
    lemma_ray_contains(state, o, d, c);
    let dx = dir_dx(d);
    let dy = dir_dy(d);
    assert(unit_dir(dx, dy));
    assert(offset(o, d, 1) == Position { x: (o.x + dx) as i32, y: (o.y + dy) as i32 });
}

/// The index of the last bomb lying on `pos` among `bombs`, or -1 when none does.
pub open spec fn last_bomb_index(bombs: Seq<Bomb>, pos: Position) -> int
    decreases bombs.len(),
{
    if bombs.len() == 0 {
        -1
    } else if bombs.last().pos == pos {
        bombs.len() - 1
    } else {
        last_bomb_index(bombs.drop_last(), pos)
    }
}

/// A set of bomb indices that holds every bomb that goes off on its own (fuse at
/// most 1), the bomb under every explosion, and the bomb under every square
/// covered by the blast of a bomb in the set.
pub open spec fn closed_under_chain(state: GameState, s: Set<int>) -> bool {
    &&& forall|i: int|
        0 <= i < state.bombs@.len() && state.bombs@[i].fuse <= 1 ==> #[trigger] s.contains(i)
    &&& forall|j: int|
        0 <= j < state.explosions@.len() && last_bomb_index(
            state.bombs@,
            #[trigger] state.explosions@[j],
        ) >= 0 ==> s.contains(last_bomb_index(state.bombs@, state.explosions@[j]))
    &&& forall|i: int, c: Position|
        #![trigger s.contains(i), blast(state, state.bombs@[i].pos).contains(c)]
        0 <= i < state.bombs@.len() && s.contains(i) && blast(state, state.bombs@[i].pos).contains(c)
            && last_bomb_index(state.bombs@, c) >= 0 ==> s.contains(last_bomb_index(state.bombs@, c))
}

/// Bomb `i` goes off this tick, directly or by chain reaction: it belongs to every
/// set closed under the chain.
pub open spec fn triggered(state: GameState, i: int) -> bool {
    &&& 0 <= i < state.bombs@.len()
    &&& forall|s: Set<int>| #[trigger] closed_under_chain(state, s) ==> s.contains(i)
}

/// `pos` is covered by a current explosion or by the blast of a bomb that goes
/// off this tick.
pub open spec fn in_danger(state: GameState, pos: Position) -> bool {
    ||| state.explosions@.contains(pos)
    ||| exists|i: int| #[trigger] triggered(state, i) && blast(state, state.bombs@[i].pos).contains(pos)
}

/// `pos` is on the board, free of bombs, and out of every blast of this tick.
pub open spec fn safe(state: GameState, pos: Position) -> bool {
    &&& state.field.in_bounds(pos)
    &&& !bomb_at(state, pos)
    &&& !in_danger(state, pos)
}

/// `last_bomb_index` is the greatest index of a bomb on `pos`, or -1 when there
/// is none.
pub(crate) proof fn lemma_last_bomb_index(bombs: Seq<Bomb>, pos: Position)
    ensures
        -1 <= last_bomb_index(bombs, pos) < bombs.len(),
        last_bomb_index(bombs, pos) >= 0 ==> bombs[last_bomb_index(bombs, pos)].pos == pos,
        forall|j: int|
            last_bomb_index(bombs, pos) < j < bombs.len() ==> #[trigger] bombs[j].pos != pos,
    decreases bombs.len(),
{
    if bombs.len() > 0 && bombs.last().pos != pos {
        lemma_last_bomb_index(bombs.drop_last(), pos);
        assert forall|j: int| last_bomb_index(bombs, pos) < j < bombs.len() implies #[trigger] bombs[j].pos
            != pos by {
            if j < bombs.len() - 1 {
                assert(bombs[j] == bombs.drop_last()[j]);
            }
        }
    }
}

/// `last_bomb_index` never exceeds the last bomb index.
pub(crate) proof fn lemma_last_bomb_index_bounded(bombs: Seq<Bomb>)
    ensures
        forall|pos: Position| -1 <= #[trigger] last_bomb_index(bombs, pos) < bombs.len(),
{
    assert forall|pos: Position| -1 <= #[trigger] last_bomb_index(bombs, pos) < bombs.len() by {
        lemma_last_bomb_index(bombs, pos);
    }
}

/// The bombs that go off this tick form a set closed under the chain.
proof fn lemma_triggered_closed(state: GameState)
    ensures
        closed_under_chain(state, Set::new(|i: int| triggered(state, i))),
{
    let t = Set::new(|i: int| triggered(state, i));
    assert forall|i: int, c: Position|
        #![trigger t.contains(i), blast(state, state.bombs@[i].pos).contains(c)]
        0 <= i < state.bombs@.len() && t.contains(i) && blast(state, state.bombs@[i].pos).contains(c)
            && last_bomb_index(state.bombs@, c) >= 0 implies t.contains(last_bomb_index(state.bombs@, c)) by {
        lemma_last_bomb_index(state.bombs@, c);
        assert forall|s: Set<int>| #[trigger] closed_under_chain(state, s) implies s.contains(
            last_bomb_index(state.bombs@, c),
        ) by {
            assert(s.contains(i));
        }
    }
    assert forall|j: int|
        0 <= j < state.explosions@.len() && last_bomb_index(state.bombs@, #[trigger] state.explosions@[j])
            >= 0 implies t.contains(last_bomb_index(state.bombs@, state.explosions@[j])) by {
        lemma_last_bomb_index(state.bombs@, state.explosions@[j]);
    }
}

/// Danger spreads by chain reaction: when a square is in danger and a bomb
/// lies on it, the whole blast of the (last) bomb lying there is in danger too.
/// Bombs about to go off, and bombs under an explosion, make their blast
/// dangerous.
pub proof fn law_danger_spreads_through_bombs(state: GameState, pos: Position, c: Position)
    requires
        in_danger(state, pos) || exists|i: int|
            0 <= i < state.bombs@.len() && state.bombs@[i].pos == pos && state.bombs@[i].fuse <= 1,
        last_bomb_index(state.bombs@, pos) >= 0,
        blast(state, state.bombs@[last_bomb_index(state.bombs@, pos)].pos).contains(c),
    ensures
        in_danger(state, c),
{
    lemma_triggered_closed(state);
    lemma_last_bomb_index(state.bombs@, pos);
    let k = last_bomb_index(state.bombs@, pos);
    let t = Set::new(|i: int| triggered(state, i));
    assert(triggered(state, k)) by {
        assert forall|s: Set<int>| #[trigger] closed_under_chain(state, s) implies s.contains(k) by {
            if state.explosions@.contains(pos) {
                let j = choose|j: int| 0 <= j < state.explosions@.len() && state.explosions@[j] == pos;
                assert(last_bomb_index(state.bombs@, state.explosions@[j]) >= 0);
            } else if exists|i: int| #[trigger] triggered(state, i) && blast(state, state.bombs@[i].pos).contains(pos) {
                let i = choose|i: int| #[trigger] triggered(state, i) && blast(state, state.bombs@[i].pos).contains(pos);
                assert(s.contains(i));
            } else {
                let i = choose|i: int|
                    0 <= i < state.bombs@.len() && state.bombs@[i].pos == pos && state.bombs@[i].fuse <= 1;
                assert(s.contains(i));
                assert(blast(state, state.bombs@[i].pos)[0] == pos);
                assert(blast(state, state.bombs@[i].pos).contains(pos));
            }
        }
    }
}

/// Blasts depend on the board alone.
proof fn lemma_ray_same_field(s: GameState, t: GameState, origin: Position, dir: int, step: int)
    requires
        s.field == t.field,
    ensures
        ray(s, origin, dir, step) == ray(t, origin, dir, step),
    decreases DEFAULT_BOMB_RANGE + 1 - step,
{
    if 1 <= step <= DEFAULT_BOMB_RANGE {
        lemma_ray_same_field(s, t, origin, dir, step + 1);
    }
}

proof fn lemma_blast_same_field(s: GameState, t: GameState, origin: Position)
    requires
        s.field == t.field,
    ensures
        blast(s, origin) == blast(t, origin),
{
    lemma_ray_same_field(s, t, origin, 0, 1);
    lemma_ray_same_field(s, t, origin, 1, 1);
    lemma_ray_same_field(s, t, origin, 2, 1);
    lemma_ray_same_field(s, t, origin, 3, 1);
}

/// Some bomb lies on `pos` exactly when `last_bomb_index` finds one.
proof fn lemma_bomb_found(bombs: Seq<Bomb>, i: int)
    requires
        0 <= i < bombs.len(),
    ensures
        last_bomb_index(bombs, bombs[i].pos) >= 0,
{
    lemma_last_bomb_index(bombs, bombs[i].pos);
}

/// Every bomb that goes off in `s` has a bomb on its square that goes off in
/// `t`, when `t` has the board of `s`, all its bombs and all its explosions.
proof fn lemma_triggered_grows(s: GameState, t: GameState, i: int)
    requires
        s.field == t.field,
        forall|k: int| 0 <= k < s.bombs@.len() ==> t.bombs@.contains(#[trigger] s.bombs@[k]),
        forall|k: int| 0 <= k < s.explosions@.len() ==> t.explosions@.contains(#[trigger] s.explosions@[k]),
        triggered(s, i),
    ensures
        exists|j: int| #[trigger] triggered(t, j) && t.bombs@[j].pos == s.bombs@[i].pos,
{
    lemma_triggered_closed(t);
    let tt = Set::new(|j: int| triggered(t, j));
    let cover = Set::new(
        |k: int|
            0 <= k < s.bombs@.len() && exists|j: int| #[trigger] triggered(t, j) && t.bombs@[j].pos == s.bombs@[k].pos,
    );
    assert(closed_under_chain(s, cover)) by {
        assert forall|k: int|
            0 <= k < s.bombs@.len() && s.bombs@[k].fuse <= 1 implies #[trigger] cover.contains(k) by {
            assert(t.bombs@.contains(s.bombs@[k]));
            let j = choose|j: int| 0 <= j < t.bombs@.len() && t.bombs@[j] == s.bombs@[k];
            assert(tt.contains(j));
            assert(triggered(t, j));
        }
        assert forall|x: int|
            0 <= x < s.explosions@.len() && last_bomb_index(s.bombs@, #[trigger] s.explosions@[x]) >= 0
                implies cover.contains(last_bomb_index(s.bombs@, s.explosions@[x])) by {
            let e = s.explosions@[x];
            let k = last_bomb_index(s.bombs@, e);
            lemma_last_bomb_index(s.bombs@, e);
            assert(t.bombs@.contains(s.bombs@[k]));
            let j0 = choose|j: int| 0 <= j < t.bombs@.len() && t.bombs@[j] == s.bombs@[k];
            lemma_bomb_found(t.bombs@, j0);
            assert(t.explosions@.contains(e));
            let y = choose|y: int| 0 <= y < t.explosions@.len() && t.explosions@[y] == e;
            assert(last_bomb_index(t.bombs@, t.explosions@[y]) >= 0);
            let j = last_bomb_index(t.bombs@, e);
            lemma_last_bomb_index(t.bombs@, e);
            assert(tt.contains(j));
            assert(triggered(t, j));
        }
        assert forall|a: int, c: Position|
            #![trigger cover.contains(a), blast(s, s.bombs@[a].pos).contains(c)]
            0 <= a < s.bombs@.len() && cover.contains(a) && blast(s, s.bombs@[a].pos).contains(c)
                && last_bomb_index(s.bombs@, c) >= 0 implies cover.contains(last_bomb_index(s.bombs@, c)) by {
            let ja = choose|j: int| #[trigger] triggered(t, j) && t.bombs@[j].pos == s.bombs@[a].pos;
            lemma_blast_same_field(s, t, s.bombs@[a].pos);
            let k = last_bomb_index(s.bombs@, c);
            lemma_last_bomb_index(s.bombs@, c);
            assert(t.bombs@.contains(s.bombs@[k]));
            let j0 = choose|j: int| 0 <= j < t.bombs@.len() && t.bombs@[j] == s.bombs@[k];
            lemma_bomb_found(t.bombs@, j0);
            assert(tt.contains(ja));
            assert(blast(t, t.bombs@[ja].pos).contains(c));
            let j = last_bomb_index(t.bombs@, c);
            lemma_last_bomb_index(t.bombs@, c);
            assert(tt.contains(j));
            assert(triggered(t, j));
        }
    }
    assert(cover.contains(i));
}

/// Adding bombs or explosions never makes a square safer: with the same board,
/// every bomb and every explosion of `s` also in `t`, a square that is not
/// safe in `s` is not safe in `t`.
pub proof fn law_more_bombs_never_safer(s: GameState, t: GameState, pos: Position)
    requires
        s.field == t.field,
        forall|k: int| 0 <= k < s.bombs@.len() ==> t.bombs@.contains(#[trigger] s.bombs@[k]),
        forall|k: int| 0 <= k < s.explosions@.len() ==> t.explosions@.contains(#[trigger] s.explosions@[k]),
        !safe(s, pos),
    ensures
        !safe(t, pos),
{
    if bomb_at(s, pos) {
        let i = choose|i: int| 0 <= i < s.bombs@.len() && #[trigger] s.bombs@[i].pos == pos;
        assert(t.bombs@.contains(s.bombs@[i]));
        let j = choose|j: int| 0 <= j < t.bombs@.len() && t.bombs@[j] == s.bombs@[i];
        assert(t.bombs@[j].pos == pos);
    } else if in_danger(s, pos) {
        if s.explosions@.contains(pos) {
            let k = choose|k: int| 0 <= k < s.explosions@.len() && s.explosions@[k] == pos;
            assert(t.explosions@.contains(s.explosions@[k]));
        } else {
            let i = choose|i: int| #[trigger] triggered(s, i) && blast(s, s.bombs@[i].pos).contains(pos);
            lemma_triggered_grows(s, t, i);
            let j = choose|j: int| #[trigger] triggered(t, j) && t.bombs@[j].pos == s.bombs@[i].pos;
            lemma_blast_same_field(s, t, s.bombs@[i].pos);
            assert(blast(t, t.bombs@[j].pos).contains(pos));
        }
    }
}

/// Only bombs whose fuse is down to one tick go off on their own: when every
/// bomb has a longer fuse and no explosion lies on a bomb, the squares in
/// danger are exactly the explosions.
pub proof fn law_only_short_fuses_go_off(state: GameState, pos: Position)
    requires
        forall|i: int| 0 <= i < state.bombs@.len() ==> #[trigger] state.bombs@[i].fuse > 1,
        forall|j: int|
            0 <= j < state.explosions@.len() ==> !bomb_at(state, #[trigger] state.explosions@[j]),
    ensures
        in_danger(state, pos) <==> state.explosions@.contains(pos),
{
    let none = Set::<int>::empty();
    assert(closed_under_chain(state, none)) by {
        assert forall|j: int|
            0 <= j < state.explosions@.len() && last_bomb_index(
                state.bombs@,
                #[trigger] state.explosions@[j],
            ) >= 0 implies none.contains(last_bomb_index(state.bombs@, state.explosions@[j])) by {
            let e = state.explosions@[j];
            lemma_last_bomb_index(state.bombs@, e);
            let k = last_bomb_index(state.bombs@, e);
            assert(state.bombs@[k].pos == e);
            assert(bomb_at(state, e));
        }
    }
    if exists|i: int| #[trigger] triggered(state, i) && blast(state, state.bombs@[i].pos).contains(pos) {
        let i = choose|i: int| #[trigger] triggered(state, i) && blast(state, state.bombs@[i].pos).contains(pos);
        assert(none.contains(i));
    }
}

} // verus!
