use vstd::prelude::*;

use crate::board::{bomb_at, bomb_on, coords_fit, neighbor, steppable, walkable, walkable_neighbors};
use crate::search::{
    Goal, Terrain, board_size, discover_upto, explore, first_goal, frontier_wf, goal_holds,
    lemma_discover_upto, lemma_explore_prefix, lemma_explore_wf, lemma_first_goal, lemma_frontier_len,
    lemma_in_bounds_steppable, lemma_tree_path, nearest_box, nearest_safe, next_action, passable,
    search_tree, step_action, tree_path,
};
use crate::danger::{
    DEFAULT_BOMB_RANGE, blast, closed_under_chain, dir_dx, dir_dy, in_danger, last_bomb_index,
    lemma_last_bomb_index, lemma_last_bomb_index_bounded, offset, ray, safe, triggered,
};
use crate::enums::{Action, CellType};
use crate::models::{Field, GameState, Position};
use std::collections::HashSet;

verus! {

/// Path finding and safety checks over one game state.
pub struct GameHelpers<'a> {
    pub state: &'a GameState,
}

/// The squares a breadth-first search discovered, in discovery order, with the
/// index of the square each was discovered from, and the index of the first
/// square that matched what the search looked for.
struct SearchResult {
    order: Vec<Position>,
    parent: Vec<usize>,
    found: Option<usize>,
}

/// `first_step` looks only at the parents of squares up to `k`.
proof fn lemma_first_step_prefix(parent: Seq<int>, n: int, k: int)
    requires
        0 <= k < n <= parent.len(),
    ensures
        crate::search::first_step(parent.take(n), k) == crate::search::first_step(parent, k),
    decreases k,
{
    if k > 0 && 0 <= parent[k] < k && parent[k] != 0 {
        lemma_first_step_prefix(parent, n, parent[k]);
    }
}

/// The key of a square of the board in a set of visited squares: its
/// row-major index.
spec fn cell_key(field: Field, pos: Position) -> u64 {
    field.index_of(pos) as u64
}

/// Distinct squares of the board have distinct keys.
proof fn lemma_cell_key_injective(field: Field, a: Position, b: Position)
    requires
        field.in_bounds(a),
        field.in_bounds(b),
        field.index_fits(),
        cell_key(field, a) == cell_key(field, b),
    ensures
        a == b,
{
    crate::models::lemma_index_in_range(field, a);
    crate::models::lemma_index_in_range(field, b);
    crate::models::lemma_index_injective(field, a, b);
}

/// `pos` occurs in `v`.
pub(crate) fn contains_position(v: &Vec<Position>, pos: &Position) -> (found: bool)
    ensures
        found == v@.contains(*pos),
{
    let mut i: usize = 0;
    while i < v.len()
        invariant
            i <= v.len(),
            forall|j: int| 0 <= j < i ==> v@[j] != *pos,
        decreases v.len() - i,
    {
        if v[i] == *pos {
            return true;
        }
        i = i + 1;
    }
    false
}

impl<'a> GameHelpers<'a> {
    pub fn new(state: &'a GameState) -> (h: Self)
        ensures
            h.state == state,
    {
        Self { state }
    }

    /// A player can stand on `pos`: on the board, neither wall nor box, no bomb.
    pub fn is_walkable(&self, pos: &Position) -> (w: bool)
        requires
            self.state.field.in_bounds(*pos) ==> self.state.field.index_of(*pos) <= i32::MAX,
        ensures
            w == walkable(*self.state, *pos),
    {
        if pos.x < 0 || pos.x >= self.state.field.width || pos.y < 0 || pos.y
            >= self.state.field.height {
            return false;
        }
        let cell = self.state.field.cell_at(pos);
        if cell == CellType::Wall || cell == CellType::Box {
            return false;
        }
        !bomb_on(self.state, pos)
    }

    /// The square one step from `pos` in direction `dir` (up, right, down, left).
    fn step_from(pos: &Position, dir: usize) -> (p: Position)
        requires
            steppable(*pos),
            dir < 4,
        ensures
            p == neighbor(*pos, dir as int),
    {
        if dir == 0 {
            Position { x: pos.x, y: pos.y - 1 }
        } else if dir == 1 {
            Position { x: pos.x + 1, y: pos.y }
        } else if dir == 2 {
            Position { x: pos.x, y: pos.y + 1 }
        } else {
            Position { x: pos.x - 1, y: pos.y }
        }
    }

    /// The walkable squares next to `pos`, in the order up, right, down, left.
    pub fn get_adjacent_walkable_positions(&self, pos: &Position) -> (v: Vec<Position>)
        requires
            steppable(*pos),
            self.state.field.index_fits(),
        ensures
            v@ == walkable_neighbors(*self.state, *pos),
    {
        let ghost cands = seq![neighbor(*pos, 0), neighbor(*pos, 1), neighbor(*pos, 2), neighbor(*pos, 3)];
        let ghost pred = |p: Position| walkable(*self.state, p);
        let mut v: Vec<Position> = Vec::new();
        let mut dir: usize = 0;
        while dir < 4
            invariant
                dir <= 4,
                steppable(*pos),
                self.state.field.index_fits(),
                cands == seq![neighbor(*pos, 0), neighbor(*pos, 1), neighbor(*pos, 2), neighbor(*pos, 3)],
                pred == (|p: Position| walkable(*self.state, p)),
                v@ == cands.take(dir as int).filter(pred),
            decreases 4 - dir,
        {
            let p = Self::step_from(pos, dir);
            proof {
                if self.state.field.in_bounds(p) {
                    crate::models::lemma_index_in_range(self.state.field, p);
                }
                assert(cands.take(dir + 1).drop_last() =~= cands.take(dir as int));
                reveal_with_fuel(Seq::filter, 1);
            }
            if self.is_walkable(&p) {
                v.push(p);
            }
            dir = dir + 1;
        }
        proof {
            assert(cands.take(4) =~= cands);
        }
        v
    }

    /// Appends to `cells` the squares a blast from `origin` covers in direction
    /// `dir`.
    fn push_ray(&self, cells: &mut Vec<Position>, origin: &Position, dir: usize)
        requires
            steppable(*origin),
            self.state.field.index_fits(),
            dir < 4,
        ensures
            final(cells)@ == old(cells)@ + ray(*self.state, *origin, dir as int, 1),
    {
        let dx: i32 = if dir == 1 { 1 } else if dir == 3 { -1 } else { 0 };
        let dy: i32 = if dir == 0 { -1 } else if dir == 2 { 1 } else { 0 };
        let ghost base = cells@;
        let mut step: i32 = 1;
        while step <= DEFAULT_BOMB_RANGE
            invariant_except_break
                1 <= step <= DEFAULT_BOMB_RANGE + 1,
                step >= 2 ==> self.state.field.in_bounds(offset(*origin, dir as int, step - 1)),
                ray(*self.state, *origin, dir as int, 1) == cells@.subrange(
                    base.len() as int,
                    cells@.len() as int,
                ) + ray(*self.state, *origin, dir as int, step as int),
            invariant
                steppable(*origin),
                self.state.field.index_fits(),
                dir < 4,
                dx == dir_dx(dir as int),
                dy == dir_dy(dir as int),
                base.len() <= cells@.len(),
                cells@.subrange(0, base.len() as int) == base,
            ensures
                cells@ == base + ray(*self.state, *origin, dir as int, 1),
            decreases DEFAULT_BOMB_RANGE + 1 - step,
        {
            let pos = Position { x: origin.x + dx * step, y: origin.y + dy * step };
            assert(pos == offset(*origin, dir as int, step as int));
            if pos.x < 0 || pos.x >= self.state.field.width || pos.y < 0 || pos.y
                >= self.state.field.height {
                assert(cells@ =~= base + cells@.subrange(base.len() as int, cells@.len() as int));
                break;
            }
            proof {
                crate::models::lemma_index_in_range(self.state.field, pos);
            }
            let cell = self.state.field.cell_at(&pos);
            if cell == CellType::Wall {
                assert(cells@ =~= base + cells@.subrange(base.len() as int, cells@.len() as int));
                break;
            }
            let ghost before = cells@;
            cells.push(pos);
            assert(cells@.subrange(base.len() as int, cells@.len() as int) =~= before.subrange(
                base.len() as int,
                before.len() as int,
            ).push(pos));
            assert(cells@.subrange(0, base.len() as int) =~= before.subrange(0, base.len() as int));
            if cell == CellType::Box {
                assert(cells@ =~= base + cells@.subrange(base.len() as int, cells@.len() as int));
                break;
            }
            step = step + 1;
            proof {
                assert(ray(*self.state, *origin, dir as int, 1) =~= cells@.subrange(
                    base.len() as int,
                    cells@.len() as int,
                ) + ray(*self.state, *origin, dir as int, step as int));
            }
        }
        proof {
            if step > DEFAULT_BOMB_RANGE {
                assert(cells@ =~= base + cells@.subrange(base.len() as int, cells@.len() as int));
            }
        }
    }

    /// The squares a bomb at `origin` covers when it explodes.
    fn blast_cells(&self, origin: &Position) -> (cells: Vec<Position>)
        requires
            steppable(*origin),
            self.state.field.index_fits(),
        ensures
            cells@ == blast(*self.state, *origin),
    {
        let mut cells: Vec<Position> = Vec::new();
        cells.push(*origin);
        let mut dir: usize = 0;
        while dir < 4
            invariant
                dir <= 4,
                steppable(*origin),
                self.state.field.index_fits(),
                cells@ == seq![*origin] + (if dir >= 1 { ray(*self.state, *origin, 0, 1) } else { seq![] })
                    + (if dir >= 2 { ray(*self.state, *origin, 1, 1) } else { seq![] })
                    + (if dir >= 3 { ray(*self.state, *origin, 2, 1) } else { seq![] })
                    + (if dir >= 4 { ray(*self.state, *origin, 3, 1) } else { seq![] }),
            decreases 4 - dir,
        {
            self.push_ray(&mut cells, origin, dir);
            dir = dir + 1;
            assert(cells@ =~= seq![*origin] + (if dir >= 1 { ray(*self.state, *origin, 0, 1) } else { seq![] })
                    + (if dir >= 2 { ray(*self.state, *origin, 1, 1) } else { seq![] })
                    + (if dir >= 3 { ray(*self.state, *origin, 2, 1) } else { seq![] })
                    + (if dir >= 4 { ray(*self.state, *origin, 3, 1) } else { seq![] }));
        }
        cells
    }

    /// The index of the last bomb lying on `pos`, if any.
    fn last_bomb_on(&self, pos: &Position) -> (k: Option<usize>)
        ensures
            match k {
                Some(k) => k == last_bomb_index(self.state.bombs@, *pos),
                None => last_bomb_index(self.state.bombs@, *pos) == -1,
            },
    {
        let bombs = &self.state.bombs;
        proof {
            lemma_last_bomb_index(bombs@, *pos);
        }
        let mut i: usize = bombs.len();
        while i > 0
            invariant
                i <= bombs.len(),
                bombs == self.state.bombs,
                forall|j: int| i <= j < bombs.len() ==> bombs@[j].pos != *pos,
                -1 <= last_bomb_index(bombs@, *pos) < bombs.len(),
                last_bomb_index(bombs@, *pos) >= 0 ==> bombs@[last_bomb_index(bombs@, *pos)].pos
                    == *pos,
                forall|j: int|
                    last_bomb_index(bombs@, *pos) < j < bombs.len() ==> #[trigger] bombs@[j].pos
                        != *pos,
            decreases i,
        {
            if bombs[i - 1].pos == *pos {
                return Some(i - 1);
            }
            i = i - 1;
        }
        None
    }

    /// Marks bomb `k` as going off, queueing it for its blast, unless it already
    /// is.
    fn fire(fired: &mut Vec<bool>, queue: &mut Vec<usize>, k: usize)
        requires
            k < old(fired).len(),
            forall|i: int| 0 <= i < old(queue)@.len() ==> old(queue)@[i] < old(fired).len(),
            old(queue)@.no_duplicates(),
            forall|i: int|
                0 <= i < old(fired).len() ==> (old(fired)@[i] <==> old(queue)@.contains(
                    i as usize,
                )),
        ensures
            final(fired).len() == old(fired).len(),
            final(fired)@[k as int],
            forall|i: int| 0 <= i < final(queue)@.len() ==> final(queue)@[i] < final(fired).len(),
            final(queue)@.no_duplicates(),
            forall|i: int|
                0 <= i < final(fired).len() ==> (final(fired)@[i] <==> final(queue)@.contains(
                    i as usize,
                )),
            old(fired)@[k as int] ==> final(queue)@ == old(queue)@,
            !old(fired)@[k as int] ==> final(queue)@ == old(queue)@.push(k),
            forall|i: int| 0 <= i < final(fired).len() && old(fired)@[i] ==> final(fired)@[i],
    {
        if !fired[k] {
            fired.set(k, true);
            queue.push(k);
            proof {
                broadcast use vstd::seq_lib::group_seq_properties;

                assert(queue@ == old(queue)@.push(k));
            }
        }
    }

    /// The squares covered this tick by an explosion or by the blast of a bomb
    /// that goes off, directly or by chain reaction.
    fn compute_danger_positions(&self) -> (danger: Vec<Position>)
        requires
            coords_fit(*self.state),
        ensures
            forall|p: Position| danger@.contains(p) <==> in_danger(*self.state, p),
    {
        let ghost state = *self.state;
        proof {
            lemma_last_bomb_index_bounded(state.bombs@);
        }
        let bombs = &self.state.bombs;
        let explosions = &self.state.explosions;
        let n = bombs.len();
        let mut danger: Vec<Position> = Vec::new();
        let mut fired: Vec<bool> = Vec::new();
        let mut queue: Vec<usize> = Vec::new();
        let mut i: usize = 0;
        while i < n
            invariant
                i <= n,
                fired.len() == i,
                forall|t: int| 0 <= t < i ==> !fired@[t],
            decreases n - i,
        {
            fired.push(false);
            i = i + 1;
        }
        let mut j: usize = 0;
        while j < explosions.len()
            invariant
                state == *self.state,
                bombs == state.bombs,
                explosions == state.explosions,
                n == bombs.len(),
                forall|p: Position| #[trigger] last_bomb_index(bombs@, p) < n,
                j <= explosions.len(),
                fired.len() == n,
                forall|t: int| 0 <= t < queue@.len() ==> queue@[t] < n,
                queue@.no_duplicates(),
                forall|t: int| 0 <= t < n ==> (fired@[t] <==> queue@.contains(t as usize)),
                forall|t: int| 0 <= t < queue@.len() ==> triggered(state, #[trigger] queue@[t] as int),
                danger@ == explosions@.take(j as int),
                forall|t: int|
                    0 <= t < j && last_bomb_index(bombs@, #[trigger] explosions@[t]) >= 0
                        ==> fired@[last_bomb_index(bombs@, explosions@[t])],
            decreases explosions.len() - j,
        {
            let e = explosions[j];
            danger.push(e);
            assert(danger@ =~= explosions@.take(j + 1));
            match self.last_bomb_on(&e) {
                Some(k) => {
                    proof {
                        lemma_last_bomb_index(bombs@, e);
                        assert forall|s: Set<int>| #[trigger] closed_under_chain(state, s) implies s.contains(
                            k as int,
                        ) by {
                            assert(state.explosions@[j as int] == e);
                        }
                    }
                    Self::fire(&mut fired, &mut queue, k);
                },
                None => {},
            }
            j = j + 1;
        }
        assert(explosions@.take(explosions@.len() as int) =~= explosions@);
        let mut i: usize = 0;
        while i < n
            invariant
                state == *self.state,
                bombs == state.bombs,
                explosions == state.explosions,
                n == bombs.len(),
                forall|p: Position| #[trigger] last_bomb_index(bombs@, p) < n,
                i <= n,
                fired.len() == n,
                forall|t: int| 0 <= t < queue@.len() ==> queue@[t] < n,
                queue@.no_duplicates(),
                forall|t: int| 0 <= t < n ==> (fired@[t] <==> queue@.contains(t as usize)),
                forall|t: int| 0 <= t < queue@.len() ==> triggered(state, #[trigger] queue@[t] as int),
                danger@ == explosions@,
                forall|t: int|
                    0 <= t < explosions@.len() && last_bomb_index(bombs@, #[trigger] explosions@[t])
                        >= 0 ==> fired@[last_bomb_index(bombs@, explosions@[t])],
                forall|t: int| 0 <= t < i && bombs@[t].fuse <= 1 ==> #[trigger] fired@[t],
            decreases n - i,
        {
            if bombs[i].fuse <= 1 {
                Self::fire(&mut fired, &mut queue, i);
            }
            i = i + 1;
        }
        let mut head: usize = 0;
        while head < queue.len()
            invariant
                state == *self.state,
                coords_fit(state),
                bombs == state.bombs,
                explosions == state.explosions,
                n == bombs.len(),
                forall|p: Position| #[trigger] last_bomb_index(bombs@, p) < n,
                head <= queue.len(),
                fired.len() == n,
                forall|t: int| 0 <= t < queue@.len() ==> queue@[t] < n,
                queue@.no_duplicates(),
                forall|t: int| 0 <= t < n ==> (fired@[t] <==> queue@.contains(t as usize)),
                forall|t: int| 0 <= t < queue@.len() ==> triggered(state, #[trigger] queue@[t] as int),
                forall|t: int|
                    0 <= t < explosions@.len() && last_bomb_index(bombs@, #[trigger] explosions@[t])
                        >= 0 ==> fired@[last_bomb_index(bombs@, explosions@[t])],
                forall|t: int| 0 <= t < n && bombs@[t].fuse <= 1 ==> #[trigger] fired@[t],
                forall|h: int, c: Position|
                    #![trigger blast(state, bombs@[queue@[h] as int].pos).contains(c)]
                    0 <= h < head && blast(state, bombs@[queue@[h] as int].pos).contains(c)
                        && last_bomb_index(bombs@, c) >= 0 ==> fired@[last_bomb_index(bombs@, c)],
                forall|p: Position|
                    danger@.contains(p) <==> (explosions@.contains(p) || exists|h: int|
                        0 <= h < head && #[trigger] blast(state, bombs@[queue@[h] as int].pos).contains(
                            p,
                        )),
            decreases n - head,
        {
            proof {
                crate::board::lemma_distinct_in_range_len(queue@.map_values(|u: usize| u as int), n as int);
            }
            let idx = queue[head];
            let cells = self.blast_cells(&bombs[idx].pos);
            let ghost before = danger@;
            let ghost fired_before = fired@;
            let ghost q0 = queue@;
            let mut c: usize = 0;
            while c < cells.len()
                invariant
                    state == *self.state,
                    bombs == state.bombs,
                    n == bombs.len(),
                forall|p: Position| #[trigger] last_bomb_index(bombs@, p) < n,
                    idx < n,
                    head < queue.len(),
                    queue@[head as int] == idx,
                    triggered(state, idx as int),
                    cells@ == blast(state, bombs@[idx as int].pos),
                    c <= cells.len(),
                    fired.len() == n,
                    forall|t: int| 0 <= t < queue@.len() ==> queue@[t] < n,
                    queue@.no_duplicates(),
                    forall|t: int| 0 <= t < n ==> (fired@[t] <==> queue@.contains(t as usize)),
                    forall|t: int|
                        0 <= t < queue@.len() ==> triggered(state, #[trigger] queue@[t] as int),
                    forall|t: int| 0 <= t < n && fired_before[t] ==> #[trigger] fired@[t],
                    fired_before.len() == n,
                    q0.len() <= queue@.len(),
                    forall|t: int| 0 <= t < q0.len() ==> queue@[t] == q0[t],
                    queue@.len() >= head + 1,
                    forall|t: int|
                        0 <= t < c && last_bomb_index(bombs@, #[trigger] cells@[t]) >= 0
                            ==> fired@[last_bomb_index(bombs@, cells@[t])],
                    danger@ == before + cells@.take(c as int),
                decreases cells.len() - c,
            {
                let cell = cells[c];
                danger.push(cell);
                assert(danger@ =~= before + cells@.take(c + 1));
                match self.last_bomb_on(&cell) {
                    Some(k) => {
                        proof {
                            lemma_last_bomb_index(bombs@, cell);
                            assert forall|s: Set<int>| #[trigger] closed_under_chain(state, s) implies s.contains(
                                k as int,
                            ) by {
                                assert(s.contains(idx as int));
                                assert(blast(state, state.bombs@[idx as int].pos).contains(cell)) by {
                                    assert(cells@[c as int] == cell);
                                }
                            }
                        }
                        let ghost q_before = queue@;
                        Self::fire(&mut fired, &mut queue, k);
                        proof {
                            assert forall|t: int| 0 <= t < queue@.len() implies triggered(state, #[trigger] queue@[t] as int) by {
                                if t < q_before.len() {
                                    assert(queue@[t] == q_before[t]);
                                }
                            }
                        }
                    },
                    None => {},
                }
                proof {
                    assert forall|t: int| 0 <= t < c + 1 && last_bomb_index(bombs@, #[trigger] cells@[t]) >= 0
                        implies fired@[last_bomb_index(bombs@, cells@[t])] by {
                        lemma_last_bomb_index(bombs@, cells@[t]);
                    }
                }
                c = c + 1;
            }
            assert(cells@.take(cells@.len() as int) =~= cells@);
            head = head + 1;
            proof {
                assert forall|h: int, cc: Position|
                    0 <= h < head && blast(state, bombs@[queue@[h] as int].pos).contains(cc)
                        && last_bomb_index(bombs@, cc) >= 0 implies fired@[last_bomb_index(bombs@, cc)] by {
                    lemma_last_bomb_index(bombs@, cc);
                    if h == head - 1 {
                        let t = choose|t: int| 0 <= t < cells@.len() && cells@[t] == cc;
                    } else {
                        assert(queue@[h] == q0[h]);
                        assert(blast(state, bombs@[q0[h] as int].pos).contains(cc));
                        assert(fired_before[last_bomb_index(bombs@, cc)]);
                    }
                }
                assert forall|p: Position|
                    danger@.contains(p) <==> (explosions@.contains(p) || exists|h: int|
                        0 <= h < head && #[trigger] blast(state, bombs@[queue@[h] as int].pos).contains(p)) by {
                    if danger@.contains(p) {
                        let t = choose|t: int| 0 <= t < danger@.len() && danger@[t] == p;
                        if t >= before.len() {
                            assert(cells@[t - before.len()] == p);
                            assert(blast(state, bombs@[queue@[head - 1] as int].pos).contains(p));
                        } else {
                            assert(before.contains(p));
                            if !explosions@.contains(p) {
                                let h = choose|h: int| 0 <= h < head - 1 && #[trigger] blast(state, bombs@[q0[h] as int].pos).contains(p);
                                assert(queue@[h] == q0[h]);
                                assert(blast(state, bombs@[queue@[h] as int].pos).contains(p));
                            }
                        }
                    }
                    if (exists|h: int| 0 <= h < head && #[trigger] blast(state, bombs@[queue@[h] as int].pos).contains(p)) {
                        let h = choose|h: int| 0 <= h < head && #[trigger] blast(state, bombs@[queue@[h] as int].pos).contains(p);
                        if h == head - 1 {
                            let t = choose|t: int| 0 <= t < cells@.len() && cells@[t] == p;
                            assert(danger@[before.len() + t] == p);
                        } else {
                            assert(queue@[h] == q0[h]);
                            assert(blast(state, bombs@[q0[h] as int].pos).contains(p));
                            assert(before.contains(p));
                            let t = choose|t: int| 0 <= t < before.len() && before[t] == p;
                            assert(danger@[t] == p);
                        }
                    }
                    if explosions@.contains(p) {
                        assert(before.contains(p));
                        let t = choose|t: int| 0 <= t < before.len() && before[t] == p;
                        assert(danger@[t] == p);
                    }
                }
            }
        }
        proof {
            let fs = Set::new(|t: int| 0 <= t < n && fired@[t]);
            assert(closed_under_chain(state, fs)) by {
                assert forall|t: int, cc: Position|
                    #![trigger fs.contains(t), blast(state, state.bombs@[t].pos).contains(cc)]
                    0 <= t < state.bombs@.len() && fs.contains(t) && blast(state, state.bombs@[t].pos).contains(cc)
                        && last_bomb_index(state.bombs@, cc) >= 0 implies fs.contains(last_bomb_index(state.bombs@, cc)) by {
                    lemma_last_bomb_index(state.bombs@, cc);
                    assert(queue@.contains(t as usize));
                    let h = choose|h: int| 0 <= h < queue@.len() && queue@[h] == t as usize;
                    assert(blast(state, bombs@[queue@[h] as int].pos).contains(cc));
                }
                assert forall|t: int|
                    0 <= t < state.explosions@.len() && last_bomb_index(state.bombs@, #[trigger] state.explosions@[t]) >= 0
                    implies fs.contains(last_bomb_index(state.bombs@, state.explosions@[t])) by {
                    lemma_last_bomb_index(state.bombs@, state.explosions@[t]);
                }
            }
            assert forall|p: Position| danger@.contains(p) <==> in_danger(state, p) by {
                if exists|h: int| 0 <= h < queue@.len() && #[trigger] blast(state, bombs@[queue@[h] as int].pos).contains(p) {
                    let h = choose|h: int| 0 <= h < queue@.len() && #[trigger] blast(state, bombs@[queue@[h] as int].pos).contains(p);
                    assert(triggered(state, queue@[h] as int));
                }
                if exists|t: int| #[trigger] triggered(state, t) && blast(state, state.bombs@[t].pos).contains(p) {
                    let t = choose|t: int| #[trigger] triggered(state, t) && blast(state, state.bombs@[t].pos).contains(p);
                    assert(fs.contains(t));
                    let h = choose|h: int| 0 <= h < queue@.len() && queue@[h] == t as usize;
                    assert(blast(state, bombs@[queue@[h] as int].pos).contains(p));
                }
            }
        }
        danger
    }

    /// `pos` is on the board, free of bombs and out of every blast, given the
    /// squares in danger this tick.
    fn is_safe_given(&self, pos: &Position, danger: &Vec<Position>) -> (ok: bool)
        requires
            forall|p: Position| danger@.contains(p) <==> in_danger(*self.state, p),
        ensures
            ok == safe(*self.state, *pos),
    {
        if pos.x < 0 || pos.x >= self.state.field.width || pos.y < 0 || pos.y
            >= self.state.field.height {
            return false;
        }
        if bomb_on(self.state, pos) {
            return false;
        }
        !contains_position(danger, pos)
    }

    /// `pos` is on the board, free of bombs, and out of every explosion and every
    /// blast of a bomb that goes off this tick (chain reactions included).
    pub fn is_safe(&self, pos: &Position) -> (ok: bool)
        requires
            self.state.field.in_bounds(*pos) && !bomb_at(*self.state, *pos) ==> coords_fit(
                *self.state,
            ),
        ensures
            ok == safe(*self.state, *pos),
    {
        if pos.x < 0 || pos.x >= self.state.field.width || pos.y < 0 || pos.y
            >= self.state.field.height {
            return false;
        }
        if bomb_on(self.state, pos) {
            return false;
        }
        let danger = self.compute_danger_positions();
        !contains_position(&danger, pos)
    }

    /// The row-major index of a square of the board.
    fn board_key(&self, pos: &Position) -> (k: u64)
        requires
            self.state.field.in_bounds(*pos),
            self.state.field.index_fits(),
        ensures
            k == cell_key(self.state.field, *pos),
    {
        proof {
            crate::models::lemma_index_in_range(self.state.field, *pos);
        }
        (pos.y * self.state.field.width + pos.x) as u64
    }

    /// A search over `terrain` may step onto `pos`.
    fn passable(&self, terrain: Terrain, pos: &Position) -> (ok: bool)
        requires
            self.state.field.index_fits(),
        ensures
            ok == passable(*self.state, terrain, *pos),
    {
        if self.state.field.in_bounds_exec(pos) {
            proof {
                crate::models::lemma_index_in_range(self.state.field, *pos);
            }
        }
        match terrain {
            Terrain::Walk => self.is_walkable(pos),
            Terrain::Toward(target) => self.is_walkable(pos) || (*pos == target
                && self.state.field.in_bounds_exec(pos) && self.state.field.cell_at(pos)
                == CellType::Box),
            Terrain::Open => {
                if !self.state.field.in_bounds_exec(pos) {
                    return false;
                }
                self.state.field.cell_at(pos) != CellType::Wall
            },
        }
    }

    /// `pos` is what a search for `goal` looks for.
    fn goal_met(&self, goal: &Goal, pos: &Position, danger: &Vec<Position>) -> (ok: bool)
        requires
            self.state.field.index_fits(),
            *goal == Goal::SafeSpot ==> forall|p: Position|
                danger@.contains(p) <==> in_danger(*self.state, p),
        ensures
            ok == goal_holds(*self.state, *goal, *pos),
    {
        if self.state.field.in_bounds_exec(pos) {
            proof {
                crate::models::lemma_index_in_range(self.state.field, *pos);
            }
        }
        match goal {
            Goal::Reach(target) => *pos == *target,
            Goal::SafeSpot => self.is_walkable(pos) && self.is_safe_given(pos, danger),
            Goal::BoxCell => self.state.field.cell_at(pos) == CellType::Box,
        }
    }

    /// Breadth-first search from `start` over `terrain`, expanding neighbours in
    /// the order up, right, down, left, until a square matching `goal` is taken
    /// from the queue (the start itself is not tested when `skip_start` holds).
    fn search(
        &self,
        start: &Position,
        terrain: Terrain,
        goal: &Goal,
        skip_start: bool,
        danger: &Vec<Position>,
    ) -> (r: SearchResult)
        requires
            self.state.field.index_fits(),
            steppable(*start),
            *goal == Goal::SafeSpot ==> forall|p: Position|
                danger@.contains(p) <==> in_danger(*self.state, p),
        ensures
            ({
                let tree = search_tree(*self.state, terrain, *start);
                let lo = if skip_start { 1int } else { 0int };
                &&& 1 <= r.order@.len() <= tree.order.len()
                &&& r.parent@.len() == r.order@.len()
                &&& r.order@ == tree.order.take(r.order@.len() as int)
                &&& forall|i: int| 0 <= i < r.parent@.len() ==> r.parent@[i] as int == tree.parent[i]
                &&& match first_goal(*self.state, *goal, tree.order, lo) {
                    Some(k) => r.found == Some(k as usize) && k < r.order@.len(),
                    None => r.found == None::<usize>,
                }
            }),
    {
        broadcast use vstd::std_specs::hash::group_hash_axioms;

        let ghost state = *self.state;
        let ghost bound = (board_size(state.field) + 1) as nat;
        let ghost tree = search_tree(state, terrain, *start);
        let ghost lo = if skip_start { 1int } else { 0int };
        let mut order: Vec<Position> = Vec::new();
        order.push(*start);
        let mut parent: Vec<usize> = Vec::new();
        parent.push(0);
        let mut visited: HashSet<u64> = HashSet::new();
        assert(visited@ =~= Set::<u64>::empty());
        if self.state.field.in_bounds_exec(start) {
            let key = self.board_key(start);
            visited.insert(key);
            assert(visited@ =~= Set::<u64>::empty().insert(cell_key(state.field, *start)));
        }
        proof {
            assert forall|p: Position|
                #![trigger cell_key(state.field, p)]
                state.field.in_bounds(p) implies (visited@.contains(cell_key(state.field, p))
                    <==> order@.contains(p)) by {
                if visited@.contains(cell_key(state.field, p)) {
                    assert(state.field.in_bounds(*start));
                    lemma_cell_key_injective(state.field, p, *start);
                    assert(order@[0] == p);
                }
                if order@.contains(p) {
                    assert(order@[0] == p);
                }
            }
        }
        let mut head: usize = 0;
        assert(order@ =~= explore(state, terrain, *start, 0).order);
        while head < order.len()
            invariant
                state == *self.state,
                bound == board_size(state.field) + 1,
                tree == search_tree(state, terrain, *start),
                lo == if skip_start { 1int } else { 0int },
                self.state.field.index_fits(),
                steppable(*start),
                *goal == Goal::SafeSpot ==> forall|p: Position|
                    danger@.contains(p) <==> in_danger(state, p),
                explore(state, terrain, *start, head as nat).head == head,
                order@ == explore(state, terrain, *start, head as nat).order,
                parent@.len() == order@.len(),
                forall|i: int|
                    0 <= i < parent@.len() ==> parent@[i] as int == explore(
                        state,
                        terrain,
                        *start,
                        head as nat,
                    ).parent[i],
                forall|j: int| lo <= j < head ==> !goal_holds(state, *goal, #[trigger] order@[j]),
                forall|p: Position|
                    #![trigger cell_key(state.field, p)]
                    state.field.in_bounds(p) ==> (visited@.contains(cell_key(state.field, p))
                        <==> order@.contains(p)),
            decreases bound - head,
        {
            let ghost f = explore(state, terrain, *start, head as nat);
            proof {
                lemma_explore_wf(state, terrain, *start, head as nat);
                lemma_frontier_len(state, terrain, *start, f);
            }
            let cur = order[head];
            if (!skip_start || head > 0) && self.goal_met(goal, &cur, danger) {
                proof {
                    lemma_explore_prefix(state, terrain, *start, head as nat, bound);
                    assert forall|j: int| lo <= j < head implies !goal_holds(state, *goal, #[trigger] tree.order[j]) by {
                        assert(tree.order[j] == order@[j]);
                    }
                    assert(tree.order[head as int] == cur);
                    lemma_first_goal(state, *goal, tree.order, lo, head as int);
                }
                return SearchResult { order, parent, found: Some(head) };
            }
            proof {
                if head > 0 {
                    assert(passable(state, terrain, f.order[head as int]));
                }
            }
            let mut dir: usize = 0;
            while dir < 4
                invariant
                    state == *self.state,
                    self.state.field.index_fits(),
                    f == explore(state, terrain, *start, head as nat),
                    frontier_wf(state, terrain, *start, f),
                    f.head == head,
                    head < f.order.len(),
                    cur == f.order[head as int],
                    steppable(cur),
                    dir <= 4,
                    order@ == discover_upto(state, terrain, f, head as int, dir as int).order,
                    parent@.len() == order@.len(),
                    forall|i: int|
                        0 <= i < parent@.len() ==> parent@[i] as int == discover_upto(
                            state,
                            terrain,
                            f,
                            head as int,
                            dir as int,
                        ).parent[i],
                    forall|p: Position|
                        #![trigger cell_key(state.field, p)]
                        state.field.in_bounds(p) ==> (visited@.contains(cell_key(state.field, p))
                            <==> order@.contains(p)),
                decreases 4 - dir,
            {
                proof {
                    lemma_discover_upto(state, terrain, *start, f, dir as int);
                    lemma_discover_upto(state, terrain, *start, f, dir as int + 1);
                }
                let ghost g = discover_upto(state, terrain, f, head as int, dir as int);
                let next = Self::step_from(&cur, dir);
                assert(g.order[head as int] == cur);
                if self.passable(terrain, &next) {
                    let key = self.board_key(&next);
                    if !visited.contains(&key) {
                        let ghost before = order@;
                        order.push(next);
                        parent.push(head);
                        visited.insert(key);
                        proof {
                            assert forall|p: Position|
                                #![trigger cell_key(state.field, p)]
                                state.field.in_bounds(p) implies (visited@.contains(
                                    cell_key(state.field, p),
                                ) <==> order@.contains(p)) by {
                                if cell_key(state.field, p) == key {
                                    lemma_cell_key_injective(state.field, p, next);
                                    assert(order@[order@.len() - 1] == next);
                                } else {
                                    if order@.contains(p) {
                                        let t = choose|t: int| 0 <= t < order@.len() && order@[t] == p;
                                        if t < before.len() {
                                            assert(before[t] == p);
                                        }
                                    }
                                    if before.contains(p) {
                                        let t = choose|t: int| 0 <= t < before.len() && before[t] == p;
                                        assert(order@[t] == p);
                                    }
                                }
                            }
                        }
                    }
                }
                dir = dir + 1;
                proof {
                    let g2 = discover_upto(state, terrain, f, head as int, dir as int);
                    assert(order@ =~= g2.order);
                    assert forall|i: int| 0 <= i < parent@.len() implies parent@[i] as int == g2.parent[i] by {
                        if i < g.parent.len() {
                            assert(g2.parent[i] == g.parent[i]);
                        }
                    }
                }
            }
            proof {
                lemma_discover_upto(state, terrain, *start, f, 4);
                assert forall|j: int| lo <= j < head + 1 implies !goal_holds(state, *goal, #[trigger] order@[j]) by {
                    assert(order@[j] == f.order[j]);
                }
            }
            head = head + 1;
        }
        proof {
            let f = explore(state, terrain, *start, head as nat);
            lemma_explore_wf(state, terrain, *start, head as nat);
            lemma_frontier_len(state, terrain, *start, f);
            lemma_explore_prefix(state, terrain, *start, head as nat, bound);
            assert(tree.order =~= order@.take(order@.len() as int));
            lemma_first_goal(state, *goal, tree.order, lo, head as int);
        }
        SearchResult { order, parent, found: None }
    }

    /// Breadth-first search from `start` over `terrain` for `goal`, not testing
    /// `start` itself; `start` need not be passable.
    fn bfs(&self, start: &Position, terrain: Terrain, goal: &Goal, danger: &Vec<Position>) -> (r:
        SearchResult)
        requires
            self.state.field.index_fits(),
            steppable(*start),
            *goal == Goal::SafeSpot ==> forall|p: Position|
                danger@.contains(p) <==> in_danger(*self.state, p),
        ensures
            ({
                let tree = search_tree(*self.state, terrain, *start);
                &&& 1 <= r.order@.len() <= tree.order.len()
                &&& r.parent@.len() == r.order@.len()
                &&& r.order@ == tree.order.take(r.order@.len() as int)
                &&& forall|i: int| 0 <= i < r.parent@.len() ==> r.parent@[i] as int == tree.parent[i]
                &&& match first_goal(*self.state, *goal, tree.order, 1) {
                    Some(k) => r.found == Some(k as usize) && k < r.order@.len(),
                    None => r.found == None::<usize>,
                }
            }),
    {
        self.search(start, terrain, goal, true, danger)
    }

    /// The squares from the start to square `k` along the search tree.
    fn rebuild_path(order: &Vec<Position>, parent: &Vec<usize>, k: usize) -> (path: Vec<Position>)
        requires
            k < order.len(),
            parent@.len() == order@.len(),
            forall|i: int| 1 <= i < order@.len() ==> #[trigger] parent@[i] < i,
        ensures
            path@ == tree_path(order@, parent@.map_values(|u: usize| u as int), k as int),
    {
        let ghost par = parent@.map_values(|u: usize| u as int);
        let mut rev: Vec<Position> = Vec::new();
        let mut cur = k;
        rev.push(order[k]);
        assert(rev@.reverse() =~= seq![order@[k as int]]);
        while cur != 0
            invariant
                cur <= k < order.len(),
                parent@.len() == order@.len(),
                par == parent@.map_values(|u: usize| u as int),
                forall|i: int| 1 <= i < order@.len() ==> #[trigger] parent@[i] < i,
                rev@.len() >= 1,
                rev@.last() == order@[cur as int],
                tree_path(order@, par, k as int) == tree_path(order@, par, cur as int) + rev@.reverse().drop_first(),
            decreases cur,
        {
            let ghost old_rev = rev@;
            let ghost old_cur = cur;
            cur = parent[cur];
            rev.push(order[cur]);
            proof {
                assert(par[old_cur as int] == cur as int);
                assert(tree_path(order@, par, old_cur as int) == tree_path(order@, par, cur as int).push(order@[old_cur as int]));
                assert(rev@.reverse() =~= seq![order@[cur as int]] + old_rev.reverse());
                assert(old_rev.reverse()[0] == order@[old_cur as int]);
                assert(old_rev.reverse() =~= seq![order@[old_cur as int]] + old_rev.reverse().drop_first());
                assert(tree_path(order@, par, k as int) =~= tree_path(order@, par, cur as int) + rev@.reverse().drop_first());
            }
        }
        assert(tree_path(order@, par, 0) == seq![order@[0]]);
        assert(rev@.reverse()[0] == order@[0]);
        assert(tree_path(order@, par, k as int) =~= rev@.reverse());
        let mut path: Vec<Position> = Vec::new();
        let mut i: usize = rev.len();
        while i > 0
            invariant
                i <= rev.len(),
                path@ == rev@.reverse().take((rev.len() - i) as int),
            decreases i,
        {
            i = i - 1;
            path.push(rev[i]);
            assert(path@ =~= rev@.reverse().take((rev.len() - i) as int));
        }
        assert(path@ =~= rev@.reverse());
        path
    }

    /// The move from `from` to its neighbour `to`, or `DoNothing` when they are
    /// not neighbours.
    fn action_from_step(from: &Position, to: &Position) -> (a: Action)
        requires
            steppable(*from),
        ensures
            a == step_action(*from, *to),
    {
        if to.x == from.x && to.y == from.y - 1 {
            Action::MoveUp
        } else if to.x == from.x + 1 && to.y == from.y {
            Action::MoveRight
        } else if to.x == from.x && to.y == from.y + 1 {
            Action::MoveDown
        } else if to.x == from.x - 1 && to.y == from.y {
            Action::MoveLeft
        } else {
            Action::DoNothing
        }
    }

    /// The first move along a shortest path from `start` to `target` that steps
    /// on walkable squares and may end on the target when it is a box
    /// (breadth-first, neighbours tried up, right, down, left), or `DoNothing`
    /// when there is no such path, `start` is `target`, or `start` is off the
    /// board, a wall or a box. A bomb on the start does not keep a bot from
    /// running, and a bot can head for a box.
    pub fn get_next_action_towards(&self, start: &Position, target: &Position) -> (a: Action)
        requires
            *start != *target ==> self.state.field.index_fits(),
        ensures
            a == next_action(*self.state, *start, *target),
    {
        if *start == *target {
            return Action::DoNothing;
        }
        if !self.state.field.in_bounds_exec(start) {
            return Action::DoNothing;
        }
        proof {
            crate::models::lemma_index_in_range(self.state.field, *start);
            lemma_in_bounds_steppable(self.state.field, *start);
        }
        let cell = self.state.field.cell_at(start);
        if cell == CellType::Wall || cell == CellType::Box {
            return Action::DoNothing;
        }
        let no_danger: Vec<Position> = Vec::new();
        let r = self.bfs(start, Terrain::Toward(*target), &Goal::Reach(*target), &no_danger);
        match r.found {
            None => Action::DoNothing,
            Some(k) => {
                let ghost tree = search_tree(*self.state, Terrain::Toward(*target), *start);
                proof {
                    crate::search::lemma_first_goal_spec(*self.state, Goal::Reach(*target), tree.order, 1);
                    match first_goal(*self.state, Goal::Reach(*target), tree.order, 1) {
                        Some(kk) => assert(kk == k),
                        None => {},
                    }
                    crate::search::lemma_search_tree_finished(*self.state, Terrain::Toward(*target), *start);
                    assert forall|i: int| 1 <= i < r.order@.len() implies #[trigger] r.parent@[i] < i by {
                        assert(r.parent@[i] as int == tree.parent[i]);
                    }
                    assert(r.parent@.map_values(|u: usize| u as int) =~= tree.parent.take(r.order@.len() as int));
                    lemma_tree_path(r.order@, r.parent@.map_values(|u: usize| u as int), k as int);
                    crate::search::lemma_first_goal_spec(*self.state, Goal::Reach(*target), tree.order, 1);
                    let fs = crate::search::first_step(r.parent@.map_values(|u: usize| u as int), k as int);
                    lemma_first_step_prefix(tree.parent, r.order@.len() as int, k as int);
                    assert(r.order@[fs] == tree.order[fs]);
                }
                let path = Self::rebuild_path(&r.order, &r.parent, k);
                if path.len() < 2 {
                    return Action::DoNothing;
                }
                Self::action_from_step(&path[0], &path[1])
            },
        }
    }

    /// `start` when it is walkable and safe; otherwise the walkable, safe square
    /// nearest to it by walking (breadth-first, neighbours tried up, right, down,
    /// left), or `start` when none can be reached.
    pub fn get_nearest_safe_position(&self, start: &Position) -> (p: Position)
        requires
            coords_fit(*self.state),
            steppable(*start),
        ensures
            p == nearest_safe(*self.state, *start),
    {
        if self.state.field.in_bounds_exec(start) {
            proof {
                crate::models::lemma_index_in_range(self.state.field, *start);
            }
        }
        if self.is_walkable(start) && self.is_safe(start) {
            return *start;
        }
        let danger = self.compute_danger_positions();
        let r = self.bfs(start, Terrain::Walk, &Goal::SafeSpot, &danger);
        match r.found {
            Some(k) => {
                proof {
                    let tree = search_tree(*self.state, Terrain::Walk, *start);
                    crate::search::lemma_first_goal_spec(*self.state, Goal::SafeSpot, tree.order, 1);
                    match first_goal(*self.state, Goal::SafeSpot, tree.order, 1) {
                        Some(kk) => {
                            assert(r.found == Some(kk as usize));
                            assert(r.order.len() <= usize::MAX);
                            assert(kk == k);
                        },
                        None => {
                            assert(r.found == None::<usize>);
                        },
                    }
                    assert(r.order@[k as int] == tree.order[k as int]);
                }
                r.order[k]
            },
            None => *start,
        }
    }

    /// The box nearest to `start` when walls are the only obstacles
    /// (breadth-first, neighbours tried up, right, down, left; `start` itself
    /// counts), or `None` when no box can be reached.
    pub fn find_nearest_box(&self, start: &Position) -> (b: Option<Position>)
        requires
            self.state.field.index_fits(),
            steppable(*start),
        ensures
            b == nearest_box(*self.state, *start),
    {
        let no_danger: Vec<Position> = Vec::new();
        let r = self.search(start, Terrain::Open, &Goal::BoxCell, false, &no_danger);
        match r.found {
            Some(k) => {
                proof {
                    let tree = search_tree(*self.state, Terrain::Open, *start);
                    crate::search::lemma_first_goal_spec(*self.state, Goal::BoxCell, tree.order, 0);
                    match first_goal(*self.state, Goal::BoxCell, tree.order, 0) {
                        Some(kk) => {
                            assert(r.found == Some(kk as usize));
                            assert(r.order.len() <= usize::MAX);
                            assert(kk == k);
                        },
                        None => {
                            assert(r.found == None::<usize>);
                        },
                    }
                    assert(r.order@[k as int] == tree.order[k as int]);
                }
                Some(r.order[k])
            },
            None => None,
        }
    }
}

} // verus!
