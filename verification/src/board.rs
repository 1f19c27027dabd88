use vstd::prelude::*;

use crate::danger::triggered;
use crate::enums::CellType;
use crate::models::{GameState, Position};

verus! {

/// Some bomb lies on `pos`.
pub open spec fn bomb_at(state: GameState, pos: Position) -> bool {
    exists|i: int| 0 <= i < state.bombs@.len() && #[trigger] state.bombs@[i].pos == pos
}

/// A player can stand on `pos`: it is on the board, neither wall nor box, and
/// no bomb lies there.
pub open spec fn walkable(state: GameState, pos: Position) -> bool {
    &&& state.field.in_bounds(pos)
    &&& state.field.cell(pos) != CellType::Wall
    &&& state.field.cell(pos) != CellType::Box
    &&& !bomb_at(state, pos)
}

/// The four orthogonal neighbours of `pos`, in the order up, right, down, left.
pub open spec fn neighbor(pos: Position, dir: int) -> Position {
    if dir == 0 {
        Position { x: pos.x, y: (pos.y - 1) as i32 }
    } else if dir == 1 {
        Position { x: (pos.x + 1) as i32, y: pos.y }
    } else if dir == 2 {
        Position { x: pos.x, y: (pos.y + 1) as i32 }
    } else {
        Position { x: (pos.x - 1) as i32, y: pos.y }
    }
}

/// Stepping one square from `pos` in any direction stays inside `i32`.
pub open spec fn steppable(pos: Position) -> bool {
    i32::MIN < pos.x < i32::MAX && i32::MIN < pos.y < i32::MAX
}

/// `b` is one orthogonal step away from `a`.
pub open spec fn adjacent(a: Position, b: Position) -> bool {
    exists|d: int| 0 <= d < 4 && #[trigger] neighbor(a, d) == b
}

/// The walkable neighbours of `pos`, kept in the order up, right, down, left.
pub open spec fn walkable_neighbors(state: GameState, pos: Position) -> Seq<Position> {
    seq![neighbor(pos, 0), neighbor(pos, 1), neighbor(pos, 2), neighbor(pos, 3)].filter(
        |p: Position| walkable(state, p),
    )
}

/// Every board square, and every bomb that goes off this tick, can be handled
/// without leaving `i32`: the row-major index of each square fits, and each
/// bomb that goes off can be stepped from.
pub open spec fn coords_fit(state: GameState) -> bool {
    &&& state.field.index_fits()
    &&& forall|i: int| #[trigger] triggered(state, i) ==> steppable(state.bombs@[i].pos)
}

/// Some bomb lies on `pos`.
pub(crate) fn bomb_on(state: &GameState, pos: &Position) -> (found: bool)
    ensures
        found == bomb_at(*state, *pos),
{
    let mut i: usize = 0;
    while i < state.bombs.len()
        invariant
            i <= state.bombs.len(),
            forall|j: int| 0 <= j < i ==> state.bombs@[j].pos != *pos,
        decreases state.bombs.len() - i,
    {
        if state.bombs[i].pos == *pos {
            return true;
        }
        i = i + 1;
    }
    false
}

/// A sequence of distinct integers drawn from `[0, n)` has at most `n` elements.
pub(crate) proof fn lemma_distinct_in_range_len(s: Seq<int>, n: int)
    requires
        0 <= n,
        s.no_duplicates(),
        forall|i: int| 0 <= i < s.len() ==> 0 <= #[trigger] s[i] < n,
    ensures
        s.len() <= n,
{
    s.unique_seq_to_set();
    vstd::set_lib::lemma_int_range(0, n);
    assert(s.to_set().subset_of(vstd::set_lib::set_int_range(0, n))) by {
        assert forall|v: int| #[trigger] s.to_set().contains(v) implies vstd::set_lib::set_int_range(
            0,
            n,
        ).contains(v) by {
            let i = choose|i: int| 0 <= i < s.len() && s[i] == v;
        }
    }
    vstd::set_lib::lemma_len_subset(s.to_set(), vstd::set_lib::set_int_range(0, n));
}

} // verus!
