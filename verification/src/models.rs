use vstd::prelude::*;

use crate::enums::CellType;

verus! {

/// A square of the board, `x` growing to the right and `y` growing down.
#[derive(Debug, Clone, Copy, PartialEq, Eq, Structural, Hash)]
pub struct Position {
    pub x: i32,
    pub y: i32,
}

/// A player as the server reports it.
#[derive(Debug, Clone, PartialEq, Eq)]
pub struct Player {
    pub id: String,
    pub pos: Position,
    pub health: i32,
    pub score: i32,
}

/// A bomb lying on the board; `fuse` counts the ticks left before it explodes.
#[derive(Debug, Clone, Copy, PartialEq, Eq, Structural)]
pub struct Bomb {
    pub pos: Position,
    pub fuse: i32,
}

/// The board: `cells` holds the squares row by row, `width` squares per row.
#[derive(Debug, Clone, PartialEq, Eq)]
pub struct Field {
    pub width: i32,
    pub height: i32,
    pub cells: Vec<CellType>,
}

/// Everything a bot sees on one tick.
#[derive(Debug, Clone, PartialEq, Eq)]
pub struct GameState {
    pub current_tick: i32,
    pub me: Option<Player>,
    pub opponents: Vec<Player>,
    pub players: Vec<Player>,
    pub field: Field,
    pub bombs: Vec<Bomb>,
    pub explosions: Vec<Position>,
}

/// A copy of `p`.
pub(crate) fn copy_player(p: &Player) -> (q: Player)
    ensures
        q == *p,
{
    Player { id: p.id.clone(), pos: p.pos, health: p.health, score: p.score }
}

/// Absolute value of an integer.
pub open spec fn abs_int(v: int) -> int {
    if v < 0 { -v } else { v }
}

/// The Manhattan distance between two squares.
pub open spec fn manhattan(a: Position, b: Position) -> int {
    abs_int(a.x - b.x) + abs_int(a.y - b.y)
}

impl Position {
    /// Manhattan distance to `other`.
    pub fn distance_to(&self, other: &Position) -> (d: i32)
        requires
            i32::MIN < self.x - other.x <= i32::MAX,
            i32::MIN < self.y - other.y <= i32::MAX,
            manhattan(*self, *other) <= i32::MAX,
        ensures
            d == manhattan(*self, *other),
    {
        let dx = self.x - other.x;
        let dy = self.y - other.y;
        let ax = if dx < 0 { -dx } else { dx };
        let ay = if dy < 0 { -dy } else { dy };
        ax + ay
    }
}

impl Field {
    /// `pos` lies on the board.
    pub open spec fn in_bounds(self, pos: Position) -> bool {
        0 <= pos.x < self.width && 0 <= pos.y < self.height
    }

    /// Row-major index of `pos` among the cells.
    pub open spec fn index_of(self, pos: Position) -> int {
        pos.y * self.width + pos.x
    }

    /// Every square of the board has a row-major index that fits an `i32`.
    pub open spec fn index_fits(self) -> bool {
        self.width <= 0 || self.height <= 0 || self.width * self.height <= i32::MAX + 1
    }

    /// The content of `pos`: squares off the board, and squares past the end of
    /// `cells`, count as walls.
    pub open spec fn cell(self, pos: Position) -> CellType {
        if !self.in_bounds(pos) {
            CellType::Wall
        } else if self.index_of(pos) < self.cells@.len() {
            self.cells@[self.index_of(pos)]
        } else {
            CellType::Wall
        }
    }

    /// `pos` lies on the board.
    pub fn in_bounds_exec(&self, pos: &Position) -> (b: bool)
        ensures
            b == self.in_bounds(*pos),
    {
        0 <= pos.x && pos.x < self.width && 0 <= pos.y && pos.y < self.height
    }

    /// The content of `pos` (see `cell`).
    pub fn cell_at(&self, pos: &Position) -> (c: CellType)
        requires
            self.in_bounds(*pos) ==> self.index_of(*pos) <= i32::MAX,
        ensures
            c == self.cell(*pos),
    {
        if pos.x < 0 || pos.x >= self.width || pos.y < 0 || pos.y >= self.height {
            return CellType::Wall;
        }
        proof {
            assert(0 <= pos.y * self.width) by (nonlinear_arith)
                requires
                    0 <= pos.y,
                    0 <= self.width,
            ;
        }
        let idx = (pos.y * self.width + pos.x) as usize;
        if idx < self.cells.len() {
            self.cells[idx]
        } else {
            CellType::Wall
        }
    }
}

/// Under `index_fits`, every square on the board has an index in `[0, width * height)`.
pub(crate) proof fn lemma_index_in_range(field: Field, pos: Position)
    requires
        field.in_bounds(pos),
    ensures
        0 <= field.index_of(pos) < field.width * field.height,
        field.index_fits() ==> field.index_of(pos) <= i32::MAX,
{
    let w = field.width as int;
    let h = field.height as int;
    let x = pos.x as int;
    let y = pos.y as int;
    assert(0 <= y * w + x < w * h) by (nonlinear_arith)
        requires
            0 <= x < w,
            0 <= y < h,
    ;
}

/// Distinct squares of the board have distinct row-major indices.
pub(crate) proof fn lemma_index_injective(field: Field, a: Position, b: Position)
    requires
        field.in_bounds(a),
        field.in_bounds(b),
        field.index_of(a) == field.index_of(b),
    ensures
        a == b,
{
    assert(a.y * field.width + a.x == b.y * field.width + b.x);
    assert(a.x == b.x && a.y == b.y) by (nonlinear_arith)
        requires
            a.y * field.width + a.x == b.y * field.width + b.x,
            0 <= a.x < field.width,
            0 <= b.x < field.width,
            0 <= a.y,
            0 <= b.y,
    {
        if a.y < b.y {
            assert(a.y * field.width + field.width <= b.y * field.width);
        } else if a.y > b.y {
            assert(b.y * field.width + field.width <= a.y * field.width);
        }
    }
}

/// The Manhattan distance between two squares is the largest of
/// `±(a.x - b.x) ± (a.y - b.y)` over the four choices of signs: it is at least
/// each of them and equal to one of them. It is symmetric, and zero exactly
/// between a square and itself.
pub proof fn law_manhattan_distance(a: Position, b: Position)
    ensures
        manhattan(a, b) >= (a.x - b.x) + (a.y - b.y),
        manhattan(a, b) >= (a.x - b.x) - (a.y - b.y),
        manhattan(a, b) >= (b.x - a.x) + (a.y - b.y),
        manhattan(a, b) >= (b.x - a.x) - (a.y - b.y),
        manhattan(a, b) == (a.x - b.x) + (a.y - b.y) || manhattan(a, b) == (a.x - b.x) - (a.y - b.y)
            || manhattan(a, b) == (b.x - a.x) + (a.y - b.y) || manhattan(a, b) == (b.x - a.x) - (a.y
            - b.y),
        manhattan(a, b) == manhattan(b, a),
        manhattan(a, b) == 0 <==> a == b,
{
}

} // verus!
