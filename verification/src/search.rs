use vstd::prelude::*;

use crate::board::{adjacent, lemma_distinct_in_range_len, neighbor, steppable, walkable};
use crate::danger::safe;
use crate::enums::{Action, CellType};
use crate::models::{Field, GameState, Position};

verus! {

/// Which squares a breadth-first search may step onto.
#[derive(Debug, Clone, Copy, PartialEq, Eq, Structural)]
pub enum Terrain {
    /// Squares a player can stand on (see `walkable`).
    Walk,
    /// Any square of the board that is not a wall; boxes and bombs included.
    Open,
    /// Walkable squares, and the given square when it is a box: a path may end
    /// on a box it heads for.
    Toward(Position),
}

/// What a breadth-first search looks for.
#[derive(Debug, Clone, Copy, PartialEq, Eq, Structural)]
pub enum Goal {
    /// One given square.
    Reach(Position),
    /// A walkable square out of every blast of this tick.
    SafeSpot,
    /// A box.
    BoxCell,
}

/// A search may step onto `pos`.
pub open spec fn passable(state: GameState, terrain: Terrain, pos: Position) -> bool {
    match terrain {
        Terrain::Walk => walkable(state, pos),
        Terrain::Open => state.field.in_bounds(pos) && state.field.cell(pos) != CellType::Wall,
        Terrain::Toward(target) => walkable(state, pos) || (pos == target && state.field.in_bounds(pos)
            && state.field.cell(pos) == CellType::Box),
    }
}

/// `pos` is what the search looks for.
pub open spec fn goal_holds(state: GameState, goal: Goal, pos: Position) -> bool {
    match goal {
        Goal::Reach(target) => pos == target,
        Goal::SafeSpot => walkable(state, pos) && safe(state, pos),
        Goal::BoxCell => state.field.cell(pos) == CellType::Box,
    }
}

/// The state of a breadth-first search: the squares discovered so far, in the
/// order of discovery (the queue, never shortened), the index of the square
/// each was discovered from, and how many squares have been expanded.
pub struct Frontier {
    pub order: Seq<Position>,
    pub parent: Seq<int>,
    pub head: int,
}

/// A search that has discovered only its start.
pub open spec fn start_frontier(start: Position) -> Frontier {
    Frontier { order: seq![start], parent: seq![0], head: 0 }
}

/// Looks at the neighbour of square `cur` in direction `dir`: when it is
/// passable and not yet discovered, it joins the queue.
pub open spec fn discover(state: GameState, terrain: Terrain, f: Frontier, cur: int, dir: int) -> Frontier {
    let c = neighbor(f.order[cur], dir);
    if passable(state, terrain, c) && !f.order.contains(c) {
        Frontier { order: f.order.push(c), parent: f.parent.push(cur), head: f.head }
    } else {
        f
    }
}

/// Looks at the first `k` neighbours of square `cur`, in the order up, right,
/// down, left.
pub open spec fn discover_upto(state: GameState, terrain: Terrain, f: Frontier, cur: int, k: int) -> Frontier
    decreases k,
{
    if k <= 0 {
        f
    } else {
        discover(state, terrain, discover_upto(state, terrain, f, cur, k - 1), cur, k - 1)
    }
}

/// One round of the search: the next queued square is expanded.
pub open spec fn bfs_step(state: GameState, terrain: Terrain, f: Frontier) -> Frontier {
    if f.head < 0 || f.head >= f.order.len() {
        f
    } else {
        let g = discover_upto(state, terrain, f, f.head, 4);
        Frontier { order: g.order, parent: g.parent, head: f.head + 1 }
    }
}

/// The search from `start` after `n` rounds.
pub open spec fn explore(state: GameState, terrain: Terrain, start: Position, n: nat) -> Frontier
    decreases n,
{
    if n == 0 {
        start_frontier(start)
    } else {
        bfs_step(state, terrain, explore(state, terrain, start, (n - 1) as nat))
    }
}

/// The number of squares on the board.
pub open spec fn board_size(field: Field) -> int {
    if field.width > 0 && field.height > 0 {
        field.width * field.height
    } else {
        0
    }
}

/// The complete search from `start`: every square reachable from it, in the
/// order a breadth-first search discovers them.
pub open spec fn search_tree(state: GameState, terrain: Terrain, start: Position) -> Frontier {
    explore(state, terrain, start, (board_size(state.field) + 1) as nat)
}

/// The search has expanded every square it discovered.
pub open spec fn finished(f: Frontier) -> bool {
    f.head == f.order.len()
}

/// The shape every search state keeps.
pub open spec fn frontier_wf(state: GameState, terrain: Terrain, start: Position, f: Frontier) -> bool {
    &&& f.order.len() >= 1
    &&& f.order[0] == start
    &&& f.parent.len() == f.order.len()
    &&& f.parent[0] == 0
    &&& 0 <= f.head <= f.order.len()
    &&& f.order.no_duplicates()
    &&& forall|k: int| 1 <= k < f.order.len() ==> passable(state, terrain, #[trigger] f.order[k])
    &&& forall|k: int| 1 <= k < f.order.len() ==> 0 <= #[trigger] f.parent[k] < k
    &&& forall|k: int| 1 <= k < f.order.len() ==> #[trigger] f.parent[k] < f.head
    &&& forall|k: int|
        1 <= k < f.order.len() ==> adjacent(f.order[f.parent[k]], #[trigger] f.order[k])
}

/// `a` is a prefix of `b`, both for the queue and for the parents.
pub open spec fn frontier_prefix(a: Frontier, b: Frontier) -> bool {
    &&& a.order.len() <= b.order.len()
    &&& a.parent.len() <= b.parent.len()
    &&& a.order == b.order.take(a.order.len() as int)
    &&& a.parent == b.parent.take(a.parent.len() as int)
}

/// The first index from `i` on whose square is what the search looks for.
pub open spec fn first_goal(state: GameState, goal: Goal, order: Seq<Position>, i: int) -> Option<int>
    decreases order.len() - i,
{
    if i < 0 || i >= order.len() {
        None
    } else if goal_holds(state, goal, order[i]) {
        Some(i)
    } else {
        first_goal(state, goal, order, i + 1)
    }
}

/// Looking at neighbours only appends passable, new neighbours of the expanded
/// square, each with that square as parent, and every passable neighbour looked
/// at ends up discovered.
pub(crate) proof fn lemma_discover_upto(
    state: GameState,
    terrain: Terrain,
    start: Position,
    f: Frontier,
    k: int,
)
    requires
        frontier_wf(state, terrain, start, f),
        f.head < f.order.len(),
        0 <= k <= 4,
    ensures
        ({
            let g = discover_upto(state, terrain, f, f.head, k);
            &&& g.head == f.head
            &&& frontier_prefix(f, g)
            &&& g.parent.len() == g.order.len()
            &&& g.order.no_duplicates()
            &&& forall|j: int|
                f.order.len() <= j < g.order.len() ==> passable(state, terrain, #[trigger] g.order[j])
            &&& forall|j: int| f.order.len() <= j < g.order.len() ==> #[trigger] g.parent[j] == f.head
            &&& forall|j: int|
                f.order.len() <= j < g.order.len() ==> adjacent(f.order[f.head], #[trigger] g.order[j])
            &&& forall|d: int|
                0 <= d < k && passable(state, terrain, #[trigger] neighbor(f.order[f.head], d))
                    ==> g.order.contains(neighbor(f.order[f.head], d))
        }),
    decreases k,
{
    if k > 0 {
        lemma_discover_upto(state, terrain, start, f, k - 1);
        let g0 = discover_upto(state, terrain, f, f.head, k - 1);
        let g = discover_upto(state, terrain, f, f.head, k);
        assert(g0.order[f.head] == f.order[f.head]);
        let c = neighbor(f.order[f.head], k - 1);
        assert forall|d: int|
            0 <= d < k && passable(state, terrain, #[trigger] neighbor(f.order[f.head], d))
                implies g.order.contains(neighbor(f.order[f.head], d)) by {
            if d < k - 1 {
                let t = choose|t: int| 0 <= t < g0.order.len() && g0.order[t] == neighbor(f.order[f.head], d);
                assert(g.order[t] == g0.order[t]);
            } else if g0.order.contains(c) {
                let t = choose|t: int| 0 <= t < g0.order.len() && g0.order[t] == c;
                assert(g.order[t] == g0.order[t]);
            } else {
                assert(g.order[g.order.len() - 1] == c);
            }
        }
        if passable(state, terrain, c) && !g0.order.contains(c) {
            assert(g.order == g0.order.push(c));
            assert(f.order =~= g.order.take(f.order.len() as int));
            assert(f.parent =~= g.parent.take(f.parent.len() as int));
            assert forall|j: int| f.order.len() <= j < g.order.len() implies adjacent(f.order[f.head], #[trigger] g.order[j]) by {
                if j == g.order.len() - 1 {
                    assert(neighbor(f.order[f.head], k - 1) == g.order[j]);
                } else {
                    assert(g.order[j] == g0.order[j]);
                }
            }
            assert forall|j: int| f.order.len() <= j < g.order.len() implies passable(state, terrain, #[trigger] g.order[j]) by {
                if j < g.order.len() - 1 {
                    assert(g.order[j] == g0.order[j]);
                }
            }
            assert forall|j: int| f.order.len() <= j < g.order.len() implies #[trigger] g.parent[j] == f.head by {
                if j < g.order.len() - 1 {
                    assert(g.parent[j] == g0.parent[j]);
                }
            }
        }
    } else {
        assert(f.order =~= f.order.take(f.order.len() as int));
        assert(f.parent =~= f.parent.take(f.parent.len() as int));
    }
}

/// A round keeps the shape of the search and only extends it.
pub(crate) proof fn lemma_step_wf(state: GameState, terrain: Terrain, start: Position, f: Frontier)
    requires
        frontier_wf(state, terrain, start, f),
    ensures
        frontier_wf(state, terrain, start, bfs_step(state, terrain, f)),
        frontier_prefix(f, bfs_step(state, terrain, f)),
        f.head < f.order.len() ==> bfs_step(state, terrain, f).head == f.head + 1,
        f.head == f.order.len() ==> bfs_step(state, terrain, f) == f,
{
    if f.head < f.order.len() {
        lemma_discover_upto(state, terrain, start, f, 4);
        let g = bfs_step(state, terrain, f);
        assert forall|k: int| 1 <= k < g.order.len() implies adjacent(g.order[g.parent[k]], #[trigger] g.order[k]) by {
            if k < f.order.len() {
                assert(g.order[k] == f.order[k]);
                assert(g.parent[k] == f.parent[k]);
                assert(g.order[f.parent[k]] == f.order[f.parent[k]]);
            } else {
                assert(g.order[f.head] == f.order[f.head]);
            }
        }
        assert forall|k: int| 1 <= k < g.order.len() implies 0 <= #[trigger] g.parent[k] < k && g.parent[k] < g.head by {
            if k < f.order.len() {
                assert(g.parent[k] == f.parent[k]);
            }
        }
        assert forall|k: int| 1 <= k < g.order.len() implies passable(state, terrain, #[trigger] g.order[k]) by {
            if k < f.order.len() {
                assert(g.order[k] == f.order[k]);
            }
        }
        assert(g.order[0] == f.order[0]);
        assert(g.parent[0] == f.parent[0]);
    } else {
        assert(f.order =~= f.order.take(f.order.len() as int));
        assert(f.parent =~= f.parent.take(f.parent.len() as int));
    }
}

/// Every search state has the shape of a search, and has expanded one square
/// per round until it finished.
pub(crate) proof fn lemma_explore_wf(state: GameState, terrain: Terrain, start: Position, n: nat)
    ensures
        frontier_wf(state, terrain, start, explore(state, terrain, start, n)),
        explore(state, terrain, start, n).head <= n,
        explore(state, terrain, start, n).head < n ==> finished(explore(state, terrain, start, n)),
    decreases n,
{
    if n > 0 {
        lemma_explore_wf(state, terrain, start, (n - 1) as nat);
        lemma_step_wf(state, terrain, start, explore(state, terrain, start, (n - 1) as nat));
    } else {
        assert(start_frontier(start).order.no_duplicates());
    }
}

/// Later search states extend earlier ones, and a finished search stays as it is.
pub(crate) proof fn lemma_explore_prefix(state: GameState, terrain: Terrain, start: Position, n: nat, m: nat)
    requires
        n <= m,
    ensures
        frontier_prefix(explore(state, terrain, start, n), explore(state, terrain, start, m)),
        finished(explore(state, terrain, start, n)) ==> explore(state, terrain, start, m)
            == explore(state, terrain, start, n),
    decreases m - n,
{
    let f = explore(state, terrain, start, n);
    if n == m {
        assert(f.order =~= f.order.take(f.order.len() as int));
        assert(f.parent =~= f.parent.take(f.parent.len() as int));
    } else {
        lemma_explore_prefix(state, terrain, start, n, (m - 1) as nat);
        let g = explore(state, terrain, start, (m - 1) as nat);
        lemma_explore_wf(state, terrain, start, (m - 1) as nat);
        lemma_step_wf(state, terrain, start, g);
        let h = explore(state, terrain, start, m);
        assert(f.order =~= h.order.take(f.order.len() as int)) by {
            assert(g.order =~= h.order.take(g.order.len() as int));
        }
        assert(f.parent =~= h.parent.take(f.parent.len() as int)) by {
            assert(g.parent =~= h.parent.take(g.parent.len() as int));
        }
    }
}

/// A search never discovers more squares than the board holds, plus its start.
pub(crate) proof fn lemma_frontier_len(state: GameState, terrain: Terrain, start: Position, f: Frontier)
    requires
        frontier_wf(state, terrain, start, f),
    ensures
        f.order.len() <= board_size(state.field) + 1,
{
    let field = state.field;
    let rest = f.order.drop_first();
    let idx = |p: Position| field.index_of(p);
    let ints = rest.map_values(idx);
    assert forall|i: int, j: int| 0 <= i < j < ints.len() implies ints[i] != ints[j] by {
        assert(rest[i] == f.order[i + 1]);
        assert(rest[j] == f.order[j + 1]);
        assert(passable(state, terrain, f.order[i + 1]));
        assert(passable(state, terrain, f.order[j + 1]));
        if ints[i] == ints[j] {
            crate::models::lemma_index_injective(field, rest[i], rest[j]);
            assert(f.order[i + 1] == f.order[j + 1]);
        }
    }
    if rest.len() > 0 {
        assert(passable(state, terrain, f.order[1]));
        assert(ints.no_duplicates());
        assert forall|i: int| 0 <= i < ints.len() implies 0 <= #[trigger] ints[i] < board_size(field) by {
            assert(passable(state, terrain, f.order[i + 1]));
            assert(rest[i] == f.order[i + 1]);
            crate::models::lemma_index_in_range(field, rest[i]);
        }
        lemma_distinct_in_range_len(ints, board_size(field));
    }
}

/// After as many rounds as the board has squares, plus one, the search is
/// complete.
pub(crate) proof fn lemma_search_tree_finished(state: GameState, terrain: Terrain, start: Position)
    ensures
        finished(search_tree(state, terrain, start)),
        frontier_wf(state, terrain, start, search_tree(state, terrain, start)),
{
    let n = (board_size(state.field) + 1) as nat;
    lemma_explore_wf(state, terrain, start, n);
    lemma_frontier_len(state, terrain, start, explore(state, terrain, start, n));
}

/// `first_goal` is the least index from `lo` on whose square matches.
pub(crate) proof fn lemma_first_goal(state: GameState, goal: Goal, order: Seq<Position>, lo: int, k: int)
    requires
        0 <= lo <= k <= order.len(),
        forall|j: int| lo <= j < k ==> !goal_holds(state, goal, #[trigger] order[j]),
    ensures
        k < order.len() && goal_holds(state, goal, order[k]) ==> first_goal(state, goal, order, lo)
            == Some(k),
        k == order.len() ==> first_goal(state, goal, order, lo) == None::<int>,
    decreases k - lo,
{
    if lo < k {
        lemma_first_goal(state, goal, order, lo + 1, k);
    }
}

/// What `first_goal` returns is an index of a matching square, and every square
/// before it from `lo` on does not match.
pub(crate) proof fn lemma_first_goal_spec(state: GameState, goal: Goal, order: Seq<Position>, lo: int)
    requires
        0 <= lo,
    ensures
        match first_goal(state, goal, order, lo) {
            Some(k) => lo <= k < order.len() && goal_holds(state, goal, order[k]) && forall|j: int|
                lo <= j < k ==> !goal_holds(state, goal, #[trigger] order[j]),
            None => forall|j: int| lo <= j < order.len() ==> !goal_holds(state, goal, #[trigger] order[j]),
        },
    decreases order.len() - lo,
{
    if lo < order.len() && !goal_holds(state, goal, order[lo]) {
        lemma_first_goal_spec(state, goal, order, lo + 1);
    }
}

/// The index of the square one step from the start on the tree path to square `k`.
pub open spec fn first_step(parent: Seq<int>, k: int) -> int
    decreases k,
{
    if k <= 0 || !(0 <= parent[k] < k) || parent[k] == 0 {
        k
    } else {
        first_step(parent, parent[k])
    }
}

/// The squares from the start to square `k` along the search tree.
pub open spec fn tree_path(order: Seq<Position>, parent: Seq<int>, k: int) -> Seq<Position>
    decreases k,
{
    if k <= 0 || !(0 <= parent[k] < k) {
        seq![order[0]]
    } else {
        tree_path(order, parent, parent[k]).push(order[k])
    }
}

/// The move that takes a player from `from` to `to`, when they are neighbours.
pub open spec fn step_action(from: Position, to: Position) -> Action {
    if to == neighbor(from, 0) {
        Action::MoveUp
    } else if to == neighbor(from, 1) {
        Action::MoveRight
    } else if to == neighbor(from, 2) {
        Action::MoveDown
    } else if to == neighbor(from, 3) {
        Action::MoveLeft
    } else {
        Action::DoNothing
    }
}

/// A player could stand on `pos` were it not for a bomb there: it is on the
/// board and neither wall nor box.
pub open spec fn standable(state: GameState, pos: Position) -> bool {
    &&& state.field.in_bounds(pos)
    &&& state.field.cell(pos) != CellType::Wall
    &&& state.field.cell(pos) != CellType::Box
}

/// The first move of the breadth-first path from `start` to `target` that
/// steps on walkable squares and may end on the target when it is a box, or
/// `DoNothing` when `start` is `target`, `start` is off the board, a wall or a
/// box, or `target` cannot be reached. A start with a bomb on it is left like
/// any other.
pub open spec fn next_action(state: GameState, start: Position, target: Position) -> Action {
    if start == target || !standable(state, start) {
        Action::DoNothing
    } else {
        let tree = search_tree(state, Terrain::Toward(target), start);
        match first_goal(state, Goal::Reach(target), tree.order, 1) {
            Some(k) => step_action(start, tree.order[first_step(tree.parent, k)]),
            None => Action::DoNothing,
        }
    }
}

/// `start` when it is walkable and safe; otherwise the first walkable, safe
/// square a breadth-first search over walkable squares discovers, or `start`
/// when there is none.
pub open spec fn nearest_safe(state: GameState, start: Position) -> Position {
    if walkable(state, start) && safe(state, start) {
        start
    } else {
        let tree = search_tree(state, Terrain::Walk, start);
        match first_goal(state, Goal::SafeSpot, tree.order, 1) {
            Some(k) => tree.order[k],
            None => start,
        }
    }
}

/// The first box a breadth-first search from `start` over non-wall squares
/// discovers (`start` itself included).
pub open spec fn nearest_box(state: GameState, start: Position) -> Option<Position> {
    let tree = search_tree(state, Terrain::Open, start);
    match first_goal(state, Goal::BoxCell, tree.order, 0) {
        Some(k) => Some(tree.order[k]),
        None => None,
    }
}

/// The tree path to square `k` starts at the start, ends at square `k`, and its
/// second square is the first step.
pub(crate) proof fn lemma_tree_path(order: Seq<Position>, parent: Seq<int>, k: int)
    requires
        0 <= k < order.len(),
        parent.len() == order.len(),
        forall|i: int| 1 <= i < order.len() ==> 0 <= #[trigger] parent[i] < i,
    ensures
        tree_path(order, parent, k).len() >= 1,
        tree_path(order, parent, k)[0] == order[0],
        tree_path(order, parent, k).last() == order[k],
        k >= 1 ==> tree_path(order, parent, k).len() >= 2,
        k >= 1 ==> tree_path(order, parent, k)[1] == order[first_step(parent, k)],
        1 <= first_step(parent, k) <= k || k == 0,
        k >= 1 ==> parent[first_step(parent, k)] == 0,
    decreases k,
{
    if k >= 1 {
        lemma_tree_path(order, parent, parent[k]);
    }
}

/// A square on the board can be stepped from.
pub(crate) proof fn lemma_in_bounds_steppable(field: Field, pos: Position)
    requires
        field.in_bounds(pos),
    ensures
        steppable(pos),
{
}

/// How many steps the search tree takes from the start to square `k`.
pub open spec fn depth(parent: Seq<int>, k: int) -> int
    decreases k,
{
    if k <= 0 || !(0 <= parent[k] < k) {
        0
    } else {
        depth(parent, parent[k]) + 1
    }
}

/// The layered shape of a breadth-first search: depths never decrease along the
/// queue, queued squares are at most one layer deeper than the one being
/// expanded, and every passable neighbour of an expanded square was discovered
/// at most one layer deeper.
pub open spec fn frontier_layered(state: GameState, terrain: Terrain, f: Frontier) -> bool {
    &&& forall|i: int, j: int|
        #![trigger depth(f.parent, i), depth(f.parent, j)]
        0 <= i <= j < f.order.len() ==> depth(f.parent, i) <= depth(f.parent, j)
    &&& f.head < f.order.len() ==> depth(f.parent, f.order.len() - 1) <= depth(f.parent, f.head) + 1
    &&& forall|u: int, d: int|
        0 <= u < f.head && 0 <= d < 4 && passable(state, terrain, #[trigger] neighbor(f.order[u], d))
            ==> exists|v: int|
            0 <= v < f.order.len() && #[trigger] f.order[v] == neighbor(f.order[u], d) && depth(
                f.parent,
                v,
            ) <= depth(f.parent, u) + 1
}

/// Depths only look at the parents of earlier squares.
pub(crate) proof fn lemma_depth_prefix(p: Seq<int>, q: Seq<int>, k: int)
    requires
        0 <= k < p.len() <= q.len(),
        p == q.take(p.len() as int),
    ensures
        depth(p, k) == depth(q, k),
    decreases k,
{
    if k > 0 && 0 <= p[k] < k {
        assert(p[k] == q[k]);
        lemma_depth_prefix(p, q, p[k]);
    } else if k > 0 {
        assert(p[k] == q[k]);
    }
}

/// A round keeps the layered shape of the search.
pub(crate) proof fn lemma_step_layered(state: GameState, terrain: Terrain, start: Position, f: Frontier)
    requires
        frontier_wf(state, terrain, start, f),
        frontier_layered(state, terrain, f),
    ensures
        frontier_layered(state, terrain, bfs_step(state, terrain, f)),
{
    if f.head < f.order.len() {
        lemma_discover_upto(state, terrain, start, f, 4);
        lemma_step_wf(state, terrain, start, f);
        let g = bfs_step(state, terrain, f);
        let h = f.head;
        let n = f.order.len();
        assert forall|i: int| 0 <= i < n implies #[trigger] depth(g.parent, i) == depth(f.parent, i) by {
            lemma_depth_prefix(f.parent, g.parent, i);
        }
        assert forall|j: int| n <= j < g.order.len() implies #[trigger] depth(g.parent, j) == depth(
            f.parent,
            h,
        ) + 1 by {
            assert(g.parent[j] == h);
            assert(depth(g.parent, h) == depth(f.parent, h));
        }
        assert forall|i: int, j: int|
            #![trigger depth(g.parent, i), depth(g.parent, j)]
            0 <= i <= j < g.order.len() implies depth(g.parent, i) <= depth(g.parent, j) by {
            if j < n {
                assert(depth(f.parent, i) <= depth(f.parent, j));
            } else if i < n {
                assert(depth(f.parent, i) <= depth(f.parent, n - 1));
            }
        }
        if h + 1 < g.order.len() {
            assert(depth(g.parent, h) <= depth(g.parent, h + 1));
            if g.order.len() > n {
                assert(depth(g.parent, g.order.len() - 1) == depth(f.parent, h) + 1);
            } else {
                assert(depth(g.parent, n - 1) == depth(f.parent, n - 1));
            }
        }
        assert forall|u: int, d: int|
            0 <= u < g.head && 0 <= d < 4 && passable(state, terrain, #[trigger] neighbor(g.order[u], d))
                implies exists|v: int|
            0 <= v < g.order.len() && #[trigger] g.order[v] == neighbor(g.order[u], d) && depth(
                g.parent,
                v,
            ) <= depth(g.parent, u) + 1 by {
            assert(g.order[u] == f.order[u]);
            if u < h {
                let v = choose|v: int|
                    0 <= v < f.order.len() && #[trigger] f.order[v] == neighbor(f.order[u], d) && depth(
                        f.parent,
                        v,
                    ) <= depth(f.parent, u) + 1;
                assert(g.order[v] == f.order[v]);
                assert(depth(g.parent, v) == depth(f.parent, v));
                assert(depth(g.parent, u) == depth(f.parent, u));
            } else {
                let c = neighbor(f.order[h], d);
                assert(g.order.contains(c));
                let v = choose|v: int| 0 <= v < g.order.len() && g.order[v] == c;
                assert(depth(g.parent, u) == depth(f.parent, h));
                if v < n {
                    assert(depth(f.parent, v) <= depth(f.parent, n - 1));
                    assert(depth(g.parent, v) == depth(f.parent, v));
                }
            }
        }
    }
}

/// Every search state has the layered shape.
pub(crate) proof fn lemma_explore_layered(state: GameState, terrain: Terrain, start: Position, n: nat)
    ensures
        frontier_layered(state, terrain, explore(state, terrain, start, n)),
    decreases n,
{
    if n > 0 {
        lemma_explore_layered(state, terrain, start, (n - 1) as nat);
        lemma_explore_wf(state, terrain, start, (n - 1) as nat);
        lemma_step_layered(state, terrain, start, explore(state, terrain, start, (n - 1) as nat));
    } else {
        let f = start_frontier(start);
        assert forall|i: int, j: int|
            #![trigger depth(f.parent, i), depth(f.parent, j)]
            0 <= i <= j < f.order.len() implies depth(f.parent, i) <= depth(f.parent, j) by {
        }
    }
}

/// `path` is a walk over `terrain`: consecutive squares are neighbours, and
/// every square after the first may be stepped onto.
pub open spec fn is_walk(state: GameState, terrain: Terrain, path: Seq<Position>) -> bool {
    &&& path.len() >= 1
    &&& forall|i: int|
        1 <= i < path.len() ==> adjacent(path[i - 1], #[trigger] path[i]) && passable(
            state,
            terrain,
            path[i],
        )
}

/// The square a player ends on after taking `a` from `from`.
pub open spec fn action_target(from: Position, a: Action) -> Position {
    match a {
        Action::MoveUp => neighbor(from, 0),
        Action::MoveRight => neighbor(from, 1),
        Action::MoveDown => neighbor(from, 2),
        Action::MoveLeft => neighbor(from, 3),
        _ => from,
    }
}

/// Every square of a walk from the start is discovered by the complete search,
/// no deeper in the search tree than its position on the walk.
proof fn lemma_walk_covered(state: GameState, terrain: Terrain, start: Position, w: Seq<Position>, i: int)
    requires
        is_walk(state, terrain, w),
        w[0] == start,
        0 <= i < w.len(),
    ensures
        ({
            let tree = search_tree(state, terrain, start);
            exists|v: int|
                0 <= v < tree.order.len() && tree.order[v] == w[i] && depth(tree.parent, v) <= i
        }),
    decreases i,
{
    let tree = search_tree(state, terrain, start);
    lemma_search_tree_finished(state, terrain, start);
    lemma_explore_layered(state, terrain, start, (board_size(state.field) + 1) as nat);
    if i == 0 {
        assert(tree.order[0] == w[0]);
    } else {
        lemma_walk_covered(state, terrain, start, w, i - 1);
        let u = choose|u: int|
            0 <= u < tree.order.len() && tree.order[u] == w[i - 1] && depth(tree.parent, u) <= i - 1;
        assert(adjacent(w[i - 1], w[i]) && passable(state, terrain, w[i]));
        let d = choose|d: int| 0 <= d < 4 && #[trigger] neighbor(w[i - 1], d) == w[i];
        assert(passable(state, terrain, neighbor(tree.order[u], d)));
    }
}

/// The tree path to a discovered square is a walk from the start whose length
/// is the square's depth.
proof fn lemma_tree_path_walk(state: GameState, terrain: Terrain, start: Position, f: Frontier, k: int)
    requires
        frontier_wf(state, terrain, start, f),
        0 <= k < f.order.len(),
    ensures
        is_walk(state, terrain, tree_path(f.order, f.parent, k)),
        tree_path(f.order, f.parent, k).len() == depth(f.parent, k) + 1,
    decreases k,
{
    if k >= 1 {
        let p = f.parent[k];
        lemma_tree_path_walk(state, terrain, start, f, p);
        lemma_tree_path(f.order, f.parent, p);
        let t = tree_path(f.order, f.parent, k);
        let t0 = tree_path(f.order, f.parent, p);
        assert forall|i: int| 1 <= i < t.len() implies adjacent(t[i - 1], #[trigger] t[i]) && passable(
            state,
            terrain,
            t[i],
        ) by {
            if i < t.len() - 1 {
                assert(t[i] == t0[i]);
                assert(t[i - 1] == t0[i - 1]);
            } else {
                assert(t[i - 1] == t0.last());
                assert(passable(state, terrain, f.order[k]));
            }
        }
    }
}

/// A walk from the start to the first goal square that the search finds, no
/// longer than any walk from the start to a goal square at search index `v`.
proof fn lemma_first_goal_nearest(
    state: GameState,
    terrain: Terrain,
    start: Position,
    goal: Goal,
    lo: int,
    w: Seq<Position>,
)
    requires
        0 <= lo <= 1,
        is_walk(state, terrain, w),
        w[0] == start,
        goal_holds(state, goal, w.last()),
        lo == 1 ==> w.last() != start,
    ensures
        ({
            let tree = search_tree(state, terrain, start);
            match first_goal(state, goal, tree.order, lo) {
                Some(k) => {
                    &&& 0 <= k < tree.order.len()
                    &&& goal_holds(state, goal, tree.order[k])
                    &&& is_walk(state, terrain, tree_path(tree.order, tree.parent, k))
                    &&& tree_path(tree.order, tree.parent, k).len() <= w.len()
                    &&& tree_path(tree.order, tree.parent, k)[0] == start
                    &&& tree_path(tree.order, tree.parent, k).last() == tree.order[k]
                    &&& (k >= 1 ==> tree_path(tree.order, tree.parent, k)[1] == tree.order[first_step(
                        tree.parent,
                        k,
                    )])
                    &&& (k >= 1 ==> adjacent(start, tree.order[first_step(tree.parent, k)]))
                    &&& (k >= 1 ==> passable(state, terrain, tree.order[first_step(tree.parent, k)]))
                },
                None => false,
            }
        }),
{
    let tree = search_tree(state, terrain, start);
    lemma_search_tree_finished(state, terrain, start);
    lemma_explore_layered(state, terrain, start, (board_size(state.field) + 1) as nat);
    lemma_walk_covered(state, terrain, start, w, w.len() - 1);
    let v = choose|v: int|
        0 <= v < tree.order.len() && tree.order[v] == w[w.len() - 1] && depth(tree.parent, v) <= w.len()
            - 1;
    assert(v >= lo);
    lemma_first_goal_spec(state, goal, tree.order, lo);
    match first_goal(state, goal, tree.order, lo) {
        Some(k) => {
            assert(k <= v);
            assert(depth(tree.parent, k) <= depth(tree.parent, v));
            lemma_tree_path_walk(state, terrain, start, tree, k);
            lemma_tree_path(tree.order, tree.parent, k);
            if k >= 1 {
                let fs = first_step(tree.parent, k);
                assert(tree.parent[fs] == 0);
                assert(passable(state, terrain, tree.order[fs]));
            }
        },
        None => {
            assert(!goal_holds(state, goal, tree.order[v]));
        },
    }
}

/// Taking the move `step_action(from, to)` from `from` ends on `to` when the two
/// are neighbours.
proof fn lemma_step_action_target(from: Position, to: Position)
    requires
        adjacent(from, to),
    ensures
        action_target(from, step_action(from, to)) == to,
        step_action(from, to) != Action::DoNothing,
{
}

/// The move towards a reachable target is optimal: from a start on the board
/// that is neither wall nor box (a bomb may lie there), it leads to a
/// neighbour that is walkable or is the target itself, from which the target
/// can be reached by a walk strictly shorter than any walk from the start
/// (walks step on walkable squares, and may end on the target when it is a box).
pub proof fn law_next_action_is_shortest(
    state: GameState,
    start: Position,
    target: Position,
    w: Seq<Position>,
)
    requires
        start != target,
        standable(state, start),
        is_walk(state, Terrain::Toward(target), w),
        w[0] == start,
        w.last() == target,
    ensures
        ({
            let n = action_target(start, next_action(state, start, target));
            &&& next_action(state, start, target) != Action::DoNothing
            &&& adjacent(start, n)
            &&& walkable(state, n) || n == target
            &&& exists|rest: Seq<Position>|
                is_walk(state, Terrain::Toward(target), rest) && rest[0] == n && rest.last() == target
                    && rest.len() < w.len()
        }),
{
    let terrain = Terrain::Toward(target);
    let tree = search_tree(state, terrain, start);
    lemma_first_goal_nearest(state, terrain, start, Goal::Reach(target), 1, w);
    lemma_first_goal_spec(state, Goal::Reach(target), tree.order, 1);
    let k = first_goal(state, Goal::Reach(target), tree.order, 1)->Some_0;
    let fs = first_step(tree.parent, k);
    let path = tree_path(tree.order, tree.parent, k);
    let n = tree.order[fs];
    lemma_step_action_target(start, n);
    let rest = path.drop_first();
    assert(is_walk(state, terrain, rest)) by {
        assert forall|i: int| 1 <= i < rest.len() implies adjacent(rest[i - 1], #[trigger] rest[i])
            && passable(state, terrain, rest[i]) by {
            assert(rest[i] == path[i + 1]);
            assert(rest[i - 1] == path[i]);
        }
    }
    assert(rest.last() == path.last());
}

/// The square `get_nearest_safe_position` returns is walkable and safe whenever
/// some walkable, safe square can be reached, and no walk from the start reaches
/// a walkable, safe square in fewer steps.
pub proof fn law_nearest_safe_is_nearest(state: GameState, start: Position, w: Seq<Position>)
    requires
        is_walk(state, Terrain::Walk, w),
        w[0] == start,
        walkable(state, w.last()),
        safe(state, w.last()),
    ensures
        ({
            let p = nearest_safe(state, start);
            &&& walkable(state, p)
            &&& safe(state, p)
            &&& exists|path: Seq<Position>|
                is_walk(state, Terrain::Walk, path) && path[0] == start && path.last() == p
                    && path.len() <= w.len()
        }),
{
    if walkable(state, start) && safe(state, start) {
        let path = seq![start];
        assert(is_walk(state, Terrain::Walk, path));
        assert(nearest_safe(state, start) == start);
        assert(path.last() == start);
        assert(path.len() <= w.len());
    } else {
        lemma_first_goal_nearest(state, Terrain::Walk, start, Goal::SafeSpot, 1, w);
        let tree = search_tree(state, Terrain::Walk, start);
        assert(first_goal(state, Goal::SafeSpot, tree.order, 1) is Some);
        let k = first_goal(state, Goal::SafeSpot, tree.order, 1)->Some_0;
        assert(nearest_safe(state, start) == tree.order[k]);
        assert(goal_holds(state, Goal::SafeSpot, tree.order[k]));
        let path = tree_path(tree.order, tree.parent, k);
        assert(is_walk(state, Terrain::Walk, path) && path[0] == start && path.last() == nearest_safe(
            state,
            start,
        ));
        assert(path.len() <= w.len());
    }
}

/// `find_nearest_box` finds a box whenever a walk over non-wall squares reaches
/// one, and no such walk reaches a box in fewer steps than the one it finds.
pub proof fn law_nearest_box_is_nearest(state: GameState, start: Position, w: Seq<Position>)
    requires
        is_walk(state, Terrain::Open, w),
        w[0] == start,
        state.field.cell(w.last()) == CellType::Box,
    ensures
        ({
            let b = nearest_box(state, start);
            &&& b is Some
            &&& state.field.cell(b->Some_0) == CellType::Box
            &&& exists|path: Seq<Position>|
                is_walk(state, Terrain::Open, path) && path[0] == start && path.last() == b->Some_0
                    && path.len() <= w.len()
        }),
{
    lemma_first_goal_nearest(state, Terrain::Open, start, Goal::BoxCell, 0, w);
    let tree = search_tree(state, Terrain::Open, start);
    let k = first_goal(state, Goal::BoxCell, tree.order, 0)->Some_0;
    let path = tree_path(tree.order, tree.parent, k);
    assert(is_walk(state, Terrain::Open, path) && path[0] == start && path.last() == tree.order[k]);
}

/// `b` is one square up, down, left or right of `a`.
pub open spec fn next_to(a: Position, b: Position) -> bool {
    ||| a.x == b.x && (b.y == a.y + 1 || b.y == a.y - 1)
    ||| a.y == b.y && (b.x == a.x + 1 || b.x == a.x - 1)
}

/// `path` goes from square to orthogonally neighbouring square, and every
/// square after the first is on the board and is not a wall: boxes and bombs
/// may be crossed.
pub open spec fn wall_free_walk(state: GameState, path: Seq<Position>) -> bool {
    &&& path.len() >= 1
    &&& forall|i: int|
        1 <= i < path.len() ==> next_to(path[i - 1], #[trigger] path[i]) && state.field.in_bounds(path[i])
            && state.field.cell(path[i]) != CellType::Wall
}

/// A wall-free walk is a walk over the open terrain.
proof fn lemma_wall_free_walk_is_open_walk(state: GameState, path: Seq<Position>)
    requires
        wall_free_walk(state, path),
    ensures
        is_walk(state, Terrain::Open, path),
{
    assert forall|i: int| 1 <= i < path.len() implies adjacent(path[i - 1], #[trigger] path[i])
        && passable(state, Terrain::Open, path[i]) by {
        let a = path[i - 1];
        let b = path[i];
        assert(next_to(a, b));
        if a.x == b.x && b.y == a.y - 1 {
            assert(neighbor(a, 0) == b);
        } else if a.y == b.y && b.x == a.x + 1 {
            assert(neighbor(a, 1) == b);
        } else if a.x == b.x && b.y == a.y + 1 {
            assert(neighbor(a, 2) == b);
        } else {
            assert(neighbor(a, 3) == b);
        }
    }
}

/// A walk over the open terrain from a square that can be stepped from is a
/// wall-free walk.
proof fn lemma_open_walk_is_wall_free_walk(state: GameState, path: Seq<Position>)
    requires
        is_walk(state, Terrain::Open, path),
        steppable(path[0]),
    ensures
        wall_free_walk(state, path),
{
    assert forall|i: int| 1 <= i < path.len() implies next_to(path[i - 1], #[trigger] path[i])
        && state.field.in_bounds(path[i]) && state.field.cell(path[i]) != CellType::Wall by {
        let a = path[i - 1];
        assert(adjacent(a, path[i]) && passable(state, Terrain::Open, path[i]));
        if i >= 2 {
            assert(passable(state, Terrain::Open, path[i - 1]));
            lemma_in_bounds_steppable(state.field, a);
        }
        let d = choose|d: int| 0 <= d < 4 && #[trigger] neighbor(a, d) == path[i];
    }
}

/// The box search crosses boxes and bombs alike and stops only at walls:
/// whenever a walk from `start` over orthogonal neighbours, each on the board
/// and not a wall, reaches a box, `find_nearest_box` finds a box, and some such
/// walk reaches the box it finds in no more steps.
pub proof fn law_box_search_crosses_bombs(state: GameState, start: Position, w: Seq<Position>)
    requires
        steppable(start),
        wall_free_walk(state, w),
        w[0] == start,
        state.field.cell(w.last()) == CellType::Box,
    ensures
        nearest_box(state, start) matches Some(b) && state.field.cell(b) == CellType::Box
            && exists|path: Seq<Position>|
            wall_free_walk(state, path) && path[0] == start && path.last() == b && path.len() <= w.len(),
{
    lemma_wall_free_walk_is_open_walk(state, w);
    law_nearest_box_is_nearest(state, start, w);
    let b = nearest_box(state, start)->Some_0;
    let path = choose|path: Seq<Position>|
        is_walk(state, Terrain::Open, path) && path[0] == start && path.last() == b && path.len() <= w.len();
    lemma_open_walk_is_wall_free_walk(state, path);
}

/// Each move's server name says where it leads: `move_up` one row up (`y`
/// smaller by one), `move_down` one row down, `move_left` one column left
/// (`x` smaller by one), `move_right` one column right; `place_bomb` and
/// `nothing` leave the player where it stands.
pub proof fn law_action_names_match_moves(a: Action, p: Position)
    requires
        steppable(p),
    ensures
        a.wire_text() == "move_up"@ ==> action_target(p, a).x == p.x && action_target(p, a).y == p.y - 1,
        a.wire_text() == "move_down"@ ==> action_target(p, a).x == p.x && action_target(p, a).y == p.y + 1,
        a.wire_text() == "move_left"@ ==> action_target(p, a).x == p.x - 1 && action_target(p, a).y == p.y,
        a.wire_text() == "move_right"@ ==> action_target(p, a).x == p.x + 1 && action_target(p, a).y == p.y,
        a.wire_text() == "place_bomb"@ ==> action_target(p, a) == p,
        a.wire_text() == "nothing"@ ==> action_target(p, a) == p,
{
    crate::enums::law_action_names(a, a.wire_text());
}

} // verus!
