use vstd::prelude::*;

verus! {

/// The count stored in a cell that is itself a mine.
pub const MINE: i8 = -9;

/// What the player sees of a cell.
#[allow(non_camel_case_types)]
#[derive(Clone, Copy, Debug, PartialEq, Eq, Structural)]
pub enum CellState {
    HIDDEN,
    REVEALED,
    FLAGGED,
    /// Swept open by the animation after the game ended.
    REVEALED_AFTER_END,
}

/// One grid position. A negative `mines_seen` marks a mine; otherwise it is
/// the number of mines among the cell's neighbors.
#[derive(Clone, Copy, Debug, PartialEq, Eq, Structural)]
pub struct Cell {
    pub mines_seen: i8,
    pub cell_state: CellState,
}

pub open spec fn is_mine(c: Cell) -> bool {
    c.mines_seen < 0
}

/// A cell the player has not opened: hidden or flagged.
pub open spec fn is_unrevealed(c: Cell) -> bool {
    c.cell_state == CellState::HIDDEN || c.cell_state == CellState::FLAGGED
}

pub open spec fn is_unrevealed_safe(c: Cell) -> bool {
    is_unrevealed(c) && !is_mine(c)
}

pub open spec fn is_flagged(c: Cell) -> bool {
    c.cell_state == CellState::FLAGGED
}

/// A cell that is flagged, or was swept open after the end of the game.
pub open spec fn is_marked(c: Cell) -> bool {
    c.cell_state == CellState::FLAGGED || c.cell_state == CellState::REVEALED_AFTER_END
}

/// Every mine of the grid holds the sentinel count.
pub open spec fn mines_marked(g: Seq<Vec<Cell>>) -> bool {
    forall|x: int, y: int| in_bounds(g, x, y) && is_mine(#[trigger] cell_at(g, x, y))
        ==> cell_at(g, x, y).mines_seen == MINE
}

/// A grid of `width` columns and `height` rows, stored row by row.
pub open spec fn is_rect(g: Seq<Vec<Cell>>, width: int, height: int) -> bool {
    &&& g.len() == height
    &&& forall|j: int| 0 <= j < height ==> (#[trigger] g[j])@.len() == width
}

pub open spec fn in_bounds(g: Seq<Vec<Cell>>, x: int, y: int) -> bool {
    0 <= y < g.len() && 0 <= x < g[y]@.len()
}

pub open spec fn cell_at(g: Seq<Vec<Cell>>, x: int, y: int) -> Cell {
    g[y]@[x]
}

/// (i, j) is one of the up to eight cells around (x, y).
pub open spec fn adjacent(x: int, y: int, i: int, j: int) -> bool {
    &&& !(i == x && j == y)
    &&& x - 1 <= i <= x + 1
    &&& y - 1 <= j <= y + 1
}

pub open spec fn abs(v: int) -> int {
    if v < 0 { -v } else { v }
}

pub open spec fn manhattan(x1: int, y1: int, x2: int, y2: int) -> int {
    abs(x1 - x2) + abs(y1 - y2)
}

pub open spec fn mine_at(g: Seq<Vec<Cell>>, x: int, y: int) -> int {
    if in_bounds(g, x, y) && is_mine(cell_at(g, x, y)) { 1 } else { 0 }
}

/// The number of mines among the in-bounds neighbors of (x, y).
pub open spec fn mine_neighbor_count(g: Seq<Vec<Cell>>, x: int, y: int) -> int {
    mine_at(g, x - 1, y - 1) + mine_at(g, x, y - 1) + mine_at(g, x + 1, y - 1)
        + mine_at(g, x - 1, y) + mine_at(g, x + 1, y)
        + mine_at(g, x - 1, y + 1) + mine_at(g, x, y + 1) + mine_at(g, x + 1, y + 1)
}

/// Every cell that is not a mine holds the number of its mine neighbors.
pub open spec fn counts_consistent(g: Seq<Vec<Cell>>) -> bool {
    forall|x: int, y: int|
        in_bounds(g, x, y) && !is_mine(#[trigger] cell_at(g, x, y))
            ==> cell_at(g, x, y).mines_seen == mine_neighbor_count(g, x, y)
}

/// `g2` has the shape of `g1`, and every count of `g1`.
pub open spec fn same_counts(g1: Seq<Vec<Cell>>, g2: Seq<Vec<Cell>>) -> bool {
    &&& g2.len() == g1.len()
    &&& forall|j: int| 0 <= j < g1.len() ==> (#[trigger] g2[j])@.len() == g1[j]@.len()
    &&& forall|i: int, j: int| in_bounds(g1, i, j)
        ==> (#[trigger] cell_at(g2, i, j)).mines_seen == cell_at(g1, i, j).mines_seen
}

/// `g2` has the shape of `g1`, and every cell of `g1` but the one at (x, y).
pub open spec fn same_except(g1: Seq<Vec<Cell>>, g2: Seq<Vec<Cell>>, x: int, y: int) -> bool {
    &&& g2.len() == g1.len()
    &&& forall|j: int| 0 <= j < g1.len() ==> (#[trigger] g2[j])@.len() == g1[j]@.len()
    &&& forall|i: int, j: int| in_bounds(g1, i, j) && !(i == x && j == y)
        ==> #[trigger] cell_at(g2, i, j) == cell_at(g1, i, j)
}

/// Changing cell states alone keeps every count right, and every mine
/// marked.
pub proof fn lemma_consistent_same_counts(g1: Seq<Vec<Cell>>, g2: Seq<Vec<Cell>>)
    requires
        counts_consistent(g1),
        same_counts(g1, g2),
    ensures
        counts_consistent(g2),
        mines_marked(g1) ==> mines_marked(g2),
{
    assert forall|x: int, y: int| in_bounds(g2, x, y) && mines_marked(g1) && is_mine(#[trigger] cell_at(g2, x, y))
        implies cell_at(g2, x, y).mines_seen == MINE by {
        assert(in_bounds(g1, x, y));
        assert(cell_at(g2, x, y).mines_seen == cell_at(g1, x, y).mines_seen);
    }
    assert forall|a: int, b: int| #[trigger] mine_at(g2, a, b) == mine_at(g1, a, b) by {
        if in_bounds(g1, a, b) {
            assert(cell_at(g2, a, b).mines_seen == cell_at(g1, a, b).mines_seen);
        }
    }
    assert forall|x: int, y: int|
        in_bounds(g2, x, y) && !is_mine(#[trigger] cell_at(g2, x, y))
            implies cell_at(g2, x, y).mines_seen == mine_neighbor_count(g2, x, y) by {
        assert(in_bounds(g1, x, y));
        assert(cell_at(g2, x, y).mines_seen == cell_at(g1, x, y).mines_seen);
    }
}

pub open spec fn mine_pred() -> spec_fn(Cell) -> bool {
    |c: Cell| is_mine(c)
}

pub open spec fn safe_pred() -> spec_fn(Cell) -> bool {
    |c: Cell| !is_mine(c)
}

pub open spec fn unrevealed_safe_pred() -> spec_fn(Cell) -> bool {
    |c: Cell| is_unrevealed_safe(c)
}

pub open spec fn flagged_pred() -> spec_fn(Cell) -> bool {
    |c: Cell| is_flagged(c)
}

pub open spec fn marked_pred() -> spec_fn(Cell) -> bool {
    |c: Cell| is_marked(c)
}

} // verus!
