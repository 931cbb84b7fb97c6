use vstd::prelude::*;
use crate::cell::{Cell, CellState, is_mine, is_rect, in_bounds, cell_at, adjacent};
use crate::counting::{grid_count, lemma_grid_count_set};

verus! {

/// The grid has at least one row, and every row as many cells as the first.
pub open spec fn well_shaped(g: Seq<Vec<Cell>>) -> bool {
    g.len() > 0 && is_rect(g, g[0]@.len() as int, g.len() as int)
}

/// `g2` is `g1` with the counts of the non-mine neighbors of (x, y) one higher.
pub open spec fn neighbors_incremented(g1: Seq<Vec<Cell>>, g2: Seq<Vec<Cell>>, x: int, y: int) -> bool {
    &&& g2.len() == g1.len()
    &&& forall|j: int| 0 <= j < g1.len() ==> (#[trigger] g2[j])@.len() == g1[j]@.len()
    &&& forall|i: int, j: int| #![trigger cell_at(g2, i, j)] in_bounds(g1, i, j) ==> {
        &&& cell_at(g2, i, j).cell_state == cell_at(g1, i, j).cell_state
        &&& cell_at(g2, i, j).mines_seen == cell_at(g1, i, j).mines_seen
            + if adjacent(x, y, i, j) && !is_mine(cell_at(g1, i, j)) { 1int } else { 0int }
    }
}

fn bump(grid: &mut Vec<Vec<Cell>>, x: usize, y: usize)
    requires
        in_bounds(old(grid)@, x as int, y as int),
        !is_mine(cell_at(old(grid)@, x as int, y as int)) ==> cell_at(old(grid)@, x as int, y as int).mines_seen < 127,
    ensures
        final(grid)@.len() == old(grid)@.len(),
        forall|j: int| 0 <= j < old(grid)@.len() ==> (#[trigger] final(grid)@[j])@.len() == old(grid)@[j]@.len(),
        forall|i: int, j: int| #![trigger cell_at(final(grid)@, i, j)] in_bounds(old(grid)@, i, j) ==> {
            &&& cell_at(final(grid)@, i, j).cell_state == cell_at(old(grid)@, i, j).cell_state
            &&& cell_at(final(grid)@, i, j).mines_seen == cell_at(old(grid)@, i, j).mines_seen
                + if i == x && j == y && !is_mine(cell_at(old(grid)@, i, j)) { 1int } else { 0int }
        },
{
    if grid[y][x].mines_seen >= 0 {
        grid[y][x].mines_seen = grid[y][x].mines_seen + 1;
    }
}

/// Adds one to the count of every neighbor of (x, y) that is not itself a mine.
#[verifier::rlimit(40)]
pub fn incriment_neighbors(x: usize, y: usize, grid: &mut Vec<Vec<Cell>>)
    requires
        well_shaped(old(grid)@),
        in_bounds(old(grid)@, x as int, y as int),
        forall|i: int, j: int|
            in_bounds(old(grid)@, i, j) && adjacent(x as int, y as int, i, j)
                && !is_mine(#[trigger] cell_at(old(grid)@, i, j))
                ==> cell_at(old(grid)@, i, j).mines_seen < 127,
    ensures
        neighbors_incremented(old(grid)@, final(grid)@, x as int, y as int),
{
    let ghost g0 = grid@;
    let height = grid.len();
    let width = grid[0].len();
    assert(grid@[y as int]@.len() == width);
    if y > 0 {
        if x > 0 {
            bump(grid, x - 1, y - 1);
        }
        bump(grid, x, y - 1);
        if x + 1 < width {
            bump(grid, x + 1, y - 1);
        }
    }
    if x > 0 {
        bump(grid, x - 1, y);
    }
    if x + 1 < width {
        bump(grid, x + 1, y);
    }
    if y + 1 < height {
        if x > 0 {
            bump(grid, x - 1, y + 1);
        }
        bump(grid, x, y + 1);
        if x + 1 < width {
            bump(grid, x + 1, y + 1);
        }
    }
}

pub open spec fn is_hidden_safe(c: Cell) -> bool {
    c.cell_state == CellState::HIDDEN && !is_mine(c)
}

pub open spec fn hidden_safe_pred() -> spec_fn(Cell) -> bool {
    |c: Cell| is_hidden_safe(c)
}

/// The cell at (i, j) was hidden and safe in `g1` and is revealed in `g2`.
pub open spec fn newly_opened(g1: Seq<Vec<Cell>>, g2: Seq<Vec<Cell>>, i: int, j: int) -> bool {
    is_hidden_safe(cell_at(g1, i, j)) && cell_at(g2, i, j).cell_state == CellState::REVEALED
}

/// `g2` differs from `g1` only in hidden safe cells that it reveals.
pub open spec fn opens_only(g1: Seq<Vec<Cell>>, g2: Seq<Vec<Cell>>) -> bool {
    &&& g2.len() == g1.len()
    &&& forall|j: int| 0 <= j < g1.len() ==> (#[trigger] g2[j])@.len() == g1[j]@.len()
    &&& forall|i: int, j: int| #![trigger cell_at(g2, i, j)] in_bounds(g1, i, j) ==> {
        &&& cell_at(g2, i, j).mines_seen == cell_at(g1, i, j).mines_seen
        &&& (cell_at(g2, i, j).cell_state == cell_at(g1, i, j).cell_state || newly_opened(g1, g2, i, j))
    }
}

/// Every cell that `g2` opens of `g1` is a neighbor of (x, y).
pub open spec fn opens_around(g1: Seq<Vec<Cell>>, g2: Seq<Vec<Cell>>, x: int, y: int) -> bool {
    forall|i: int, j: int| in_bounds(g1, i, j) && #[trigger] newly_opened(g1, g2, i, j) ==> adjacent(x, y, i, j)
}

/// Each cell that `g2` opens of `g1` has a neighbor of lower rank from
/// which the fill reached it: the start (x, y), of rank 0, or an opened
/// cell with no mine around it. Following such neighbors leads back to
/// the start, so the opened cells form one connected region with it.
pub open spec fn linked(g1: Seq<Vec<Cell>>, g2: Seq<Vec<Cell>>, x: int, y: int, rank: Map<(int, int), int>) -> bool {
    &&& rank.contains_key((x, y)) && rank[(x, y)] == 0
    &&& forall|i: int, j: int| in_bounds(g1, i, j) && #[trigger] newly_opened(g1, g2, i, j) && !(i == x && j == y) ==> {
        &&& rank.contains_key((i, j))
        &&& rank[(i, j)] > 0
        &&& exists|a: int, b: int| #[trigger] adjacent(a, b, i, j) && in_bounds(g1, a, b) && rank.contains_key((a, b))
            && rank[(a, b)] < rank[(i, j)] && spreads(g1, g2, x, y, a, b)
    }
}

/// The links of a fill from (x, y) over `g1` hold over `g0` too, where
/// `g0` has the states of `g1` and no mine where `g1` has none, outside
/// (x, y), and the fill changed no count and revealed no mine.
pub proof fn lemma_linked_from_earlier(g0: Seq<Vec<Cell>>, g1: Seq<Vec<Cell>>, g2: Seq<Vec<Cell>>, x: int, y: int, rank: Map<(int, int), int>)
    requires
        linked(g1, g2, x, y, rank),
        g1.len() == g0.len(),
        forall|j: int| 0 <= j < g0.len() ==> (#[trigger] g1[j])@.len() == g0[j]@.len(),
        forall|i: int, j: int| in_bounds(g0, i, j) && !(i == x && j == y) ==> {
            &&& (#[trigger] cell_at(g1, i, j)).cell_state == cell_at(g0, i, j).cell_state
            &&& (!is_mine(cell_at(g1, i, j)) ==> !is_mine(cell_at(g0, i, j)))
        },
        forall|i: int, j: int| in_bounds(g1, i, j) && !(i == x && j == y) ==> {
            &&& (#[trigger] cell_at(g2, i, j)).mines_seen == cell_at(g1, i, j).mines_seen
            &&& (cell_at(g2, i, j).cell_state != cell_at(g1, i, j).cell_state ==> !is_mine(cell_at(g2, i, j)))
        },
    ensures
        linked(g0, g2, x, y, rank),
{
    assert forall|i: int, j: int| in_bounds(g0, i, j) && #[trigger] newly_opened(g0, g2, i, j) && !(i == x && j == y) implies {
        &&& rank.contains_key((i, j))
        &&& rank[(i, j)] > 0
        &&& exists|a: int, b: int| #[trigger] adjacent(a, b, i, j) && in_bounds(g0, a, b) && rank.contains_key((a, b))
            && rank[(a, b)] < rank[(i, j)] && spreads(g0, g2, x, y, a, b)
    } by {
        assert(cell_at(g1, i, j) == cell_at(g1, i, j));
        assert(in_bounds(g1, i, j));
        assert(cell_at(g2, i, j) == cell_at(g2, i, j));
        assert(newly_opened(g1, g2, i, j));
        let (a, b) = choose|a: int, b: int| #[trigger] adjacent(a, b, i, j) && in_bounds(g1, a, b) && rank.contains_key((a, b))
            && rank[(a, b)] < rank[(i, j)] && spreads(g1, g2, x, y, a, b);
        assert(in_bounds(g0, a, b));
        if !(a == x && b == y) {
            assert(cell_at(g1, a, b) == cell_at(g1, a, b));
        }
        assert(spreads(g0, g2, x, y, a, b));
    }
}

/// No neighbor of (x, y) is still hidden and safe.
pub open spec fn neighbors_settled(g: Seq<Vec<Cell>>, x: int, y: int) -> bool {
    forall|a: int, b: int|
        in_bounds(g, a, b) && adjacent(x, y, a, b) ==> !is_hidden_safe(#[trigger] cell_at(g, a, b))
}

/// A cell from which the fill spreads: the start, or an opened cell with no
/// mine around it.
pub open spec fn spreads(g1: Seq<Vec<Cell>>, g2: Seq<Vec<Cell>>, x: int, y: int, i: int, j: int) -> bool {
    (i == x && j == y) || (newly_opened(g1, g2, i, j) && cell_at(g2, i, j).mines_seen == 0)
}

/// (i, j) stands in `s` at or after position `lo`.
pub open spec fn on_stack(s: Seq<(usize, usize)>, lo: int, i: int, j: int) -> bool {
    exists|k: int| lo <= k < s.len() && (#[trigger] s[k]).0 == i && s[k].1 == j
}

/// `s2` is `s1` with cells appended that went from `g1` to `g2` opened and
/// have no mine around them.
pub open spec fn pushes_opened(g1: Seq<Vec<Cell>>, g2: Seq<Vec<Cell>>, s1: Seq<(usize, usize)>, s2: Seq<(usize, usize)>) -> bool {
    &&& s2.len() >= s1.len()
    &&& forall|k: int| 0 <= k < s1.len() ==> #[trigger] s2[k] == s1[k]
    &&& forall|k: int| s1.len() <= k < s2.len() ==> {
        let (i, j) = #[trigger] s2[k];
        &&& in_bounds(g1, i as int, j as int)
        &&& newly_opened(g1, g2, i as int, j as int)
        &&& cell_at(g2, i as int, j as int).mines_seen == 0
    }
    &&& forall|i: int, j: int|
        in_bounds(g1, i, j) && #[trigger] newly_opened(g1, g2, i, j) && cell_at(g2, i, j).mines_seen == 0
            ==> on_stack(s2, s1.len() as int, i, j)
}

proof fn lemma_opens_only_trans(g1: Seq<Vec<Cell>>, g2: Seq<Vec<Cell>>, g3: Seq<Vec<Cell>>)
    requires
        opens_only(g1, g2),
        opens_only(g2, g3),
    ensures
        opens_only(g1, g3),
{
    assert forall|i: int, j: int| #![trigger cell_at(g3, i, j)] in_bounds(g1, i, j) implies {
        &&& cell_at(g3, i, j).mines_seen == cell_at(g1, i, j).mines_seen
        &&& (cell_at(g3, i, j).cell_state == cell_at(g1, i, j).cell_state || newly_opened(g1, g3, i, j))
    } by {
        assert(in_bounds(g2, i, j));
        assert(cell_at(g2, i, j).mines_seen == cell_at(g1, i, j).mines_seen);
    }
}

proof fn lemma_opens_trans(
    g1: Seq<Vec<Cell>>, g2: Seq<Vec<Cell>>, g3: Seq<Vec<Cell>>,
    s1: Seq<(usize, usize)>, s2: Seq<(usize, usize)>, s3: Seq<(usize, usize)>,
)
    requires
        opens_only(g1, g2),
        opens_only(g2, g3),
        pushes_opened(g1, g2, s1, s2),
        pushes_opened(g2, g3, s2, s3),
    ensures
        opens_only(g1, g3),
        pushes_opened(g1, g3, s1, s3),
{
    lemma_opens_only_trans(g1, g2, g3);
    assert forall|k: int| s1.len() <= k < s3.len() implies {
        let (i, j) = #[trigger] s3[k];
        &&& in_bounds(g1, i as int, j as int)
        &&& newly_opened(g1, g3, i as int, j as int)
        &&& cell_at(g3, i as int, j as int).mines_seen == 0
    } by {
        let (i, j) = s3[k];
        if k < s2.len() {
            assert(s2[k] == s3[k]);
            assert(in_bounds(g2, i as int, j as int));
            assert(cell_at(g3, i as int, j as int) == cell_at(g3, i as int, j as int));
        } else {
            assert(in_bounds(g2, i as int, j as int));
            assert(cell_at(g2, i as int, j as int) == cell_at(g2, i as int, j as int));
        }
    }
    assert forall|i: int, j: int|
        in_bounds(g1, i, j) && #[trigger] newly_opened(g1, g3, i, j) && cell_at(g3, i, j).mines_seen == 0
            implies on_stack(s3, s1.len() as int, i, j) by {
        assert(in_bounds(g2, i, j));
        assert(cell_at(g3, i, j) == cell_at(g3, i, j));
        if newly_opened(g1, g2, i, j) {
            assert(cell_at(g2, i, j) == cell_at(g2, i, j));
            let k = choose|k: int| s1.len() <= k < s2.len() && (#[trigger] s2[k]).0 == i && s2[k].1 == j;
            assert(s3[k] == s2[k]);
        } else {
            assert(newly_opened(g2, g3, i, j));
            let k = choose|k: int| s2.len() <= k < s3.len() && (#[trigger] s3[k]).0 == i && s3[k].1 == j;
            assert(s3[k] == s3[k]);
        }
    }
}

/// Reveals (x, y) if it is hidden and safe, and queues it when it has no
/// mine around it.
fn open_cell(grid: &mut Vec<Vec<Cell>>, stack: &mut Vec<(usize, usize)>, x: usize, y: usize)
    requires
        in_bounds(old(grid)@, x as int, y as int),
    ensures
        opens_only(old(grid)@, final(grid)@),
        forall|i: int, j: int| #![trigger cell_at(final(grid)@, i, j)]
            in_bounds(old(grid)@, i, j) && !(i == x && j == y)
                ==> cell_at(final(grid)@, i, j) == cell_at(old(grid)@, i, j),
        !is_hidden_safe(cell_at(final(grid)@, x as int, y as int)),
        forall|i: int, j: int| in_bounds(old(grid)@, i, j) && #[trigger] newly_opened(old(grid)@, final(grid)@, i, j)
            ==> i == x && j == y,
        pushes_opened(old(grid)@, final(grid)@, old(stack)@, final(stack)@),
        2 * grid_count(final(grid)@, hidden_safe_pred()) + final(stack)@.len()
            <= 2 * grid_count(old(grid)@, hidden_safe_pred()) + old(stack)@.len(),
{
    if grid[y][x].cell_state == CellState::HIDDEN && grid[y][x].mines_seen >= 0 {
        let ghost g0 = grid@;
        grid[y][x].cell_state = CellState::REVEALED;
        proof {
            lemma_grid_count_set(g0, grid@, x as int, y as int, hidden_safe_pred());
        }
        if grid[y][x].mines_seen == 0 {
            stack.push((x, y));
            assert(stack@[stack@.len() - 1] == (x, y));
        }
    }
}

/// Opens the hidden safe cells of row `y` in the columns next to `x`, and
/// in column `x` itself where `with_center` holds.
fn open_row(grid: &mut Vec<Vec<Cell>>, stack: &mut Vec<(usize, usize)>, x: usize, y: usize, with_center: bool)
    requires
        well_shaped(old(grid)@),
        in_bounds(old(grid)@, x as int, y as int),
    ensures
        opens_only(old(grid)@, final(grid)@),
        pushes_opened(old(grid)@, final(grid)@, old(stack)@, final(stack)@),
        forall|a: int|
            in_bounds(final(grid)@, a, y as int) && x - 1 <= a <= x + 1 && (a != x || with_center)
                ==> !is_hidden_safe(#[trigger] cell_at(final(grid)@, a, y as int)),
        forall|i: int, j: int| in_bounds(old(grid)@, i, j) && #[trigger] newly_opened(old(grid)@, final(grid)@, i, j)
            ==> j == y && x - 1 <= i <= x + 1 && (i != x || with_center),
        2 * grid_count(final(grid)@, hidden_safe_pred()) + final(stack)@.len()
            <= 2 * grid_count(old(grid)@, hidden_safe_pred()) + old(stack)@.len(),
{
    let ghost g0 = grid@;
    let ghost s0 = stack@;
    let width = grid[y].len();
    if x > 0 {
        open_cell(grid, stack, x - 1, y);
    }
    let ghost g1 = grid@;
    let ghost s1 = stack@;
    proof {
        if x == 0 {
            assert(opens_only(g0, g1));
        }
    }
    if with_center {
        open_cell(grid, stack, x, y);
    }
    let ghost g2 = grid@;
    let ghost s2 = stack@;
    proof {
        if !with_center {
            assert(opens_only(g1, g2));
        }
        lemma_opens_trans(g0, g1, g2, s0, s1, s2);
    }
    if x + 1 < width {
        open_cell(grid, stack, x + 1, y);
    }
    let ghost g3 = grid@;
    let ghost s3 = stack@;
    proof {
        if x + 1 >= width {
            assert(opens_only(g2, g3));
        }
        lemma_opens_trans(g0, g2, g3, s0, s2, s3);
    }
}

/// Opens every hidden safe neighbor of (x, y).
fn open_neighbors(grid: &mut Vec<Vec<Cell>>, stack: &mut Vec<(usize, usize)>, x: usize, y: usize)
    requires
        well_shaped(old(grid)@),
        in_bounds(old(grid)@, x as int, y as int),
    ensures
        opens_only(old(grid)@, final(grid)@),
        neighbors_settled(final(grid)@, x as int, y as int),
        opens_around(old(grid)@, final(grid)@, x as int, y as int),
        pushes_opened(old(grid)@, final(grid)@, old(stack)@, final(stack)@),
        2 * grid_count(final(grid)@, hidden_safe_pred()) + final(stack)@.len()
            <= 2 * grid_count(old(grid)@, hidden_safe_pred()) + old(stack)@.len(),
{
    let ghost g0 = grid@;
    let ghost s0 = stack@;
    let height = grid.len();
    if y > 0 {
        open_row(grid, stack, x, y - 1, true);
    }
    let ghost g1 = grid@;
    let ghost s1 = stack@;
    proof {
        if y == 0 {
            assert(opens_only(g0, g1));
        }
    }
    open_row(grid, stack, x, y, false);
    let ghost g2 = grid@;
    let ghost s2 = stack@;
    proof {
        lemma_opens_trans(g0, g1, g2, s0, s1, s2);
    }
    if y + 1 < height {
        open_row(grid, stack, x, y + 1, true);
    }
    let ghost g3 = grid@;
    let ghost s3 = stack@;
    proof {
        if y + 1 >= height {
            assert(opens_only(g2, g3));
        }
        lemma_opens_trans(g0, g2, g3, s0, s2, s3);
        assert forall|a: int, b: int|
            in_bounds(g3, a, b) && adjacent(x as int, y as int, a, b) implies !is_hidden_safe(#[trigger] cell_at(g3, a, b)) by {
            if b == y - 1 {
                assert(!is_hidden_safe(cell_at(g1, a, b)));
            } else if b == y {
                assert(!is_hidden_safe(cell_at(g2, a, b)));
            }
        }
    }
}

/// Opens the region around (x, y): every hidden safe neighbor of (x, y) is
/// revealed, and the fill goes on from each revealed cell that has no mine
/// around it. Mines and flagged cells are never touched. The work list is
/// explicit, so the depth of the region costs no stack.
pub fn reveal_safe_neighbors(x: usize, y: usize, grid: &mut Vec<Vec<Cell>>)
    requires
        well_shaped(old(grid)@),
        in_bounds(old(grid)@, x as int, y as int),
    ensures
        opens_only(old(grid)@, final(grid)@),
        forall|i: int, j: int|
            in_bounds(old(grid)@, i, j) && #[trigger] spreads(old(grid)@, final(grid)@, x as int, y as int, i, j)
                ==> neighbors_settled(final(grid)@, i, j),
        exists|rank: Map<(int, int), int>| linked(old(grid)@, final(grid)@, x as int, y as int, rank),
{
    let ghost g0 = grid@;
    let ghost mut rank: Map<(int, int), int> = map![(x as int, y as int) => 0int];
    let ghost mut step: int = 1;
    let mut stack: Vec<(usize, usize)> = Vec::new();
    stack.push((x, y));
    proof {
        assert(stack@[0] == (x, y));
        assert(opens_only(g0, grid@));
    }
    while stack.len() > 0
        invariant
            well_shaped(g0),
            opens_only(g0, grid@),
            forall|k: int| 0 <= k < stack@.len() ==> {
                let (i, j) = #[trigger] stack@[k];
                &&& in_bounds(g0, i as int, j as int)
                &&& spreads(g0, grid@, x as int, y as int, i as int, j as int)
            },
            forall|i: int, j: int|
                in_bounds(g0, i, j) && #[trigger] spreads(g0, grid@, x as int, y as int, i, j)
                    ==> on_stack(stack@, 0, i, j) || neighbors_settled(grid@, i, j),
            linked(g0, grid@, x as int, y as int, rank),
            forall|p: (int, int)| #[trigger] rank.contains_key(p) ==> 0 <= rank[p] < step,
            forall|p: (int, int)| #[trigger] rank.contains_key(p)
                ==> p == (x as int, y as int) || (in_bounds(g0, p.0, p.1) && newly_opened(g0, grid@, p.0, p.1)),
            forall|k: int| 0 <= k < stack@.len()
                ==> rank.contains_key(((#[trigger] stack@[k]).0 as int, stack@[k].1 as int)),
        decreases 2 * grid_count(grid@, hidden_safe_pred()) + stack@.len(),
    {
        let ghost g1 = grid@;
        let ghost s1 = stack@;
        let (cx, cy) = stack.pop().unwrap();
        let ghost s2 = stack@;
        assert(s1[s1.len() - 1] == (cx, cy));
        proof {
            assert(well_shaped(g1)) by {
                assert forall|j: int| 0 <= j < g1.len() implies (#[trigger] g1[j])@.len() == g1[0]@.len() by {
                    assert(g1[j]@.len() == g0[j]@.len());
                    assert(g1[0]@.len() == g0[0]@.len());
                }
            }
        }
        open_neighbors(grid, &mut stack, cx, cy);
        let ghost g2 = grid@;
        let ghost s3 = stack@;
        proof {
            lemma_opens_only_trans(g0, g1, g2);
            assert forall|k: int| 0 <= k < s3.len() implies {
                let (i, j) = #[trigger] s3[k];
                &&& in_bounds(g0, i as int, j as int)
                &&& spreads(g0, g2, x as int, y as int, i as int, j as int)
            } by {
                let (i, j) = s3[k];
                if k < s2.len() {
                    assert(s3[k] == s2[k] && s2[k] == s1[k]);
                    assert(in_bounds(g0, i as int, j as int));
                    assert(cell_at(g2, i as int, j as int) == cell_at(g2, i as int, j as int));
                    assert(spreads(g0, g1, x as int, y as int, i as int, j as int));
                } else {
                    assert(in_bounds(g1, i as int, j as int));
                    assert(cell_at(g1, i as int, j as int) == cell_at(g1, i as int, j as int));
                    assert(cell_at(g2, i as int, j as int) == cell_at(g2, i as int, j as int));
                }
            }
            assert forall|i: int, j: int|
                in_bounds(g0, i, j) && #[trigger] spreads(g0, g2, x as int, y as int, i, j)
                    implies on_stack(s3, 0, i, j) || neighbors_settled(g2, i, j) by {
                assert(cell_at(g1, i, j) == cell_at(g1, i, j));
                assert(cell_at(g2, i, j) == cell_at(g2, i, j));
                if spreads(g0, g1, x as int, y as int, i, j) {
                    if on_stack(s1, 0, i, j) {
                        let k = choose|k: int| 0 <= k < s1.len() && (#[trigger] s1[k]).0 == i && s1[k].1 == j;
                        if k < s2.len() {
                            assert(s3[k] == s2[k]);
                        }
                    } else {
                        assert forall|a: int, b: int|
                            in_bounds(g2, a, b) && adjacent(i, j, a, b) implies !is_hidden_safe(#[trigger] cell_at(g2, a, b)) by {
                            assert(!is_hidden_safe(cell_at(g1, a, b)));
                        }
                    }
                } else {
                    assert(newly_opened(g1, g2, i, j));
                    let k = choose|k: int| s2.len() <= k < s3.len() && (#[trigger] s3[k]).0 == i && s3[k].1 == j;
                }
            }
            let cxy = (cx as int, cy as int);
            assert(rank.contains_key(cxy));
            assert(spreads(g0, g1, x as int, y as int, cx as int, cy as int));
            assert(cell_at(g1, cx as int, cy as int) == cell_at(g1, cx as int, cy as int));
            assert(cell_at(g2, cx as int, cy as int) == cell_at(g2, cx as int, cy as int));
            assert(spreads(g0, g2, x as int, y as int, cx as int, cy as int));
            let new_rank = Map::new(
                |p: (int, int)| rank.contains_key(p) || (in_bounds(g0, p.0, p.1) && newly_opened(g1, g2, p.0, p.1)),
                |p: (int, int)| if rank.contains_key(p) { rank[p] } else { step },
            );
            assert forall|i: int, j: int| in_bounds(g0, i, j) && #[trigger] newly_opened(g0, g2, i, j) && !(i == x && j == y) implies {
                &&& new_rank.contains_key((i, j))
                &&& new_rank[(i, j)] > 0
                &&& exists|a: int, b: int| #[trigger] adjacent(a, b, i, j) && in_bounds(g0, a, b) && new_rank.contains_key((a, b))
                    && new_rank[(a, b)] < new_rank[(i, j)] && spreads(g0, g2, x as int, y as int, a, b)
            } by {
                assert(in_bounds(g1, i, j));
                assert(cell_at(g1, i, j) == cell_at(g1, i, j));
                assert(cell_at(g2, i, j) == cell_at(g2, i, j));
                if newly_opened(g0, g1, i, j) {
                    let (a, b) = choose|a: int, b: int| #[trigger] adjacent(a, b, i, j) && in_bounds(g0, a, b) && rank.contains_key((a, b))
                        && rank[(a, b)] < rank[(i, j)] && spreads(g0, g1, x as int, y as int, a, b);
                    if !(a == x && b == y) {
                        assert(in_bounds(g0, a, b));
                        assert(in_bounds(g1, a, b));
                        assert(cell_at(g1, a, b) == cell_at(g1, a, b));
                        assert(cell_at(g2, a, b) == cell_at(g2, a, b));
                    }
                    assert(spreads(g0, g2, x as int, y as int, a, b));
                    assert(adjacent(a, b, i, j));
                } else {
                    assert(newly_opened(g1, g2, i, j));
                    assert(!rank.contains_key((i, j)));
                    assert(adjacent(cx as int, cy as int, i, j));
                    assert(new_rank[cxy] < step);
                }
            }
            assert forall|p: (int, int)| #[trigger] new_rank.contains_key(p)
                implies p == (x as int, y as int) || (in_bounds(g0, p.0, p.1) && newly_opened(g0, g2, p.0, p.1)) by {
                if rank.contains_key(p) {
                    if p != (x as int, y as int) {
                        assert(in_bounds(g1, p.0, p.1));
                        assert(cell_at(g2, p.0, p.1) == cell_at(g2, p.0, p.1));
                    }
                } else {
                    assert(in_bounds(g1, p.0, p.1));
                    assert(cell_at(g1, p.0, p.1) == cell_at(g1, p.0, p.1));
                }
            }
            assert forall|k: int| 0 <= k < s3.len()
                implies new_rank.contains_key(((#[trigger] s3[k]).0 as int, s3[k].1 as int)) by {
                if k < s2.len() {
                    assert(s3[k] == s2[k] && s2[k] == s1[k]);
                } else {
                    let (i, j) = s3[k];
                    assert(in_bounds(g1, i as int, j as int));
                }
            }
            rank = new_rank;
            step = step + 1;
        }
    }
}

} // verus!
