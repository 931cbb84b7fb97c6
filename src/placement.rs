use vstd::prelude::*;
use crate::cell::{
    Cell, MINE, manhattan, is_mine, is_rect, in_bounds, cell_at, adjacent, mine_at,
    mine_neighbor_count, counts_consistent, mine_pred, mines_marked,
};
use crate::counting::{ind, grid_count, lemma_grid_count_set, lemma_grid_count_mono, lemma_grid_count_none};
use crate::helpers::{incriment_neighbors, neighbors_incremented};
use rand::Rng;

verus! {

/// A mine may not lie within this Manhattan distance of the first revealed cell.
pub const SAFE_RADIUS: usize = 2;

/// How many of the cells (0, j) .. (n - 1, j) lie beyond the safe radius of (cx, cy).
pub open spec fn far_in_row(j: int, cx: int, cy: int, n: int) -> nat
    decreases n,
{
    if n <= 0 {
        0
    } else {
        far_in_row(j, cx, cy, n - 1) + ind(manhattan(n - 1, j, cx, cy) > SAFE_RADIUS)
    }
}

/// How many cells of the first `m` rows of a grid `width` wide lie beyond
/// the safe radius of (cx, cy).
pub open spec fn far_in_rows(width: int, m: int, cx: int, cy: int) -> nat
    decreases m,
{
    if m <= 0 {
        0
    } else {
        far_in_rows(width, m - 1, cx, cy) + far_in_row(m - 1, cx, cy, width)
    }
}

/// The cells of a `width` by `height` grid where a mine may go when the
/// first reveal is at (cx, cy).
pub open spec fn far_count(width: int, height: int, cx: int, cy: int) -> nat {
    far_in_rows(width, height, cx, cy)
}

/// Whichever cell is revealed first, there is room for `mines` mines.
pub open spec fn feasible(width: int, height: int, mines: int) -> bool {
    forall|cx: int, cy: int| 0 <= cx < width && 0 <= cy < height ==> mines <= #[trigger] far_count(width, height, cx, cy)
}

/// (a, b) comes before (c, d) in row-major order.
pub open spec fn row_major_lt(a: (usize, usize), c: (usize, usize)) -> bool {
    a.1 < c.1 || (a.1 == c.1 && a.0 < c.0)
}

pub fn distance(x1: usize, y1: usize, x2: usize, y2: usize) -> (r: usize)
    requires
        x1 + y1 <= usize::MAX,
        x1 + y2 <= usize::MAX,
        x2 + y1 <= usize::MAX,
        x2 + y2 <= usize::MAX,
    ensures
        r == manhattan(x1 as int, y1 as int, x2 as int, y2 as int),
{
    let dx = if x1 >= x2 { x1 - x2 } else { x2 - x1 };
    let dy = if y1 >= y2 { y1 - y2 } else { y2 - y1 };
    dx + dy
}

/// The cells of a `width` by `height` grid beyond the safe radius of
/// (cx, cy), in row-major order.
pub fn far_cells(width: usize, height: usize, cx: usize, cy: usize) -> (r: Vec<(usize, usize)>)
    requires
        width + height <= usize::MAX,
        cx < width,
        cy < height,
    ensures
        r@.len() == far_count(width as int, height as int, cx as int, cy as int),
        forall|k: int| 0 <= k < r@.len() ==> {
            let (i, j) = #[trigger] r@[k];
            &&& i < width && j < height
            &&& manhattan(i as int, j as int, cx as int, cy as int) > SAFE_RADIUS
        },
        forall|k1: int, k2: int| 0 <= k1 < k2 < r@.len() ==> row_major_lt(#[trigger] r@[k1], #[trigger] r@[k2]),
{
    let mut r: Vec<(usize, usize)> = Vec::new();
    let mut j: usize = 0;
    while j < height
        invariant
            width + height <= usize::MAX,
            cx < width,
            cy < height,
            j <= height,
            r@.len() == far_in_rows(width as int, j as int, cx as int, cy as int),
            forall|k: int| 0 <= k < r@.len() ==> {
                let (a, b) = #[trigger] r@[k];
                &&& a < width && b < j
                &&& manhattan(a as int, b as int, cx as int, cy as int) > SAFE_RADIUS
            },
            forall|k1: int, k2: int| 0 <= k1 < k2 < r@.len() ==> row_major_lt(#[trigger] r@[k1], #[trigger] r@[k2]),
        decreases height - j,
    {
        let mut i: usize = 0;
        let ghost base = r@.len();
        while i < width
            invariant
                width + height <= usize::MAX,
                cx < width,
                cy < height,
                j < height,
                i <= width,
                base == far_in_rows(width as int, j as int, cx as int, cy as int),
                r@.len() == base + far_in_row(j as int, cx as int, cy as int, i as int),
                forall|k: int| 0 <= k < r@.len() ==> {
                    let (a, b) = #[trigger] r@[k];
                    &&& a < width && b <= j
                    &&& (b == j ==> a < i)
                    &&& manhattan(a as int, b as int, cx as int, cy as int) > SAFE_RADIUS
                },
                forall|k1: int, k2: int| 0 <= k1 < k2 < r@.len() ==> row_major_lt(#[trigger] r@[k1], #[trigger] r@[k2]),
            decreases width - i,
        {
            if distance(i, j, cx, cy) > SAFE_RADIUS {
                r.push((i, j));
            }
            i += 1;
        }
        j += 1;
    }
    r
}

proof fn lemma_far_in_row_bound(j: int, cx: int, cy: int, n: int)
    requires
        n >= 0,
    ensures
        far_in_row(j, cx, cy, n) <= n,
        j == cy && 0 <= cx < n ==> far_in_row(j, cx, cy, n) < n,
    decreases n,
{
    if n > 0 {
        lemma_far_in_row_bound(j, cx, cy, n - 1);
    }
}

/// Not every cell is beyond the safe radius: the first cell itself never is.
pub proof fn lemma_far_count_bound(width: int, height: int, cx: int, cy: int)
    requires
        width >= 0,
        height >= 0,
    ensures
        far_in_rows(width, height, cx, cy) <= width * height,
        0 <= cx < width && 0 <= cy < height ==> far_count(width, height, cx, cy) < width * height,
    decreases height,
{
    if height > 0 {
        lemma_far_count_bound(width, height - 1, cx, cy);
        lemma_far_in_row_bound(height - 1, cx, cy, width);
        assert(width * height == width * (height - 1) + width) by (nonlinear_arith);
        assert(width * (height - 1) >= 0) by (nonlinear_arith)
            requires width >= 0, height > 0;
    }
}

/// Relies on rand's `thread_rng().gen_range(0..n)`: a value in `0..n`,
/// which panics on an empty range.
#[verifier::external_body]
fn random_index(n: usize) -> (r: usize)
    requires
        n > 0,
    ensures
        r < n,
{
    rand::thread_rng().gen_range(0..n)
}

/// Making a safe cell a mine and then counting it at its neighbors keeps
/// every count right.
proof fn lemma_mine_placed(g: Seq<Vec<Cell>>, g1: Seq<Vec<Cell>>, g2: Seq<Vec<Cell>>, x: int, y: int)
    requires
        counts_consistent(g),
        in_bounds(g, x, y),
        !is_mine(cell_at(g, x, y)),
        g1.len() == g.len(),
        forall|j: int| 0 <= j < g.len() ==> (#[trigger] g1[j])@.len() == g[j]@.len(),
        forall|i: int, j: int| #![trigger cell_at(g1, i, j)] in_bounds(g, i, j) ==>
            cell_at(g1, i, j) == if i == x && j == y {
                Cell { mines_seen: MINE, cell_state: cell_at(g, i, j).cell_state }
            } else {
                cell_at(g, i, j)
            },
        neighbors_incremented(g1, g2, x, y),
    ensures
        counts_consistent(g2),
{
    assert forall|a: int, b: int| #[trigger] mine_at(g2, a, b) == mine_at(g1, a, b) by {
        if in_bounds(g1, a, b) {
            assert(cell_at(g2, a, b) == cell_at(g2, a, b));
        }
    }
    assert forall|a: int, b: int| #[trigger] mine_at(g1, a, b) == if a == x && b == y { 1int } else { mine_at(g, a, b) } by {
        if in_bounds(g, a, b) {
            assert(cell_at(g1, a, b) == cell_at(g1, a, b));
        }
    }
    assert forall|i: int, j: int|
        in_bounds(g2, i, j) && !is_mine(#[trigger] cell_at(g2, i, j))
            implies cell_at(g2, i, j).mines_seen == mine_neighbor_count(g2, i, j) by {
        assert(cell_at(g1, i, j) == cell_at(g1, i, j));
        assert(cell_at(g, i, j) == cell_at(g, i, j));
        assert(mine_neighbor_count(g2, i, j) == mine_neighbor_count(g1, i, j));
    }
}

/// Places `mines` mines at random on a grid that has none, each beyond the
/// safe radius of (cx, cy), and counts them at their neighbors.
pub fn place_on(grid: &mut Vec<Vec<Cell>>, width: usize, height: usize, cx: usize, cy: usize, mines: usize)
    requires
        is_rect(old(grid)@, width as int, height as int),
        width + height <= usize::MAX,
        cx < width,
        cy < height,
        mines <= far_count(width as int, height as int, cx as int, cy as int),
        forall|i: int, j: int| in_bounds(old(grid)@, i, j) ==> (#[trigger] cell_at(old(grid)@, i, j)).mines_seen == 0,
    ensures
        is_rect(final(grid)@, width as int, height as int),
        counts_consistent(final(grid)@),
        mines_marked(final(grid)@),
        grid_count(final(grid)@, mine_pred()) == mines,
        forall|i: int, j: int| #![trigger cell_at(final(grid)@, i, j)] in_bounds(old(grid)@, i, j) ==> {
            &&& cell_at(final(grid)@, i, j).cell_state == cell_at(old(grid)@, i, j).cell_state
            &&& (is_mine(cell_at(final(grid)@, i, j)) ==> manhattan(i, j, cx as int, cy as int) > SAFE_RADIUS)
        },
{
    let ghost g0 = grid@;
    let mut candidates = far_cells(width, height, cx, cy);
    let mut placed: usize = 0;
    proof {
        assert forall|x: int, y: int| #![trigger grid@[y]@[x]] 0 <= y < grid@.len() && 0 <= x < grid@[y]@.len()
            implies !mine_pred()(grid@[y]@[x]) by {
            assert(cell_at(grid@, x, y).mines_seen == 0);
        }
        lemma_grid_count_none(grid@, mine_pred());
        assert forall|i: int, j: int| in_bounds(grid@, i, j) && is_mine(#[trigger] cell_at(grid@, i, j))
            implies cell_at(grid@, i, j).mines_seen == MINE by {
            assert(cell_at(grid@, i, j).mines_seen == 0);
        }
        assert forall|i: int, j: int| in_bounds(grid@, i, j) implies mine_at(grid@, i, j) == 0 by {
            assert(cell_at(grid@, i, j).mines_seen == 0);
        }
        assert forall|x: int, y: int|
            in_bounds(grid@, x, y) && !is_mine(#[trigger] cell_at(grid@, x, y))
                implies cell_at(grid@, x, y).mines_seen == mine_neighbor_count(grid@, x, y) by {
            assert(cell_at(grid@, x, y).mines_seen == 0);
            assert(mine_at(grid@, x - 1, y - 1) == 0);
            assert(mine_at(grid@, x, y - 1) == 0);
            assert(mine_at(grid@, x + 1, y - 1) == 0);
            assert(mine_at(grid@, x - 1, y) == 0);
            assert(mine_at(grid@, x + 1, y) == 0);
            assert(mine_at(grid@, x - 1, y + 1) == 0);
            assert(mine_at(grid@, x, y + 1) == 0);
            assert(mine_at(grid@, x + 1, y + 1) == 0);
        }
        assert forall|k: int| 0 <= k < candidates@.len() implies !is_mine(#[trigger] cell_at(grid@, candidates@[k].0 as int, candidates@[k].1 as int)) by {
            let (i, j) = candidates@[k];
            assert(cell_at(grid@, i as int, j as int).mines_seen == 0);
        }
        assert forall|k1: int, k2: int| 0 <= k1 < candidates@.len() && 0 <= k2 < candidates@.len() && k1 != k2
            implies #[trigger] candidates@[k1] != #[trigger] candidates@[k2] by {
            if k1 < k2 {
                assert(row_major_lt(candidates@[k1], candidates@[k2]));
            } else {
                assert(row_major_lt(candidates@[k2], candidates@[k1]));
            }
        }
    }
    while placed < mines
        invariant
            is_rect(grid@, width as int, height as int),
            width + height <= usize::MAX,
            is_rect(g0, width as int, height as int),
            placed <= mines,
            candidates@.len() + placed >= mines,
            counts_consistent(grid@),
            mines_marked(grid@),
            grid_count(grid@, mine_pred()) == placed,
            forall|i: int, j: int| #![trigger cell_at(grid@, i, j)] in_bounds(g0, i, j) ==> {
                &&& cell_at(grid@, i, j).cell_state == cell_at(g0, i, j).cell_state
                &&& (is_mine(cell_at(grid@, i, j)) ==> manhattan(i, j, cx as int, cy as int) > SAFE_RADIUS)
            },
            forall|k: int| 0 <= k < candidates@.len() ==> {
                let (i, j) = #[trigger] candidates@[k];
                &&& i < width && j < height
                &&& manhattan(i as int, j as int, cx as int, cy as int) > SAFE_RADIUS
                &&& !is_mine(cell_at(grid@, i as int, j as int))
            },
            forall|k1: int, k2: int| 0 <= k1 < candidates@.len() && 0 <= k2 < candidates@.len() && k1 != k2
                ==> #[trigger] candidates@[k1] != #[trigger] candidates@[k2],
        decreases mines - placed,
    {
        let ghost c0 = candidates@;
        let pick = random_index(candidates.len());
        let (x, y) = candidates.swap_remove(pick);
        assert(c0[pick as int] == (x, y));
        assert(manhattan(x as int, y as int, cx as int, cy as int) > SAFE_RADIUS);
        let ghost g1 = grid@;
        grid[y][x].mines_seen = MINE;
        let ghost g2 = grid@;
        proof {
            assert(g1[y as int]@.len() == width);
            assert forall|i: int, j: int| #![trigger cell_at(g2, i, j)] in_bounds(g1, i, j) implies
                cell_at(g2, i, j) == if i == x && j == y {
                    Cell { mines_seen: MINE, cell_state: cell_at(g1, i, j).cell_state }
                } else {
                    cell_at(g1, i, j)
                } by {
                if j != y {
                    assert(g2[j] == g1[j]);
                }
            }
            assert forall|j: int| 0 <= j < g1.len() implies (#[trigger] g2[j])@.len() == g1[j]@.len() by {
                if j != y {
                    assert(g2[j] == g1[j]);
                }
            }
            assert forall|i: int, j: int|
                in_bounds(g2, i, j) && adjacent(x as int, y as int, i, j) && !is_mine(#[trigger] cell_at(g2, i, j))
                    implies cell_at(g2, i, j).mines_seen < 127 by {
                assert(cell_at(g1, i, j) == cell_at(g2, i, j));
                assert(cell_at(g1, i, j).mines_seen == mine_neighbor_count(g1, i, j));
            }
            lemma_grid_count_set(g1, g2, x as int, y as int, mine_pred());
        }
        incriment_neighbors(x, y, grid);
        proof {
            let g3 = grid@;
            lemma_mine_placed(g1, g2, g3, x as int, y as int);
            assert forall|i: int, j: int| in_bounds(g3, i, j) && is_mine(#[trigger] cell_at(g3, i, j))
                implies cell_at(g3, i, j).mines_seen == MINE by {
                assert(in_bounds(g2, i, j));
                assert(in_bounds(g1, i, j));
                assert(cell_at(g2, i, j) == cell_at(g2, i, j));
                assert(cell_at(g1, i, j) == cell_at(g1, i, j));
            }
            assert forall|i: int, j: int| #![trigger g3[j]@[i]]
                0 <= j < g2.len() && 0 <= i < g2[j]@.len() && mine_pred()(g3[j]@[i]) implies mine_pred()(g2[j]@[i]) by {
                assert(in_bounds(g2, i, j));
                assert(cell_at(g3, i, j) == cell_at(g3, i, j));
                assert(mine_pred()(g3[j]@[i]) == is_mine(cell_at(g3, i, j)));
                assert(mine_pred()(g2[j]@[i]) == is_mine(cell_at(g2, i, j)));
            }
            assert forall|i: int, j: int| #![trigger g2[j]@[i]]
                0 <= j < g3.len() && 0 <= i < g3[j]@.len() && mine_pred()(g2[j]@[i]) implies mine_pred()(g3[j]@[i]) by {
                assert(in_bounds(g2, i, j));
                assert(cell_at(g3, i, j) == cell_at(g3, i, j));
                assert(mine_pred()(g3[j]@[i]) == is_mine(cell_at(g3, i, j)));
                assert(mine_pred()(g2[j]@[i]) == is_mine(cell_at(g2, i, j)));
            }
            lemma_grid_count_mono(g2, g3, mine_pred());
            lemma_grid_count_mono(g3, g2, mine_pred());
            assert forall|i: int, j: int| #![trigger cell_at(g3, i, j)] in_bounds(g0, i, j) implies {
                &&& cell_at(g3, i, j).cell_state == cell_at(g0, i, j).cell_state
                &&& (is_mine(cell_at(g3, i, j)) ==> manhattan(i, j, cx as int, cy as int) > SAFE_RADIUS)
            } by {
                assert(in_bounds(g1, i, j));
                assert(in_bounds(g2, i, j));
                assert(cell_at(g1, i, j) == cell_at(g1, i, j));
                assert(cell_at(g2, i, j) == cell_at(g2, i, j));
            }
            assert forall|k: int| 0 <= k < candidates@.len() implies {
                let (i, j) = #[trigger] candidates@[k];
                &&& i < width && j < height
                &&& manhattan(i as int, j as int, cx as int, cy as int) > SAFE_RADIUS
                &&& !is_mine(cell_at(g3, i as int, j as int))
            } by {
                let k0 = if k == pick { c0.len() - 1 } else { k };
                assert(candidates@[k] == c0[k0]);
                assert(k0 != pick);
                let (i, j) = candidates@[k];
                assert(cell_at(g1, i as int, j as int) == cell_at(g1, i as int, j as int));
                assert(cell_at(g2, i as int, j as int) == cell_at(g2, i as int, j as int));
                assert(cell_at(g3, i as int, j as int) == cell_at(g3, i as int, j as int));
            }
            assert forall|k1: int, k2: int| 0 <= k1 < candidates@.len() && 0 <= k2 < candidates@.len() && k1 != k2
                implies #[trigger] candidates@[k1] != #[trigger] candidates@[k2] by {
                let a1 = if k1 == pick { c0.len() - 1 } else { k1 };
                let a2 = if k2 == pick { c0.len() - 1 } else { k2 };
                assert(candidates@[k1] == c0[a1]);
                assert(candidates@[k2] == c0[a2]);
            }
        }
        placed += 1;
    }
}

} // verus!
