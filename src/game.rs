use vstd::prelude::*;
use std::time::{Duration, Instant};
use crate::cell::{
    Cell, CellState, is_rect, in_bounds, cell_at, counts_consistent, manhattan, is_mine,
    mine_pred, safe_pred, same_counts, same_except, lemma_consistent_same_counts, flagged_pred, unrevealed_safe_pred, is_unrevealed_safe, is_flagged,
    marked_pred, is_marked, mines_marked,
};
use crate::counting::{ind, grid_count, lemma_grid_count_mono, row_count, lemma_row_count_bound, lemma_grid_count_none, lemma_grid_count_same, lemma_grid_count_split, lemma_grid_count_set, lemma_grid_count_same_preds, lemma_grid_count_bound};
use crate::helpers::{linked, lemma_linked_from_earlier, reveal_safe_neighbors, neighbors_settled, opens_only, spreads, newly_opened};
use crate::placement::{SAFE_RADIUS, distance, far_count, feasible, far_cells, lemma_far_count_bound, place_on};

verus! {

#[verifier::external_type_specification]
#[verifier::external_body]
pub struct ExInstant(std::time::Instant);

/// Relies on `Instant::now`: the current time; nothing is known of its value.
#[verifier::external_body]
fn instant_now() -> Instant {
    Instant::now()
}

/// Relies on `Instant::elapsed`: the time since `since`; nothing is known
/// of its value.
#[verifier::external_body]
fn time_since(since: &Instant) -> Duration {
    since.elapsed()
}

/// Relies on `Duration::as_millis`: the whole milliseconds in `d`.
#[verifier::external_body]
fn whole_millis(d: &Duration) -> u128 {
    d.as_millis()
}

/// The least time, in milliseconds, between two steps of the animation
/// after the end of the game.
pub const END_ANIMATION_DELAY_MS: u128 = 125;

#[allow(non_camel_case_types)]
#[derive(Clone, Copy, Debug, PartialEq, Eq, Structural)]
pub enum GameState {
    ACTIVE,
    SUCSESS,
    FAILED,
}

/// The share of cells, in percent, that are mines.
#[derive(Clone, Copy, Debug, PartialEq, Eq, Structural)]
pub enum Difficulty {
    EASY,
    MEDIUM,
    HARD,
}

impl Difficulty {
    pub open spec fn spec_percent(self) -> nat {
        match self {
            Difficulty::EASY => 12,
            Difficulty::MEDIUM => 16,
            Difficulty::HARD => 21,
        }
    }

    pub fn percent(&self) -> (r: usize)
        ensures
            r == self.spec_percent(),
    {
        match self {
            Difficulty::EASY => 12,
            Difficulty::MEDIUM => 16,
            Difficulty::HARD => 21,
        }
    }
}

/// Why a game cannot be set up.
#[derive(Clone, Copy, Debug, PartialEq, Eq, Structural)]
pub enum ConfigError {
    /// The grid has no cells.
    EmptyGrid,
    /// The grid has more cells than can be counted.
    TooLarge,
    /// For some first cell, the cells beyond its safe radius cannot hold all mines.
    TooManyMines,
}

/// A cursor move, one cell in one direction.
#[derive(Clone, Copy, Debug, PartialEq, Eq, Structural)]
pub enum Direction {
    Up,
    Down,
    Left,
    Right,
}

/// Outside (x, y), no cell of `g2` has another state than in `g1`.
pub open spec fn states_kept_except(g1: Seq<Vec<Cell>>, g2: Seq<Vec<Cell>>, x: int, y: int) -> bool {
    forall|i: int, j: int| in_bounds(g1, i, j) && !(i == x && j == y)
        ==> (#[trigger] cell_at(g2, i, j)).cell_state == cell_at(g1, i, j).cell_state
}

/// `g2` holds what a reveal cascading from (x, y) leaves of `g1`: outside
/// (x, y) only hidden safe cells were revealed, they form one connected
/// region with (x, y), and neither (x, y) nor any cell so revealed with no
/// mine around it has a hidden safe neighbor left.
pub open spec fn cascade_from(g1: Seq<Vec<Cell>>, g2: Seq<Vec<Cell>>, x: int, y: int) -> bool {
    &&& forall|i: int, j: int| in_bounds(g1, i, j) && !(i == x && j == y) ==> {
        ||| (#[trigger] cell_at(g2, i, j)).cell_state == cell_at(g1, i, j).cell_state
        ||| (cell_at(g1, i, j).cell_state == CellState::HIDDEN && !is_mine(cell_at(g2, i, j))
            && cell_at(g2, i, j).cell_state == CellState::REVEALED)
    }
    &&& forall|i: int, j: int| in_bounds(g1, i, j) && ((i == x && j == y) || (
        cell_at(g1, i, j).cell_state == CellState::HIDDEN && (#[trigger] cell_at(g2, i, j)).cell_state == CellState::REVEALED
            && cell_at(g2, i, j).mines_seen == 0)) ==> neighbors_settled(g2, i, j)
    &&& exists|rank: Map<(int, int), int>| linked(g1, g2, x, y, rank)
}

/// The animation after the end of the game has swept `g1` into `g2`: each
/// cell nearer to (cx, cy) than `level` that was not revealed is revealed
/// after the end; all else is as it was.
pub open spec fn swept(g1: Seq<Vec<Cell>>, g2: Seq<Vec<Cell>>, cx: int, cy: int, level: int) -> bool {
    &&& g2.len() == g1.len()
    &&& forall|j: int| 0 <= j < g1.len() ==> (#[trigger] g2[j])@.len() == g1[j]@.len()
    &&& forall|i: int, j: int| in_bounds(g1, i, j) ==> #[trigger] cell_at(g2, i, j) == sweep_cell(cell_at(g1, i, j), manhattan(i, j, cx, cy), level)
}

pub open spec fn sweep_cell(c: Cell, dist: int, level: int) -> Cell {
    if dist < level && c.cell_state != CellState::REVEALED {
        Cell { mines_seen: c.mines_seen, cell_state: CellState::REVEALED_AFTER_END }
    } else {
        c
    }
}

/// Reveals after the end every cell nearer to (cx, cy) than `level` that
/// is not revealed.
fn sweep(grid: &mut Vec<Vec<Cell>>, width: usize, height: usize, cx: usize, cy: usize, level: usize)
    requires
        is_rect(old(grid)@, width as int, height as int),
        width + height <= usize::MAX,
        cx < width,
        cy < height,
    ensures
        swept(old(grid)@, final(grid)@, cx as int, cy as int, level as int),
{
    let ghost g0 = grid@;
        let mut j: usize = 0;
        while j < height
            invariant
                width + height <= usize::MAX,
                cx < width,
                cy < height,
                is_rect(g0, width as int, height as int),
                j <= height,
                grid@.len() == g0.len(),
                forall|b: int| 0 <= b < g0.len() ==> (#[trigger] grid@[b])@.len() == g0[b]@.len(),
                forall|a: int, b: int| #![trigger cell_at(grid@, a, b)] in_bounds(g0, a, b) ==>
                    cell_at(grid@, a, b) == if b < j {
                        sweep_cell(cell_at(g0, a, b), manhattan(a, b, cx as int, cy as int), level as int)
                    } else {
                        cell_at(g0, a, b)
                    },
            decreases height - j,
        {
            let mut i: usize = 0;
            while i < width
                invariant
                    width + height <= usize::MAX,
                    cx < width,
                    cy < height,
                    is_rect(g0, width as int, height as int),
                    j < height,
                    i <= width,
                    grid@.len() == g0.len(),
                    forall|b: int| 0 <= b < g0.len() ==> (#[trigger] grid@[b])@.len() == g0[b]@.len(),
                    forall|a: int, b: int| #![trigger cell_at(grid@, a, b)] in_bounds(g0, a, b) ==>
                        cell_at(grid@, a, b) == if b < j || (b == j && a < i) {
                            sweep_cell(cell_at(g0, a, b), manhattan(a, b, cx as int, cy as int), level as int)
                        } else {
                            cell_at(g0, a, b)
                        },
                decreases width - i,
            {
                let ghost g1 = grid@;
                if distance(i, j, cx, cy) < level && grid[j][i].cell_state != CellState::REVEALED {
                    grid[j][i].cell_state = CellState::REVEALED_AFTER_END;
                }
                proof {
                    let g2 = grid@;
                    assert forall|b: int| 0 <= b < g0.len() && b != j implies (#[trigger] g2[b]) == g1[b] by {}
                    assert forall|a: int, b: int| #![trigger cell_at(g2, a, b)] in_bounds(g0, a, b) implies
                        cell_at(g2, a, b) == if b < j || (b == j && a < i + 1) {
                            sweep_cell(cell_at(g0, a, b), manhattan(a, b, cx as int, cy as int), level as int)
                        } else {
                            cell_at(g0, a, b)
                        } by {
                        assert(cell_at(g1, a, b) == cell_at(g1, a, b));
                    }
                }
                i += 1;
            }
            j += 1;
        }
}

/// The number of mines on a `width` by `height` grid, rounded down.
pub open spec fn mine_total(width: int, height: int, difficulty: Difficulty) -> int {
    width * height * difficulty.spec_percent() / 100
}

/// One session: the grid, the cursor, and the counters the display reads.
/// Mines are placed on the first reveal.
pub struct Game {
    pub(crate) grid: Vec<Vec<Cell>>,
    pub(crate) cursor_x: usize,
    pub(crate) cursor_y: usize,
    pub(crate) width: usize,
    pub(crate) height: usize,
    pub(crate) show_cursor: bool,
    pub(crate) difficulty_level: Difficulty,
    pub game_state: GameState,
    pub(crate) first_move_made: bool,
    pub game_end_animation_level: usize,
    pub game_time: Instant,
    pub game_start_time: Instant,
    pub game_end_time: Instant,
    /// The number of mines less the number of flagged cells.
    pub flags_available: isize,
    /// The number of safe cells not yet revealed.
    pub hidden_cells_remaining: usize,
}

impl Game {
    pub open(crate) spec fn cells(&self) -> Seq<Vec<Cell>> {
        self.grid@
    }

    pub open(crate) spec fn spec_width(&self) -> int {
        self.width as int
    }

    pub open(crate) spec fn spec_height(&self) -> int {
        self.height as int
    }

    pub open(crate) spec fn spec_cursor_x(&self) -> int {
        self.cursor_x as int
    }

    pub open(crate) spec fn spec_cursor_y(&self) -> int {
        self.cursor_y as int
    }

    pub open(crate) spec fn spec_first_move_made(&self) -> bool {
        self.first_move_made
    }

    pub open(crate) spec fn spec_difficulty(&self) -> Difficulty {
        self.difficulty_level
    }

    pub open(crate) spec fn spec_show_cursor(&self) -> bool {
        self.show_cursor
    }

    pub open(crate) spec fn spec_game_time(&self) -> Instant {
        self.game_time
    }

    pub open(crate) spec fn spec_start_time(&self) -> Instant {
        self.game_start_time
    }

    pub open(crate) spec fn spec_end_time(&self) -> Instant {
        self.game_end_time
    }

    pub open(crate) spec fn spec_state(&self) -> GameState {
        self.game_state
    }

    pub open(crate) spec fn spec_flags(&self) -> int {
        self.flags_available as int
    }

    pub open(crate) spec fn spec_hidden(&self) -> int {
        self.hidden_cells_remaining as int
    }

    pub open(crate) spec fn spec_level(&self) -> int {
        self.game_end_animation_level as int
    }

    pub open(crate) spec fn mines(&self) -> int {
        mine_total(self.width as int, self.height as int, self.difficulty_level)
    }

    /// The grid is `width` by `height`, and its cells can be counted.
    pub open(crate) spec fn shaped(&self) -> bool {
        &&& 0 < self.width && 0 < self.height
        &&& self.width * self.height * 100 <= usize::MAX
        &&& is_rect(self.grid@, self.width as int, self.height as int)
    }

    pub open(crate) spec fn wf(&self) -> bool {
        &&& 0 < self.width && 0 < self.height
        &&& self.width * self.height * 100 <= usize::MAX
        &&& is_rect(self.grid@, self.width as int, self.height as int)
        &&& self.cursor_x < self.width && self.cursor_y < self.height
        &&& feasible(self.width as int, self.height as int, self.mines())
        &&& (self.hidden_cells_remaining == 0) == (self.game_state == GameState::SUCSESS)
        &&& self.flags_available + grid_count(self.grid@, flagged_pred()) <= self.mines()
        &&& self.flags_available + grid_count(self.grid@, marked_pred()) >= self.mines()
        &&& self.game_state == GameState::ACTIVE ==> {
            &&& self.game_end_animation_level == 0
            &&& self.flags_available == self.mines() - grid_count(self.grid@, flagged_pred())
            &&& forall|i: int, j: int| in_bounds(self.grid@, i, j)
                ==> (#[trigger] cell_at(self.grid@, i, j)).cell_state != CellState::REVEALED_AFTER_END
            &&& self.first_move_made ==> self.hidden_cells_remaining == grid_count(self.grid@, unrevealed_safe_pred())
        }
        &&& !self.first_move_made ==> {
            &&& self.game_state == GameState::ACTIVE
            &&& self.hidden_cells_remaining == self.width * self.height - self.mines()
            &&& forall|i: int, j: int| in_bounds(self.grid@, i, j) ==> {
                &&& (#[trigger] cell_at(self.grid@, i, j)).mines_seen == 0
                &&& cell_at(self.grid@, i, j).cell_state != CellState::REVEALED
            }
        }
        &&& self.first_move_made ==> {
            &&& counts_consistent(self.grid@)
            &&& mines_marked(self.grid@)
            &&& grid_count(self.grid@, mine_pred()) == self.mines()
        }
    }

    /// A fresh game: all cells hidden, no mines placed yet, the cursor in the
    /// top left corner. It is refused when the grid is empty, when its cell
    /// count times 100 does not fit in `usize`, or when some first reveal
    /// would leave too few cells beyond the safe radius for all mines.
    pub fn new(width: usize, height: usize, difficulty: Difficulty) -> (r: Result<Game, ConfigError>)
        ensures
            (width == 0 || height == 0) ==> r == Err::<Game, ConfigError>(ConfigError::EmptyGrid),
            width > 0 && height > 0 && width * height * 100 > usize::MAX
                ==> r == Err::<Game, ConfigError>(ConfigError::TooLarge),
            width > 0 && height > 0 && width * height * 100 <= usize::MAX
                && !feasible(width as int, height as int, mine_total(width as int, height as int, difficulty))
                ==> r == Err::<Game, ConfigError>(ConfigError::TooManyMines),
            width > 0 && height > 0 && width * height * 100 <= usize::MAX
                && feasible(width as int, height as int, mine_total(width as int, height as int, difficulty))
                ==> r is Ok,
            r is Ok ==> {
                let g = r->Ok_0;
                &&& width > 0 && height > 0 && width * height * 100 <= usize::MAX
                &&& feasible(width as int, height as int, mine_total(width as int, height as int, difficulty))
                &&& g.wf()
                &&& g.spec_width() == width && g.spec_height() == height && g.spec_difficulty() == difficulty
                &&& g.spec_cursor_x() == 0 && g.spec_cursor_y() == 0
                &&& g.spec_state() == GameState::ACTIVE
                &&& !g.spec_first_move_made()
                &&& g.spec_level() == 0
                &&& g.spec_flags() == g.mines()
                &&& g.spec_hidden() == width * height - g.mines()
                &&& forall|i: int, j: int| in_bounds(g.cells(), i, j)
                    ==> #[trigger] cell_at(g.cells(), i, j) == (Cell { mines_seen: 0, cell_state: CellState::HIDDEN })
            },
    {
        if width == 0 || height == 0 {
            return Err(ConfigError::EmptyGrid);
        }
        let cells = match width.checked_mul(height) {
            Some(c) => c,
            None => {
                assert(width * height * 100 > usize::MAX) by (nonlinear_arith)
                    requires width * height > usize::MAX;
                return Err(ConfigError::TooLarge);
            }
        };
        if cells > usize::MAX / 100 {
            return Err(ConfigError::TooLarge);
        }
        assert(width * height * 100 <= usize::MAX);
        let pct = difficulty.percent();
        assert(cells * pct <= cells * 100) by (nonlinear_arith)
            requires pct <= 100;
        let mines = cells * pct / 100;
        assert(mines <= cells) by (nonlinear_arith)
            requires mines == cells * pct / 100, pct <= 100, cells >= 0;
        assert(width + height <= usize::MAX) by (nonlinear_arith)
            requires width * height <= usize::MAX / 100, width > 0, height > 0;

        assert(mines == mine_total(width as int, height as int, difficulty));
        let mut cy: usize = 0;
        while cy < height
            invariant
                mines == mine_total(width as int, height as int, difficulty),
                width + height <= usize::MAX,
                width * height * 100 <= usize::MAX,
                0 < width, 0 < height,
                cy <= height,
                forall|a: int, b: int| 0 <= a < width && 0 <= b < cy
                    ==> mines <= #[trigger] far_count(width as int, height as int, a, b),
            decreases height - cy,
        {
            let mut cx: usize = 0;
            while cx < width
                invariant
                    mines == mine_total(width as int, height as int, difficulty),
                    width + height <= usize::MAX,
                    width * height * 100 <= usize::MAX,
                    cy < height,
                    cx <= width,
                    forall|a: int, b: int| 0 <= a < width && 0 <= b < cy
                        ==> mines <= #[trigger] far_count(width as int, height as int, a, b),
                    forall|a: int| 0 <= a < cx ==> mines <= #[trigger] far_count(width as int, height as int, a, cy as int),
                decreases width - cx,
            {
                if far_cells(width, height, cx, cy).len() < mines {
                    assert(far_count(width as int, height as int, cx as int, cy as int) < mines);
                    return Err(ConfigError::TooManyMines);
                }
                cx += 1;
            }
            cy += 1;
        }
        let mut grid: Vec<Vec<Cell>> = Vec::new();
        let mut j: usize = 0;
        while j < height
            invariant
                j <= height,
                grid@.len() == j,
                forall|b: int| 0 <= b < j ==> (#[trigger] grid@[b])@.len() == width,
                forall|a: int, b: int| in_bounds(grid@, a, b)
                    ==> #[trigger] cell_at(grid@, a, b) == (Cell { mines_seen: 0, cell_state: CellState::HIDDEN }),
            decreases height - j,
        {
            let mut row: Vec<Cell> = Vec::new();
            let mut i: usize = 0;
            while i < width
                invariant
                    i <= width,
                    row@.len() == i,
                    forall|a: int| 0 <= a < i ==> #[trigger] row@[a] == (Cell { mines_seen: 0, cell_state: CellState::HIDDEN }),
                decreases width - i,
            {
                row.push(Cell { mines_seen: 0, cell_state: CellState::HIDDEN });
                i += 1;
            }
            let ghost prev = grid@;
            let ghost rowv = row@;
            grid.push(row);
            proof {
                assert forall|a: int, b: int| in_bounds(grid@, a, b)
                    implies #[trigger] cell_at(grid@, a, b) == (Cell { mines_seen: 0, cell_state: CellState::HIDDEN }) by {
                    if b < j {
                        assert(grid@[b] == prev[b]);
                        assert(in_bounds(prev, a, b));
                        assert(cell_at(prev, a, b) == (Cell { mines_seen: 0, cell_state: CellState::HIDDEN }));
                    } else {
                        assert(grid@[b]@ == rowv);
                        assert(rowv[a] == (Cell { mines_seen: 0, cell_state: CellState::HIDDEN }));
                    }
                }
            }
            j += 1;
        }
        let ghost g = grid@;
        proof {
            assert forall|x: int, y: int| #![trigger g[y]@[x]] 0 <= y < g.len() && 0 <= x < g[y]@.len()
                implies !flagged_pred()(g[y]@[x]) by {
                assert(cell_at(g, x, y).cell_state == CellState::HIDDEN);
            }
            lemma_grid_count_none(g, flagged_pred());
            assert forall|x: int, y: int| #![trigger g[y]@[x]] 0 <= y < g.len() && 0 <= x < g[y]@.len()
                implies !marked_pred()(g[y]@[x]) by {
                assert(cell_at(g, x, y).cell_state == CellState::HIDDEN);
            }
            lemma_grid_count_none(g, marked_pred());
            lemma_far_count_bound(width as int, height as int, 0, 0);
            assert(mines <= far_count(width as int, height as int, 0, 0));
            assert(mine_total(width as int, height as int, difficulty) == mines);
        }
        let now = instant_now();
        Ok(Game {
            grid,
            cursor_x: 0,
            cursor_y: 0,
            width,
            height,
            show_cursor: true,
            difficulty_level: difficulty,
            game_state: GameState::ACTIVE,
            first_move_made: false,
            game_end_animation_level: 0,
            game_time: now,
            game_start_time: now,
            game_end_time: now,
            flags_available: mines as isize,
            hidden_cells_remaining: cells - mines,
        })
    }

    /// The number of mines this game places.
    pub fn mine_count(&self) -> (r: usize)
        requires
            self.wf(),
        ensures
            r == self.mines(),
    {
        let pct = self.difficulty_level.percent();
        let cells = self.width * self.height;
        assert(cells * pct <= cells * 100) by (nonlinear_arith)
            requires pct <= 100;
        cells * pct / 100
    }

    /// Places the mines at random, none within the safe radius of
    /// (centerx, centery), and counts them at their neighbors. Cell states
    /// stay as they are.
    pub fn place_mines(&mut self, centerx: usize, centery: usize)
        requires
            old(self).wf(),
            !old(self).spec_first_move_made(),
            centerx < old(self).spec_width(),
            centery < old(self).spec_height(),
        ensures
            final(self).wf(),
            final(self).spec_first_move_made(),
            final(self).spec_width() == old(self).spec_width(),
            final(self).spec_height() == old(self).spec_height(),
            final(self).spec_cursor_x() == old(self).spec_cursor_x(),
            final(self).spec_cursor_y() == old(self).spec_cursor_y(),
            final(self).spec_difficulty() == old(self).spec_difficulty(),
            final(self).spec_state() == old(self).spec_state(),
            final(self).spec_flags() == old(self).spec_flags(),
            final(self).spec_hidden() == old(self).spec_hidden(),
            final(self).spec_level() == old(self).spec_level(),
            counts_consistent(final(self).cells()),
            mines_marked(final(self).cells()),
            grid_count(final(self).cells(), mine_pred()) == final(self).mines(),
            forall|i: int, j: int| #![trigger cell_at(final(self).cells(), i, j)] in_bounds(old(self).cells(), i, j) ==> {
                &&& cell_at(final(self).cells(), i, j).cell_state == cell_at(old(self).cells(), i, j).cell_state
                &&& (manhattan(i, j, centerx as int, centery as int) <= SAFE_RADIUS
                    ==> !is_mine(cell_at(final(self).cells(), i, j)))
            },
    {
        let mines = self.mine_count();
        let ghost g0 = self.grid@;
        proof {
            assert(self.width + self.height <= usize::MAX) by (nonlinear_arith)
                requires self.width * self.height * 100 <= usize::MAX, self.width > 0, self.height > 0;
            assert(mines <= far_count(self.width as int, self.height as int, centerx as int, centery as int));
        }
        place_on(&mut self.grid, self.width, self.height, centerx, centery, mines);
        self.first_move_made = true;
        proof {
            let g = self.grid@;
            assert forall|x: int, y: int| 0 <= y < g0.len() && 0 <= x < g0[y]@.len()
                implies flagged_pred()(#[trigger] g0[y]@[x]) == flagged_pred()(g[y]@[x]) by {
                assert(in_bounds(g0, x, y));
                assert(cell_at(g, x, y).cell_state == cell_at(g0, x, y).cell_state);
            }
            lemma_grid_count_same(g0, g, flagged_pred());
            assert forall|x: int, y: int| 0 <= y < g0.len() && 0 <= x < g0[y]@.len()
                implies marked_pred()(#[trigger] g0[y]@[x]) == marked_pred()(g[y]@[x]) by {
                assert(in_bounds(g0, x, y));
                assert(cell_at(g, x, y).cell_state == cell_at(g0, x, y).cell_state);
            }
            lemma_grid_count_same(g0, g, marked_pred());
            assert forall|x: int, y: int| 0 <= y < g.len() && 0 <= x < g[y]@.len()
                implies unrevealed_safe_pred()(#[trigger] g[y]@[x]) == safe_pred()(g[y]@[x]) by {
                assert(in_bounds(g0, x, y));
                assert(cell_at(g, x, y).cell_state == cell_at(g0, x, y).cell_state);
                assert(cell_at(g0, x, y).cell_state != CellState::REVEALED);
                assert(cell_at(g0, x, y).cell_state != CellState::REVEALED_AFTER_END);
            }
            assert forall|c: Cell| #[trigger] mine_pred()(c) == !safe_pred()(c) by {}
            lemma_grid_count_split(g, mine_pred(), safe_pred(), self.width as int);
            lemma_grid_count_same_preds(g, unrevealed_safe_pred(), safe_pred());
        }
    }

    /// Once a single cell of the grid changed, and no count, the invariant
    /// holds again where the counters follow the change.
    proof fn lemma_cell_changed(old_game: &Game, new_game: &Game, x: int, y: int)
        requires
            old_game.wf(),
            in_bounds(old_game.grid@, x, y),
            same_except(old_game.grid@, new_game.grid@, x, y),
            same_counts(old_game.grid@, new_game.grid@),
        ensures
            grid_count(new_game.grid@, mine_pred()) == grid_count(old_game.grid@, mine_pred()),
            old_game.first_move_made ==> counts_consistent(new_game.grid@),
            old_game.first_move_made ==> mines_marked(new_game.grid@),
            grid_count(new_game.grid@, marked_pred()) + ind(is_marked(cell_at(old_game.grid@, x, y)))
                == grid_count(old_game.grid@, marked_pred()) + ind(is_marked(cell_at(new_game.grid@, x, y))),
            grid_count(new_game.grid@, flagged_pred()) + ind(is_flagged(cell_at(old_game.grid@, x, y)))
                == grid_count(old_game.grid@, flagged_pred()) + ind(is_flagged(cell_at(new_game.grid@, x, y))),
            grid_count(new_game.grid@, unrevealed_safe_pred())
                + ind(is_unrevealed_safe(cell_at(old_game.grid@, x, y)))
                == grid_count(old_game.grid@, unrevealed_safe_pred())
                + ind(is_unrevealed_safe(cell_at(new_game.grid@, x, y))),
    {
        let g1 = old_game.grid@;
        let g2 = new_game.grid@;
        assert(g2[y]@ =~= g1[y]@.update(x, g2[y]@[x])) by {
            assert forall|i: int| 0 <= i < g1[y]@.len() && i != x implies g2[y]@[i] == g1[y]@[i] by {
                assert(cell_at(g2, i, y) == cell_at(g1, i, y));
            }
        }
        assert forall|j: int| 0 <= j < g1.len() && j != y implies (#[trigger] g2[j])@ == g1[j]@ by {
            assert(g2[j]@ =~= g1[j]@) by {
                assert forall|i: int| 0 <= i < g1[j]@.len() implies g2[j]@[i] == g1[j]@[i] by {
                    assert(cell_at(g2, i, j) == cell_at(g1, i, j));
                }
            }
        }
        lemma_grid_count_set(g1, g2, x, y, mine_pred());
        assert(cell_at(g2, x, y).mines_seen == cell_at(g1, x, y).mines_seen);
        lemma_grid_count_set(g1, g2, x, y, flagged_pred());
        lemma_grid_count_set(g1, g2, x, y, marked_pred());
        lemma_grid_count_set(g1, g2, x, y, unrevealed_safe_pred());
        if old_game.first_move_made {
            lemma_consistent_same_counts(g1, g2);
        }
    }

    /// What `toggle_flag` makes of a well-formed game: `after`.
    pub open(crate) spec fn toggle_flag_post(&self, after: &Game) -> bool {
        &&& after.wf()
        &&& after.spec_width() == self.spec_width()
        &&& after.spec_height() == self.spec_height()
        &&& after.spec_cursor_x() == self.spec_cursor_x()
        &&& after.spec_cursor_y() == self.spec_cursor_y()
        &&& after.spec_difficulty() == self.spec_difficulty()
        &&& after.spec_first_move_made() == self.spec_first_move_made()
        &&& after.spec_state() == self.spec_state()
        &&& after.spec_hidden() == self.spec_hidden()
        &&& after.spec_level() == self.spec_level()
        &&& ({
            let x = self.spec_cursor_x();
            let y = self.spec_cursor_y();
            let c = cell_at(self.cells(), x, y);
            if c.cell_state == CellState::REVEALED || c.cell_state == CellState::REVEALED_AFTER_END {
                &&& after.cells() == self.cells()
                &&& after.spec_flags() == self.spec_flags()
            } else {
                &&& same_except(self.cells(), after.cells(), x, y)
                &&& cell_at(after.cells(), x, y).mines_seen == c.mines_seen
                &&& if c.cell_state == CellState::HIDDEN {
                    &&& cell_at(after.cells(), x, y).cell_state == CellState::FLAGGED
                    &&& after.spec_flags() == self.spec_flags() - 1
                } else {
                    &&& cell_at(after.cells(), x, y).cell_state == CellState::HIDDEN
                    &&& after.spec_flags() == self.spec_flags() + 1
                }
            }
        })
    }

    /// Flags or unflags the cell under the cursor, whatever the state of the
    /// game: a hidden cell is flagged and takes one from the budget, a
    /// flagged cell is hidden again and gives it back. A revealed cell, also
    /// one swept open after the end, is left alone. The flag budget is not
    /// clamped: it goes below zero when more cells are flagged than there
    /// are mines, so that unflagging always restores it.
    pub fn toggle_flag(&mut self)
        requires
            old(self).wf(),
        ensures
            old(self).toggle_flag_post(final(self)),
    {
        let x = self.cursor_x;
        let y = self.cursor_y;
        let state = self.grid[y][x].cell_state;
        if state == CellState::REVEALED || state == CellState::REVEALED_AFTER_END {
            return;
        }
        let ghost before = *self;
        proof {
            lemma_grid_count_bound(self.grid@, flagged_pred(), self.width as int);
            lemma_grid_count_bound(self.grid@, marked_pred(), self.width as int);
            assert(self.mines() >= 0 && self.mines() <= self.width * self.height) by (nonlinear_arith)
                requires
                    self.mines() == self.width * self.height * self.difficulty_level.spec_percent() / 100,
                    self.difficulty_level.spec_percent() <= 100,
                    self.width > 0,
                    self.height > 0;
        }
        if state == CellState::HIDDEN {
            self.grid[y][x].cell_state = CellState::FLAGGED;
            self.flags_available = self.flags_available - 1;
        } else {
            self.grid[y][x].cell_state = CellState::HIDDEN;
            self.flags_available = self.flags_available + 1;
        }
        proof {
            let g1 = before.grid@;
            let g2 = self.grid@;
            assert forall|j: int| 0 <= j < g1.len() && j != y implies (#[trigger] g2[j]) == g1[j] by {}
            assert(same_except(g1, g2, x as int, y as int));
            assert(same_counts(g1, g2));
            Self::lemma_cell_changed(&before, self, x as int, y as int);
        }
    }

    /// Sets `hidden_cells_remaining` to the number of safe cells that are
    /// still hidden or flagged.
    pub fn update_hidden_cells_remaining(&mut self)
        requires
            old(self).shaped(),
        ensures
            final(self).spec_hidden() == grid_count(old(self).cells(), unrevealed_safe_pred()),
            final(self).cells() == old(self).cells(),
            final(self).spec_width() == old(self).spec_width(),
            final(self).spec_height() == old(self).spec_height(),
            final(self).spec_cursor_x() == old(self).spec_cursor_x(),
            final(self).spec_cursor_y() == old(self).spec_cursor_y(),
            final(self).spec_difficulty() == old(self).spec_difficulty(),
            final(self).spec_first_move_made() == old(self).spec_first_move_made(),
            final(self).spec_state() == old(self).spec_state(),
            final(self).spec_flags() == old(self).spec_flags(),
            final(self).spec_level() == old(self).spec_level(),
            final(self).spec_show_cursor() == old(self).spec_show_cursor(),
            final(self).spec_game_time() == old(self).spec_game_time(),
            final(self).spec_start_time() == old(self).spec_start_time(),
            final(self).spec_end_time() == old(self).spec_end_time(),
    {
        let ghost g = self.grid@;
        let mut count: usize = 0;
        let mut j: usize = 0;
        while j < self.grid.len()
            invariant
                self.grid@ == g,
                self.shaped(),
                j <= g.len(),
                count == grid_count(g.subrange(0, j as int), unrevealed_safe_pred()),
                count <= j * self.width,
            decreases g.len() - j,
        {
            let mut i: usize = 0;
            let ghost base = count;
            proof {
                assert(j * self.width + self.width <= self.width * self.height) by (nonlinear_arith)
                    requires j < self.height;
            }
            while i < self.grid[j].len()
                invariant
                    self.grid@ == g,
                    self.shaped(),
                    j < g.len(),
                    i <= g[j as int]@.len(),
                    base == grid_count(g.subrange(0, j as int), unrevealed_safe_pred()),
                    base <= j * self.width,
                    j * self.width + self.width <= self.width * self.height,
                    count == base + row_count(g[j as int]@.subrange(0, i as int), unrevealed_safe_pred()),
                decreases g[j as int]@.len() - i,
            {
                let c = self.grid[j][i];
                proof {
                    let r = g[j as int]@;
                    assert(r.subrange(0, i + 1).drop_last() =~= r.subrange(0, i as int));
                    assert(r.subrange(0, i + 1).last() == c);
                    assert(unrevealed_safe_pred()(c) == (c.cell_state != CellState::REVEALED
                        && c.cell_state != CellState::REVEALED_AFTER_END && c.mines_seen >= 0));
                    lemma_row_count_bound(r.subrange(0, i as int), unrevealed_safe_pred());
                }
                if c.cell_state != CellState::REVEALED && c.cell_state != CellState::REVEALED_AFTER_END
                    && c.mines_seen >= 0 {
                    count = count + 1;
                }
                i += 1;
            }
            proof {
                assert(g[j as int]@.subrange(0, i as int) =~= g[j as int]@);
                assert(g.subrange(0, j + 1).drop_last() =~= g.subrange(0, j as int));
                assert(g.subrange(0, j + 1).last() == g[j as int]);
                lemma_row_count_bound(g[j as int]@, unrevealed_safe_pred());
                assert((j + 1) * self.width == j * self.width + self.width) by (nonlinear_arith);
            }
            j += 1;
        }
        proof {
            assert(g.subrange(0, j as int) =~= g);
        }
        self.hidden_cells_remaining = count;
    }

    /// What `reveal_cell` makes of a well-formed game: `after`.
    pub open(crate) spec fn reveal_cell_post(&self, after: &Game) -> bool {
        &&& after.wf()
        &&& after.spec_width() == self.spec_width()
        &&& after.spec_height() == self.spec_height()
        &&& after.spec_cursor_x() == self.spec_cursor_x()
        &&& after.spec_cursor_y() == self.spec_cursor_y()
        &&& after.spec_difficulty() == self.spec_difficulty()
        &&& after.spec_flags() == self.spec_flags()
        &&& after.spec_level() == self.spec_level()
        &&& self.spec_state() != GameState::ACTIVE ==> {
            &&& after.cells() == self.cells()
            &&& after.spec_state() == self.spec_state()
            &&& after.spec_hidden() == self.spec_hidden()
            &&& after.spec_first_move_made() == self.spec_first_move_made()
        }
        &&& self.spec_state() == GameState::ACTIVE ==> ({
            let x = self.spec_cursor_x();
            let y = self.spec_cursor_y();
            let g0 = self.cells();
            let g = after.cells();
            let before = cell_at(g0, x, y).cell_state;
            &&& after.spec_first_move_made()
            &&& self.spec_first_move_made() ==> same_counts(g0, g)
            &&& !self.spec_first_move_made() ==> {
                &&& forall|i: int, j: int| in_bounds(g, i, j) && manhattan(i, j, x, y) <= SAFE_RADIUS
                    ==> !is_mine(#[trigger] cell_at(g, i, j))
            }
            &&& counts_consistent(g)
            &&& mines_marked(g)
            &&& grid_count(g, mine_pred()) == after.mines()
            &&& if before != CellState::HIDDEN {
                &&& states_kept_except(g0, g, -1, -1)
                &&& after.spec_state() == GameState::ACTIVE
                &&& after.spec_hidden() == self.spec_hidden()
            } else if is_mine(cell_at(g, x, y)) {
                &&& cell_at(g, x, y).cell_state == CellState::REVEALED
                &&& states_kept_except(g0, g, x, y)
                &&& after.spec_state() == GameState::FAILED
                &&& after.spec_hidden() == self.spec_hidden()
            } else {
                &&& cell_at(g, x, y).cell_state == CellState::REVEALED
                &&& (cell_at(g, x, y).mines_seen == 0 ==> cascade_from(g0, g, x, y))
                &&& (cell_at(g, x, y).mines_seen != 0 ==> states_kept_except(g0, g, x, y))
                &&& after.spec_hidden() == grid_count(g, unrevealed_safe_pred())
                &&& after.spec_hidden() < self.spec_hidden()
                &&& (after.spec_state() == GameState::SUCSESS) == (after.spec_hidden() == 0)
                &&& (after.spec_state() == GameState::ACTIVE) == (after.spec_hidden() != 0)
            }
        })
    }

    /// Reveals the cell under the cursor. The first reveal of a game places
    /// the mines, none within the safe radius of that cell. A revealed or
    /// flagged cell is left alone, and so is everything once the game has
    /// ended. Revealing a mine fails the game. Revealing a safe cell with
    /// no mine around it opens the region around it. The game is won when
    /// no safe cell is left hidden.
    pub fn reveal_cell(&mut self)
        requires
            old(self).wf(),
        ensures
            old(self).reveal_cell_post(final(self)),
    {
        if self.game_state != GameState::ACTIVE {
            return;
        }
        let ghost start = *self;
        if !self.first_move_made {
            self.place_mines(self.cursor_x, self.cursor_y);
        }
        let ghost placed = *self;
        let x = self.cursor_x;
        let y = self.cursor_y;
        let state = self.grid[y][x].cell_state;
        if state == CellState::REVEALED || state == CellState::FLAGGED {
            return;
        }
        self.open_cursor_cell();
        proof {
            let g0 = start.grid@;
            let g1 = placed.grid@;
            let g = self.grid@;
            let xi = x as int;
            let yi = y as int;
            if !is_mine(cell_at(g, xi, yi)) && cell_at(g, xi, yi).mines_seen == 0 {
                assert forall|i: int, j: int| in_bounds(g0, i, j) && !(i == xi && j == yi) implies {
                    &&& (#[trigger] cell_at(g1, i, j)).cell_state == cell_at(g0, i, j).cell_state
                    &&& (!is_mine(cell_at(g1, i, j)) ==> !is_mine(cell_at(g0, i, j)))
                } by {
                    if !start.first_move_made {
                        assert(cell_at(g0, i, j).mines_seen == 0);
                    }
                }
                assert forall|i: int, j: int| in_bounds(g1, i, j) && !(i == xi && j == yi) implies {
                    &&& (#[trigger] cell_at(g, i, j)).mines_seen == cell_at(g1, i, j).mines_seen
                    &&& (cell_at(g, i, j).cell_state != cell_at(g1, i, j).cell_state ==> !is_mine(cell_at(g, i, j)))
                } by {}
                let rank = choose|rank: Map<(int, int), int>| linked(g1, g, xi, yi, rank);
                lemma_linked_from_earlier(g0, g1, g, xi, yi, rank);
            }
        }
    }

    /// Grids where `g2` only opens hidden safe cells of `g1` agree on every
    /// count but that of unopened safe cells, which can only fall.
    proof fn lemma_opened(g1: Seq<Vec<Cell>>, g2: Seq<Vec<Cell>>)
        requires
            opens_only(g1, g2),
        ensures
            same_counts(g1, g2),
            counts_consistent(g1) ==> counts_consistent(g2),
            counts_consistent(g1) && mines_marked(g1) ==> mines_marked(g2),
            grid_count(g2, mine_pred()) == grid_count(g1, mine_pred()),
            grid_count(g2, flagged_pred()) == grid_count(g1, flagged_pred()),
            grid_count(g2, marked_pred()) == grid_count(g1, marked_pred()),
            grid_count(g2, unrevealed_safe_pred()) <= grid_count(g1, unrevealed_safe_pred()),
    {
        assert forall|i: int, j: int| 0 <= j < g1.len() && 0 <= i < g1[j]@.len() implies {
            &&& mine_pred()(#[trigger] g1[j]@[i]) == mine_pred()(g2[j]@[i])
            &&& flagged_pred()(g1[j]@[i]) == flagged_pred()(g2[j]@[i])
            &&& marked_pred()(g1[j]@[i]) == marked_pred()(g2[j]@[i])
            &&& (unrevealed_safe_pred()(g2[j]@[i]) ==> unrevealed_safe_pred()(g1[j]@[i]))
        } by {
            assert(in_bounds(g1, i, j));
            assert(cell_at(g2, i, j) == cell_at(g2, i, j));
            let c1 = g1[j]@[i];
            let c2 = g2[j]@[i];
            assert(cell_at(g2, i, j).mines_seen == cell_at(g1, i, j).mines_seen);
            assert(c2.mines_seen == c1.mines_seen);
            assert(c2.cell_state == c1.cell_state || newly_opened(g1, g2, i, j));
            assert(mine_pred()(c1) == is_mine(c1));
            assert(mine_pred()(c2) == is_mine(c2));
            assert(flagged_pred()(c1) == is_flagged(c1));
            assert(flagged_pred()(c2) == is_flagged(c2));
            assert(marked_pred()(c1) == is_marked(c1));
            assert(marked_pred()(c2) == is_marked(c2));
            assert(unrevealed_safe_pred()(c1) == is_unrevealed_safe(c1));
            assert(unrevealed_safe_pred()(c2) == is_unrevealed_safe(c2));
        }
        lemma_grid_count_same(g1, g2, mine_pred());
        lemma_grid_count_same(g1, g2, flagged_pred());
        lemma_grid_count_same(g1, g2, marked_pred());
        lemma_grid_count_mono(g1, g2, unrevealed_safe_pred());
        if counts_consistent(g1) {
            lemma_consistent_same_counts(g1, g2);
        }
    }

    /// Reveals the hidden cell under the cursor, once the mines are placed.
    fn open_cursor_cell(&mut self)
        requires
            old(self).wf(),
            old(self).first_move_made,
            old(self).game_state == GameState::ACTIVE,
            cell_at(old(self).grid@, old(self).cursor_x as int, old(self).cursor_y as int).cell_state == CellState::HIDDEN,
        ensures
            final(self).wf(),
            final(self).first_move_made,
            final(self).width == old(self).width,
            final(self).height == old(self).height,
            final(self).cursor_x == old(self).cursor_x,
            final(self).cursor_y == old(self).cursor_y,
            final(self).difficulty_level == old(self).difficulty_level,
            final(self).flags_available == old(self).flags_available,
            final(self).game_end_animation_level == old(self).game_end_animation_level,
            same_counts(old(self).grid@, final(self).grid@),
            ({
                let x = old(self).cursor_x as int;
                let y = old(self).cursor_y as int;
                let g0 = old(self).grid@;
                let g = final(self).grid@;
                &&& cell_at(g, x, y).cell_state == CellState::REVEALED
                &&& if is_mine(cell_at(g, x, y)) {
                    &&& states_kept_except(g0, g, x, y)
                    &&& final(self).game_state == GameState::FAILED
                    &&& final(self).hidden_cells_remaining == old(self).hidden_cells_remaining
                } else {
                    &&& (cell_at(g, x, y).mines_seen == 0 ==> cascade_from(g0, g, x, y))
                    &&& (cell_at(g, x, y).mines_seen != 0 ==> states_kept_except(g0, g, x, y))
                    &&& final(self).hidden_cells_remaining == grid_count(g, unrevealed_safe_pred())
                    &&& final(self).hidden_cells_remaining < old(self).hidden_cells_remaining
                    &&& (final(self).game_state == GameState::SUCSESS) == (final(self).hidden_cells_remaining == 0)
                    &&& (final(self).game_state == GameState::ACTIVE) == (final(self).hidden_cells_remaining != 0)
                }
            }),
    {
        let ghost placed = *self;
        let x = self.cursor_x;
        let y = self.cursor_y;
        self.grid[y][x].cell_state = CellState::REVEALED;
        let ghost revealed = *self;
        proof {
            let g1 = placed.grid@;
            let g2 = self.grid@;
            assert forall|j: int| 0 <= j < g1.len() && j != y implies (#[trigger] g2[j]) == g1[j] by {}
            assert(same_except(g1, g2, x as int, y as int));
            assert(same_counts(g1, g2));
            Self::lemma_cell_changed(&placed, self, x as int, y as int);
        }
        if self.grid[y][x].mines_seen >= 0 {
            if self.grid[y][x].mines_seen == 0 {
                reveal_safe_neighbors(x, y, &mut self.grid);
                proof {
                    let g0 = placed.grid@;
                    let g1 = revealed.grid@;
                    let g = self.grid@;
                    Self::lemma_opened(g1, g);
                    assert forall|i: int, j: int| in_bounds(g0, i, j) && ((i == x && j == y) || (
                        cell_at(g0, i, j).cell_state == CellState::HIDDEN && (#[trigger] cell_at(g, i, j)).cell_state == CellState::REVEALED
                            && cell_at(g, i, j).mines_seen == 0)) implies neighbors_settled(g, i, j) by {
                        assert(in_bounds(g1, i, j));
                        assert(cell_at(g, i, j).mines_seen == cell_at(g1, i, j).mines_seen);
                        if !(i == x && j == y) {
                            assert(cell_at(g1, i, j) == cell_at(g0, i, j));
                        }
                        assert(spreads(g1, g, x as int, y as int, i, j));
                    }
                    let rank = choose|rank: Map<(int, int), int>| linked(g1, g, x as int, y as int, rank);
                    lemma_linked_from_earlier(g0, g1, g, x as int, y as int, rank);
                }
                self.update_hidden_cells_remaining();
            } else {
                self.hidden_cells_remaining = self.hidden_cells_remaining - 1;
            }
            if self.hidden_cells_remaining == 0 {
                self.game_state = GameState::SUCSESS;
                self.game_end_time = instant_now();
            }
        } else {
            self.game_state = GameState::FAILED;
            self.game_end_time = instant_now();
        }
    }

    /// Moves the cursor one cell, unless that would leave the grid.
    pub fn move_cursor(&mut self, direction: Direction)
        requires
            old(self).wf(),
        ensures
            final(self).wf(),
            final(self).cells() == old(self).cells(),
            final(self).spec_width() == old(self).spec_width(),
            final(self).spec_height() == old(self).spec_height(),
            final(self).spec_difficulty() == old(self).spec_difficulty(),
            final(self).spec_first_move_made() == old(self).spec_first_move_made(),
            final(self).spec_state() == old(self).spec_state(),
            final(self).spec_flags() == old(self).spec_flags(),
            final(self).spec_hidden() == old(self).spec_hidden(),
            final(self).spec_level() == old(self).spec_level(),
            ({
                let x = old(self).spec_cursor_x();
                let y = old(self).spec_cursor_y();
                let (nx, ny) = match direction {
                    Direction::Up => (x, if y > 0 { y - 1 } else { y }),
                    Direction::Down => (x, if y + 1 < old(self).spec_height() { y + 1 } else { y }),
                    Direction::Left => (if x > 0 { x - 1 } else { x }, y),
                    Direction::Right => (if x + 1 < old(self).spec_width() { x + 1 } else { x }, y),
                };
                final(self).spec_cursor_x() == nx && final(self).spec_cursor_y() == ny
            }),
    {
        match direction {
            Direction::Up => {
                if self.cursor_y > 0 {
                    self.cursor_y = self.cursor_y - 1;
                }
            },
            Direction::Down => {
                if self.cursor_y < self.height - 1 {
                    self.cursor_y = self.cursor_y + 1;
                }
            },
            Direction::Left => {
                if self.cursor_x > 0 {
                    self.cursor_x = self.cursor_x - 1;
                }
            },
            Direction::Right => {
                if self.cursor_x < self.width - 1 {
                    self.cursor_x = self.cursor_x + 1;
                }
            },
        }
    }

    /// One frame of the animation after the end of the game, given the
    /// milliseconds since its last step. While the game is on, nothing
    /// moves. Once it has ended, the sweep grows by one cell of distance
    /// when more than the animation delay has passed, and every cell nearer
    /// to the cursor than the sweep that is not revealed is revealed after
    /// the end. Returns whether the sweep grew.
    pub fn advance_animation(&mut self, elapsed_ms: u128) -> (stepped: bool)
        requires
            old(self).wf(),
        ensures
            final(self).wf(),
            final(self).spec_width() == old(self).spec_width(),
            final(self).spec_height() == old(self).spec_height(),
            final(self).spec_cursor_x() == old(self).spec_cursor_x(),
            final(self).spec_cursor_y() == old(self).spec_cursor_y(),
            final(self).spec_difficulty() == old(self).spec_difficulty(),
            final(self).spec_first_move_made() == old(self).spec_first_move_made(),
            final(self).spec_state() == old(self).spec_state(),
            final(self).spec_flags() == old(self).spec_flags(),
            final(self).spec_hidden() == old(self).spec_hidden(),
            old(self).spec_state() == GameState::ACTIVE ==> {
                &&& !stepped
                &&& final(self).cells() == old(self).cells()
                &&& final(self).spec_level() == 0
            },
            old(self).spec_state() != GameState::ACTIVE ==> {
                &&& stepped == (elapsed_ms >= END_ANIMATION_DELAY_MS && old(self).spec_level() < usize::MAX)
                &&& final(self).spec_level() == old(self).spec_level() + if stepped { 1int } else { 0int }
                &&& swept(old(self).cells(), final(self).cells(), old(self).spec_cursor_x(),
                    old(self).spec_cursor_y(), final(self).spec_level())
            },
    {
        if self.game_state == GameState::ACTIVE {
            self.game_end_animation_level = 0;
            return false;
        }
        let stepped = elapsed_ms >= END_ANIMATION_DELAY_MS && self.game_end_animation_level < usize::MAX;
        if stepped {
            self.game_end_animation_level = self.game_end_animation_level + 1;
        }
        let ghost before = *self;
        let ghost g0 = self.grid@;
        let level = self.game_end_animation_level;
        let cx = self.cursor_x;
        let cy = self.cursor_y;
        proof {
            assert(self.width + self.height <= usize::MAX) by (nonlinear_arith)
                requires self.width * self.height * 100 <= usize::MAX, self.width > 0, self.height > 0;
        }
        sweep(&mut self.grid, self.width, self.height, cx, cy, level);
        proof {
            let g = self.grid@;
            assert forall|a: int, b: int| in_bounds(g0, a, b) implies
                (#[trigger] cell_at(g, a, b)).mines_seen == cell_at(g0, a, b).mines_seen by {}
            assert(same_counts(g0, g));
            if before.first_move_made {
                lemma_consistent_same_counts(g0, g);
            }
            assert forall|i: int, j: int| 0 <= j < g0.len() && 0 <= i < g0[j]@.len() implies
                mine_pred()(#[trigger] g0[j]@[i]) == mine_pred()(g[j]@[i]) by {
                assert(in_bounds(g0, i, j));
                assert(cell_at(g, i, j).mines_seen == cell_at(g0, i, j).mines_seen);
                assert(mine_pred()(g0[j]@[i]) == is_mine(g0[j]@[i]));
                assert(mine_pred()(g[j]@[i]) == is_mine(g[j]@[i]));
            }
            lemma_grid_count_same(g0, g, mine_pred());
            assert forall|i: int, j: int| 0 <= j < g0.len() && 0 <= i < g0[j]@.len() implies {
                &&& (flagged_pred()(#[trigger] g[j]@[i]) ==> flagged_pred()(g0[j]@[i]))
                &&& (marked_pred()(g0[j]@[i]) ==> marked_pred()(g[j]@[i]))
            } by {
                assert(in_bounds(g0, i, j));
                assert(cell_at(g, i, j) == sweep_cell(cell_at(g0, i, j), manhattan(i, j, cx as int, cy as int), level as int));
                assert(flagged_pred()(g0[j]@[i]) == is_flagged(g0[j]@[i]));
                assert(flagged_pred()(g[j]@[i]) == is_flagged(g[j]@[i]));
                assert(marked_pred()(g0[j]@[i]) == is_marked(g0[j]@[i]));
                assert(marked_pred()(g[j]@[i]) == is_marked(g[j]@[i]));
            }
            assert forall|j: int| 0 <= j < g0.len() implies (#[trigger] g0[j])@.len() == g[j]@.len() by {}
            assert forall|i: int, j: int| 0 <= j < g.len() && 0 <= i < g[j]@.len() && marked_pred()(#[trigger] g0[j]@[i])
                implies marked_pred()(g[j]@[i]) by {}
            lemma_grid_count_mono(g0, g, flagged_pred());
            lemma_grid_count_mono(g, g0, marked_pred());
        }
        stepped
    }

    /// Drives the animation after the end of the game by the clock: one
    /// call per frame.
    pub fn tick(&mut self)
        requires
            old(self).wf(),
        ensures
            final(self).wf(),
            final(self).spec_width() == old(self).spec_width(),
            final(self).spec_height() == old(self).spec_height(),
            final(self).spec_cursor_x() == old(self).spec_cursor_x(),
            final(self).spec_cursor_y() == old(self).spec_cursor_y(),
            final(self).spec_state() == old(self).spec_state(),
            final(self).spec_flags() == old(self).spec_flags(),
            final(self).spec_hidden() == old(self).spec_hidden(),
            old(self).spec_state() == GameState::ACTIVE ==> final(self).cells() == old(self).cells(),
            old(self).spec_state() != GameState::ACTIVE ==> {
                &&& final(self).spec_level() == old(self).spec_level()
                    || final(self).spec_level() == old(self).spec_level() + 1
                &&& swept(old(self).cells(), final(self).cells(), old(self).spec_cursor_x(),
                    old(self).spec_cursor_y(), final(self).spec_level())
            },
    {
        let elapsed = whole_millis(&time_since(&self.game_time));
        if self.advance_animation(elapsed) {
            self.game_time = instant_now();
        }
    }

    pub fn width(&self) -> (r: usize)
        ensures
            r == self.spec_width(),
    {
        self.width
    }

    pub fn height(&self) -> (r: usize)
        ensures
            r == self.spec_height(),
    {
        self.height
    }

    pub fn cursor_x(&self) -> (r: usize)
        ensures
            r == self.spec_cursor_x(),
    {
        self.cursor_x
    }

    pub fn cursor_y(&self) -> (r: usize)
        ensures
            r == self.spec_cursor_y(),
    {
        self.cursor_y
    }

    pub fn first_move_made(&self) -> (r: bool)
        ensures
            r == self.spec_first_move_made(),
    {
        self.first_move_made
    }

    pub fn difficulty(&self) -> (r: Difficulty)
        ensures
            r == self.spec_difficulty(),
    {
        self.difficulty_level
    }

    /// Whether the cursor is drawn.
    pub fn show_cursor(&self) -> (r: bool)
        ensures
            r == self.spec_show_cursor(),
    {
        self.show_cursor
    }

    /// The cell at column `x` of row `y`.
    pub fn cell(&self, x: usize, y: usize) -> (r: Cell)
        requires
            self.wf(),
            x < self.spec_width(),
            y < self.spec_height(),
        ensures
            r == cell_at(self.cells(), x as int, y as int),
    {
        self.grid[y][x]
    }
}

} // verus!
