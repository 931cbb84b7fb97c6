use vstd::prelude::*;
use crate::cell::{unrevealed_safe_pred, is_unrevealed_safe, CellState, cell_at, in_bounds, is_mine, manhattan, counts_consistent, mines_marked};
use crate::game::{Game, GameState, cascade_from};
use crate::counting::{grid_count2, lost, lemma_grid_count_lost};
use crate::placement::SAFE_RADIUS;

verus! {

/// Once the mines are placed, every cell that is not a mine holds the
/// number of mines among its neighbors, and every mine the sentinel count.
pub proof fn lemma_counts_match_mines(game: &Game)
    requires
        game.wf(),
        game.spec_first_move_made(),
    ensures
        counts_consistent(game.cells()),
        mines_marked(game.cells()),
{
}

/// The first reveal of a game finds no mine at the revealed cell or
/// within the safe radius of it.
pub proof fn lemma_first_reveal_is_safe(before: &Game, after: &Game)
    requires
        before.wf(),
        !before.spec_first_move_made(),
        before.reveal_cell_post(after),
    ensures
        forall|i: int, j: int|
            in_bounds(after.cells(), i, j)
                && manhattan(i, j, before.spec_cursor_x(), before.spec_cursor_y()) <= SAFE_RADIUS
                ==> !is_mine(#[trigger] cell_at(after.cells(), i, j)),
        after.spec_state() != GameState::FAILED,
{
}

/// Revealing a hidden cell with no mine around it opens a region: only
/// hidden safe cells are revealed, each linked back to the cell through
/// revealed cells with no mine around them, and neither the cell nor any
/// revealed cell with no mine around it keeps a hidden safe neighbor. No
/// mine is revealed on the way.
pub proof fn lemma_empty_cell_opens_region(before: &Game, after: &Game)
    requires
        before.wf(),
        before.spec_state() == GameState::ACTIVE,
        cell_at(before.cells(), before.spec_cursor_x(), before.spec_cursor_y()).cell_state == CellState::HIDDEN,
        before.reveal_cell_post(after),
        cell_at(after.cells(), before.spec_cursor_x(), before.spec_cursor_y()).mines_seen == 0,
    ensures
        cascade_from(before.cells(), after.cells(), before.spec_cursor_x(), before.spec_cursor_y()),
        forall|i: int, j: int|
            in_bounds(before.cells(), i, j) && is_mine(#[trigger] cell_at(after.cells(), i, j))
                ==> cell_at(after.cells(), i, j).cell_state == cell_at(before.cells(), i, j).cell_state,
{
}

/// Revealing a hidden safe cell lowers the count of safe cells left
/// hidden, and the game is won exactly when that count reaches zero.
pub proof fn lemma_reveal_lowers_hidden_count(before: &Game, after: &Game)
    requires
        before.wf(),
        before.spec_state() == GameState::ACTIVE,
        cell_at(before.cells(), before.spec_cursor_x(), before.spec_cursor_y()).cell_state == CellState::HIDDEN,
        before.reveal_cell_post(after),
        !is_mine(cell_at(after.cells(), before.spec_cursor_x(), before.spec_cursor_y())),
    ensures
        after.spec_hidden() < before.spec_hidden(),
        (after.spec_hidden() == 0) == (after.spec_state() == GameState::SUCSESS),
{
}

/// Once the mines are placed, revealing a hidden safe cell lowers the count
/// of safe cells left hidden by exactly the number of safe cells it opens,
/// and it opens at least one.
pub proof fn lemma_reveal_lowers_hidden_count_by_opened(before: &Game, after: &Game)
    requires
        before.wf(),
        before.spec_state() == GameState::ACTIVE,
        before.spec_first_move_made(),
        cell_at(before.cells(), before.spec_cursor_x(), before.spec_cursor_y()).cell_state == CellState::HIDDEN,
        before.reveal_cell_post(after),
        !is_mine(cell_at(after.cells(), before.spec_cursor_x(), before.spec_cursor_y())),
    ensures
        after.spec_hidden() + grid_count2(before.cells(), after.cells(), lost(unrevealed_safe_pred()))
            == before.spec_hidden(),
        grid_count2(before.cells(), after.cells(), lost(unrevealed_safe_pred())) >= 1,
{
    let g0 = before.cells();
    let g = after.cells();
    let x = before.spec_cursor_x();
    let y = before.spec_cursor_y();
    assert forall|i: int, j: int| 0 <= j < g0.len() && 0 <= i < g0[j]@.len() && unrevealed_safe_pred()(#[trigger] g[j]@[i])
        implies unrevealed_safe_pred()(g0[j]@[i]) by {
        assert(in_bounds(g0, i, j));
        assert(cell_at(g, i, j).mines_seen == cell_at(g0, i, j).mines_seen);
        assert(unrevealed_safe_pred()(g[j]@[i]) == is_unrevealed_safe(cell_at(g, i, j)));
        assert(unrevealed_safe_pred()(g0[j]@[i]) == is_unrevealed_safe(cell_at(g0, i, j)));
        if !(i == x && j == y) {
            assert(cell_at(g, i, j) == cell_at(g, i, j));
        }
    }
    lemma_grid_count_lost(g0, g, unrevealed_safe_pred());
}

/// In every well-formed game, no safe cell is left hidden exactly when the
/// game is won.
pub proof fn lemma_won_iff_none_hidden(game: &Game)
    requires
        game.wf(),
    ensures
        (game.spec_hidden() == 0) == (game.spec_state() == GameState::SUCSESS),
{
}

/// Revealing a hidden mine fails the game at once.
pub proof fn lemma_mine_fails_game(before: &Game, after: &Game)
    requires
        before.wf(),
        before.spec_state() == GameState::ACTIVE,
        cell_at(before.cells(), before.spec_cursor_x(), before.spec_cursor_y()).cell_state == CellState::HIDDEN,
        before.reveal_cell_post(after),
        is_mine(cell_at(after.cells(), before.spec_cursor_x(), before.spec_cursor_y())),
    ensures
        after.spec_state() == GameState::FAILED,
{
}

/// Once the game has ended, a reveal changes nothing.
pub proof fn lemma_ended_game_ignores_reveal(before: &Game, after: &Game)
    requires
        before.wf(),
        before.spec_state() != GameState::ACTIVE,
        before.reveal_cell_post(after),
    ensures
        after.cells() == before.cells(),
        after.spec_state() == before.spec_state(),
        after.spec_hidden() == before.spec_hidden(),
        after.spec_flags() == before.spec_flags(),
{
}

/// Flagging a hidden cell and unflagging it again restores the cell and
/// the flag budget, whatever the state of the game.
pub proof fn lemma_toggle_flag_twice(g0: &Game, g1: &Game, g2: &Game)
    requires
        g0.wf(),
        cell_at(g0.cells(), g0.spec_cursor_x(), g0.spec_cursor_y()).cell_state == CellState::HIDDEN,
        g0.toggle_flag_post(g1),
        g1.toggle_flag_post(g2),
    ensures
        g2.spec_flags() == g0.spec_flags(),
        g2.cells().len() == g0.cells().len(),
        forall|i: int, j: int| in_bounds(g0.cells(), i, j)
            ==> #[trigger] cell_at(g2.cells(), i, j) == cell_at(g0.cells(), i, j),
{
    let x = g0.spec_cursor_x();
    let y = g0.spec_cursor_y();
    assert(in_bounds(g0.cells(), x, y));
    assert forall|i: int, j: int| in_bounds(g0.cells(), i, j)
        implies #[trigger] cell_at(g2.cells(), i, j) == cell_at(g0.cells(), i, j) by {
        assert(in_bounds(g1.cells(), i, j));
        if i == x && j == y {
            assert(cell_at(g1.cells(), i, j).cell_state == CellState::FLAGGED);
        } else {
            assert(cell_at(g1.cells(), i, j) == cell_at(g0.cells(), i, j));
        }
    }
}

} // verus!
