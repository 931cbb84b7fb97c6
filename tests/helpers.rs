use termsweeper::cell::{Cell, CellState, MINE};
use termsweeper::helpers::{incriment_neighbors, reveal_safe_neighbors};
use termsweeper::placement::{distance, far_cells};

fn grid(width: usize, height: usize) -> Vec<Vec<Cell>> {
    vec![vec![Cell { mines_seen: 0, cell_state: CellState::HIDDEN }; width]; height]
}

#[test]
fn increment_counts_only_safe_neighbors() {
    let mut g = grid(4, 3);
    g[0][0].mines_seen = MINE;
    incriment_neighbors(1, 1, &mut g);
    assert_eq!(g[0][0].mines_seen, MINE);
    assert_eq!(g[1][1].mines_seen, 0);
    let expected = [[MINE, 1, 1, 0], [1, 0, 1, 0], [1, 1, 1, 0]];
    for y in 0..3 {
        for x in 0..4 {
            assert_eq!(g[y][x].mines_seen, expected[y][x]);
        }
    }
}

#[test]
fn increment_at_corner_stays_in_bounds() {
    let mut g = grid(3, 3);
    incriment_neighbors(2, 2, &mut g);
    assert_eq!(g[1][1].mines_seen, 1);
    assert_eq!(g[1][2].mines_seen, 1);
    assert_eq!(g[2][1].mines_seen, 1);
    assert_eq!(g[0][0].mines_seen, 0);
    assert_eq!(g[2][2].mines_seen, 0);
}

#[test]
fn flood_fill_stops_at_numbers_and_flags() {
    // a mine at (4, 0) on a 5 by 4 grid, a flag at (0, 3)
    let mut g = grid(5, 4);
    g[0][4].mines_seen = MINE;
    incriment_neighbors(4, 0, &mut g);
    g[3][0].cell_state = CellState::FLAGGED;
    g[3][4].cell_state = CellState::REVEALED;
    reveal_safe_neighbors(0, 0, &mut g);
    assert!(g[0][4].cell_state == CellState::HIDDEN);
    assert!(g[3][0].cell_state == CellState::FLAGGED);
    assert!(g[0][3].cell_state == CellState::REVEALED);
    assert!(g[1][3].cell_state == CellState::REVEALED);
    assert!(g[1][4].cell_state == CellState::REVEALED);
    assert!(g[2][2].cell_state == CellState::REVEALED);
    assert!(g[3][4].cell_state == CellState::REVEALED);
    assert!(g[0][0].cell_state == CellState::REVEALED);
}

#[test]
fn flood_fill_never_reveals_a_mine() {
    let mut g = grid(3, 3);
    g[1][1].mines_seen = MINE;
    reveal_safe_neighbors(0, 0, &mut g);
    assert!(g[1][1].cell_state == CellState::HIDDEN);
    assert!(g[0][1].cell_state == CellState::REVEALED);
    assert!(g[1][0].cell_state == CellState::REVEALED);
    // the start itself has a zero count, so the fill goes on from its neighbors
    assert!(g[2][2].cell_state == CellState::REVEALED);
}

#[test]
fn far_cells_of_small_grids() {
    assert!(far_cells(3, 3, 1, 1).is_empty());
    let corner = far_cells(5, 5, 0, 0);
    assert_eq!(corner.len(), 19);
    assert_eq!(corner[0], (3, 0));
    assert!(corner.iter().all(|&(x, y)| x + y > 2));
    assert_eq!(far_cells(5, 5, 2, 2).len(), 12);
}

#[test]
fn manhattan_distance() {
    assert_eq!(distance(0, 0, 3, 4), 7);
    assert_eq!(distance(5, 1, 2, 6), 8);
    assert_eq!(distance(2, 2, 2, 2), 0);
}
