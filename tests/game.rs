use termsweeper::cell::{Cell, CellState};
use termsweeper::game::{ConfigError, Difficulty, Direction, Game, GameState};

fn new_game(width: usize, height: usize, difficulty: Difficulty) -> Game {
    match Game::new(width, height, difficulty) {
        Ok(g) => g,
        Err(e) => panic!("unexpected error {:?}", e),
    }
}

fn move_to(game: &mut Game, x: usize, y: usize) {
    while game.cursor_x() < x {
        game.move_cursor(Direction::Right);
    }
    while game.cursor_x() > x {
        game.move_cursor(Direction::Left);
    }
    while game.cursor_y() < y {
        game.move_cursor(Direction::Down);
    }
    while game.cursor_y() > y {
        game.move_cursor(Direction::Up);
    }
}

fn neighbors(game: &Game, x: usize, y: usize) -> Vec<(usize, usize)> {
    let mut r = Vec::new();
    for dy in -1i64..=1 {
        for dx in -1i64..=1 {
            if dx == 0 && dy == 0 {
                continue;
            }
            let nx = x as i64 + dx;
            let ny = y as i64 + dy;
            if nx >= 0 && ny >= 0 && (nx as usize) < game.width() && (ny as usize) < game.height() {
                r.push((nx as usize, ny as usize));
            }
        }
    }
    r
}

fn is_mine(c: Cell) -> bool {
    c.mines_seen < 0
}

fn count_mines(game: &Game) -> usize {
    let mut n = 0;
    for y in 0..game.height() {
        for x in 0..game.width() {
            if is_mine(game.cell(x, y)) {
                n += 1;
            }
        }
    }
    n
}

fn unrevealed_safe(game: &Game) -> usize {
    let mut n = 0;
    for y in 0..game.height() {
        for x in 0..game.width() {
            let c = game.cell(x, y);
            if !is_mine(c) && (c.cell_state == CellState::HIDDEN || c.cell_state == CellState::FLAGGED) {
                n += 1;
            }
        }
    }
    n
}

fn started(width: usize, height: usize, difficulty: Difficulty, x: usize, y: usize) -> Game {
    let mut game = new_game(width, height, difficulty);
    move_to(&mut game, x, y);
    game.reveal_cell();
    game
}

#[test]
fn single_cell_grid_is_won_at_once() {
    let mut game = new_game(1, 1, Difficulty::EASY);
    assert_eq!(game.flags_available, 0);
    assert_eq!(game.hidden_cells_remaining, 1);
    game.reveal_cell();
    assert!(game.game_state == GameState::SUCSESS);
    assert_eq!(game.hidden_cells_remaining, 0);
    let c = game.cell(0, 0);
    assert_eq!(c.mines_seen, 0);
    assert!(c.cell_state == CellState::REVEALED);
}

#[test]
fn three_by_three_with_one_mine_is_refused() {
    for d in [Difficulty::EASY, Difficulty::MEDIUM, Difficulty::HARD] {
        assert!(matches!(Game::new(3, 3, d), Err(ConfigError::TooManyMines)));
    }
}

#[test]
fn empty_grid_is_refused() {
    assert!(matches!(Game::new(0, 5, Difficulty::EASY), Err(ConfigError::EmptyGrid)));
    assert!(matches!(Game::new(5, 0, Difficulty::HARD), Err(ConfigError::EmptyGrid)));
}

#[test]
fn oversized_grid_is_refused() {
    assert!(matches!(Game::new(usize::MAX, 2, Difficulty::EASY), Err(ConfigError::TooLarge)));
    assert!(matches!(Game::new(usize::MAX / 50, 1, Difficulty::EASY), Err(ConfigError::TooLarge)));
}

#[test]
fn small_grid_with_room_is_accepted() {
    // 3 wide, 4 tall: one mine, and every first cell leaves a cell beyond the radius
    let game = new_game(3, 4, Difficulty::EASY);
    assert_eq!(game.flags_available, 1);
    assert_eq!(game.hidden_cells_remaining, 11);
}

#[test]
fn mine_count_follows_density() {
    assert_eq!(new_game(10, 10, Difficulty::EASY).flags_available, 12);
    assert_eq!(new_game(10, 10, Difficulty::MEDIUM).flags_available, 16);
    assert_eq!(new_game(10, 10, Difficulty::HARD).flags_available, 21);
    let g = new_game(7, 9, Difficulty::HARD);
    assert_eq!(g.flags_available, 13);
    assert_eq!(g.hidden_cells_remaining, 50);
    assert_eq!(g.mine_count(), 13);
}

#[test]
fn difficulty_percentages() {
    assert_eq!(Difficulty::EASY.percent(), 12);
    assert_eq!(Difficulty::MEDIUM.percent(), 16);
    assert_eq!(Difficulty::HARD.percent(), 21);
}

#[test]
fn fresh_game_is_hidden_and_unmined() {
    let game = new_game(6, 5, Difficulty::MEDIUM);
    assert!(game.game_state == GameState::ACTIVE);
    assert!(!game.first_move_made());
    assert_eq!(game.cursor_x(), 0);
    assert_eq!(game.cursor_y(), 0);
    assert_eq!(game.game_end_animation_level, 0);
    assert!(game.show_cursor());
    assert!(game.difficulty() == Difficulty::MEDIUM);
    for y in 0..5 {
        for x in 0..6 {
            assert_eq!(game.cell(x, y), Cell { mines_seen: 0, cell_state: CellState::HIDDEN });
        }
    }
}

#[test]
fn counts_match_mines_after_placement() {
    for round in 0..20 {
        let game = started(12, 9, Difficulty::HARD, round % 12, round % 9);
        for y in 0..9 {
            for x in 0..12 {
                let c = game.cell(x, y);
                if !is_mine(c) {
                    let n = neighbors(&game, x, y).iter().filter(|(a, b)| is_mine(game.cell(*a, *b))).count();
                    assert_eq!(c.mines_seen as usize, n);
                }
            }
        }
    }
}

#[test]
fn place_mines_places_exact_count() {
    let mut game = new_game(10, 10, Difficulty::HARD);
    game.place_mines(4, 4);
    assert!(game.first_move_made());
    assert_eq!(count_mines(&game), 21);
    for y in 0..10 {
        for x in 0..10 {
            assert!(game.cell(x, y).cell_state == CellState::HIDDEN);
        }
    }
}

#[test]
fn first_reveal_area_is_mine_free() {
    for round in 0..20 {
        let (cx, cy) = (round % 10, (round * 3) % 10);
        let game = started(10, 10, Difficulty::HARD, cx, cy);
        assert!(game.game_state != GameState::FAILED);
        assert_eq!(count_mines(&game), 21);
        for y in 0..10usize {
            for x in 0..10usize {
                if x.abs_diff(cx) + y.abs_diff(cy) <= 2 {
                    assert!(!is_mine(game.cell(x, y)));
                }
            }
        }
    }
}

#[test]
fn empty_cell_reveal_opens_closed_region() {
    for round in 0..20 {
        let game = started(15, 12, Difficulty::MEDIUM, round % 15, round % 12);
        // the first cell has no mine around it
        assert_eq!(game.cell(round % 15, round % 12).mines_seen, 0);
        for y in 0..12 {
            for x in 0..15 {
                let c = game.cell(x, y);
                if is_mine(c) {
                    assert!(c.cell_state == CellState::HIDDEN);
                }
                if c.cell_state == CellState::REVEALED && c.mines_seen == 0 {
                    for (a, b) in neighbors(&game, x, y) {
                        assert!(game.cell(a, b).cell_state == CellState::REVEALED);
                    }
                }
            }
        }
    }
}

#[test]
fn hidden_count_falls_with_each_safe_reveal() {
    let mut game = new_game(16, 16, Difficulty::HARD);
    let before = game.hidden_cells_remaining;
    move_to(&mut game, 8, 8);
    game.reveal_cell();
    assert!(game.hidden_cells_remaining < before);
    assert_eq!(game.hidden_cells_remaining, unrevealed_safe(&game));
    while game.game_state == GameState::ACTIVE {
        let mut target = None;
        for y in 0..16 {
            for x in 0..16 {
                let c = game.cell(x, y);
                if target.is_none() && !is_mine(c) && c.cell_state == CellState::HIDDEN {
                    target = Some((x, y));
                }
            }
        }
        let (x, y) = target.unwrap();
        let before = game.hidden_cells_remaining;
        let states: Vec<CellState> = (0..256).map(|k| game.cell(k % 16, k / 16).cell_state).collect();
        move_to(&mut game, x, y);
        game.reveal_cell();
        assert!(game.hidden_cells_remaining < before);
        let opened = (0..256)
            .filter(|k| states[*k] == CellState::HIDDEN && game.cell(k % 16, k / 16).cell_state == CellState::REVEALED)
            .count();
        assert!(opened >= 1);
        assert_eq!(game.hidden_cells_remaining + opened, before);
        assert_eq!(game.hidden_cells_remaining, unrevealed_safe(&game));
        assert_eq!(game.hidden_cells_remaining == 0, game.game_state == GameState::SUCSESS);
    }
    assert!(game.game_state == GameState::SUCSESS);
    assert_eq!(game.hidden_cells_remaining, 0);
}

#[test]
fn revealing_a_mine_fails_and_freezes() {
    let mut game = started(10, 10, Difficulty::HARD, 5, 5);
    let mut mine = None;
    for y in 0..10 {
        for x in 0..10 {
            if mine.is_none() && is_mine(game.cell(x, y)) {
                mine = Some((x, y));
            }
        }
    }
    let (mx, my) = mine.unwrap();
    move_to(&mut game, mx, my);
    game.reveal_cell();
    assert!(game.game_state == GameState::FAILED);
    assert!(game.cell(mx, my).cell_state == CellState::REVEALED);
    let hidden = game.hidden_cells_remaining;
    let snapshot: Vec<Cell> = (0..100).map(|k| game.cell(k % 10, k / 10)).collect();
    for k in 0..100 {
        move_to(&mut game, k % 10, k / 10);
        game.reveal_cell();
    }
    let after: Vec<Cell> = (0..100).map(|k| game.cell(k % 10, k / 10)).collect();
    assert_eq!(snapshot, after);
    assert!(game.game_state == GameState::FAILED);
    assert_eq!(game.hidden_cells_remaining, hidden);
}

#[test]
fn toggling_twice_restores_budget() {
    let mut game = new_game(8, 8, Difficulty::MEDIUM);
    let flags = game.flags_available;
    move_to(&mut game, 3, 2);
    game.toggle_flag();
    assert_eq!(game.flags_available, flags - 1);
    assert!(game.cell(3, 2).cell_state == CellState::FLAGGED);
    game.toggle_flag();
    assert_eq!(game.flags_available, flags);
    assert!(game.cell(3, 2).cell_state == CellState::HIDDEN);
}

#[test]
fn flag_budget_can_go_negative() {
    let mut game = new_game(5, 5, Difficulty::EASY);
    assert_eq!(game.flags_available, 3);
    for k in 0..5 {
        move_to(&mut game, k, 0);
        game.toggle_flag();
    }
    assert_eq!(game.flags_available, -2);
}

#[test]
fn flagged_cell_resists_reveal() {
    let mut game = new_game(10, 10, Difficulty::MEDIUM);
    move_to(&mut game, 4, 4);
    game.toggle_flag();
    assert!(game.cell(4, 4).cell_state == CellState::FLAGGED);
    assert_eq!(game.flags_available, 15);
    game.reveal_cell();
    assert!(game.cell(4, 4).cell_state == CellState::FLAGGED);
    assert!(game.game_state == GameState::ACTIVE);
    game.toggle_flag();
    assert!(game.cell(4, 4).cell_state == CellState::HIDDEN);
    assert_eq!(game.flags_available, 16);
    game.reveal_cell();
    assert!(game.cell(4, 4).cell_state == CellState::REVEALED);
    assert!(game.game_state != GameState::FAILED);
}

#[test]
fn revealed_cell_cannot_be_flagged() {
    let mut game = started(10, 10, Difficulty::EASY, 5, 5);
    let flags = game.flags_available;
    game.toggle_flag();
    assert!(game.cell(5, 5).cell_state == CellState::REVEALED);
    assert_eq!(game.flags_available, flags);
}

#[test]
fn cursor_stays_on_grid() {
    let mut game = new_game(4, 3, Difficulty::EASY);
    game.move_cursor(Direction::Up);
    game.move_cursor(Direction::Left);
    assert_eq!((game.cursor_x(), game.cursor_y()), (0, 0));
    game.move_cursor(Direction::Right);
    game.move_cursor(Direction::Down);
    assert_eq!((game.cursor_x(), game.cursor_y()), (1, 1));
    for _ in 0..10 {
        game.move_cursor(Direction::Right);
        game.move_cursor(Direction::Down);
    }
    assert_eq!((game.cursor_x(), game.cursor_y()), (3, 2));
}

#[test]
fn animation_waits_for_game_end() {
    let mut game = new_game(6, 6, Difficulty::EASY);
    assert!(!game.advance_animation(1000));
    assert_eq!(game.game_end_animation_level, 0);
    game.tick();
    assert_eq!(game.game_end_animation_level, 0);
}

#[test]
fn animation_sweeps_outward_after_loss() {
    let mut game = started(9, 9, Difficulty::HARD, 4, 4);
    let mut mine = None;
    for y in 0..9 {
        for x in 0..9 {
            if mine.is_none() && is_mine(game.cell(x, y)) {
                mine = Some((x, y));
            }
        }
    }
    let (mx, my) = mine.unwrap();
    move_to(&mut game, mx, my);
    game.reveal_cell();
    assert!(game.game_state == GameState::FAILED);
    assert!(!game.advance_animation(124));
    assert_eq!(game.game_end_animation_level, 0);
    assert!(game.advance_animation(125));
    assert_eq!(game.game_end_animation_level, 1);
    assert!(game.cell(mx, my).cell_state == CellState::REVEALED);
    assert!(game.advance_animation(500));
    assert_eq!(game.game_end_animation_level, 2);
    for y in 0..9usize {
        for x in 0..9usize {
            let d = x.abs_diff(mx) + y.abs_diff(my);
            let st = game.cell(x, y).cell_state;
            if d == 1 {
                assert!(st == CellState::REVEALED || st == CellState::REVEALED_AFTER_END);
            }
            if d >= 2 {
                assert!(st != CellState::REVEALED_AFTER_END);
            }
        }
    }
    for _ in 0..20 {
        game.advance_animation(200);
    }
    for y in 0..9 {
        for x in 0..9 {
            let st = game.cell(x, y).cell_state;
            assert!(st == CellState::REVEALED || st == CellState::REVEALED_AFTER_END);
        }
    }
}

#[test]
fn flags_still_toggle_after_the_game_ends() {
    let mut game = started(10, 10, Difficulty::HARD, 5, 5);
    let mut mine = None;
    for y in 0..10 {
        for x in 0..10 {
            if mine.is_none() && is_mine(game.cell(x, y)) {
                mine = Some((x, y));
            }
        }
    }
    let (mx, my) = mine.unwrap();
    move_to(&mut game, mx, my);
    game.reveal_cell();
    assert!(game.game_state == GameState::FAILED);
    let mut hidden = None;
    for y in 0..10 {
        for x in 0..10 {
            if hidden.is_none() && game.cell(x, y).cell_state == CellState::HIDDEN {
                hidden = Some((x, y));
            }
        }
    }
    let (hx, hy) = hidden.unwrap();
    move_to(&mut game, hx, hy);
    let flags = game.flags_available;
    game.toggle_flag();
    assert!(game.cell(hx, hy).cell_state == CellState::FLAGGED);
    assert_eq!(game.flags_available, flags - 1);
    game.toggle_flag();
    assert!(game.cell(hx, hy).cell_state == CellState::HIDDEN);
    assert_eq!(game.flags_available, flags);
    // a cell swept open by the animation is left alone
    game.advance_animation(200);
    game.advance_animation(200);
    let st = game.cell(hx, hy).cell_state;
    assert!(st == CellState::REVEALED_AFTER_END);
    game.toggle_flag();
    assert!(game.cell(hx, hy).cell_state == CellState::REVEALED_AFTER_END);
    assert_eq!(game.flags_available, flags);
}

#[test]
fn mines_hold_the_sentinel() {
    let game = started(10, 10, Difficulty::HARD, 2, 7);
    for y in 0..10 {
        for x in 0..10 {
            let c = game.cell(x, y);
            assert!(c.mines_seen == termsweeper::cell::MINE || (0..=8).contains(&c.mines_seen));
        }
    }
}
