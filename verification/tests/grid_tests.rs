use minesweeper::cell::{Cell, CellState};
use minesweeper::grid::{BoardState, Grid, GridError};

fn grid(width: i32, height: i32, mines: &[(i32, i32)]) -> Grid {
    let mut grid = Grid::new(width, height).unwrap();
    for &(x, y) in mines {
        grid.place_mine(x, y);
    }
    grid
}

fn state(grid: &Grid, x: i32, y: i32) -> CellState {
    grid.get(x, y).unwrap().state
}

fn around(grid: &Grid, x: i32, y: i32) -> Vec<Cell> {
    grid.get_neighbors(x, y).into_iter().copied().collect()
}

fn count(grid: &Grid, x: i32, y: i32) -> u8 {
    grid.get(x, y).unwrap().neighboring_mines
}

fn mines_around(grid: &Grid, x: i32, y: i32) -> u8 {
    let mut n = 0;
    for dy in -1..=1 {
        for dx in -1..=1 {
            if (dx, dy) != (0, 0) {
                if let Some(cell) = grid.get(x + dx, y + dy) {
                    if cell.has_mine {
                        n += 1;
                    }
                }
            }
        }
    }
    n
}

#[test]
fn new_grid_is_covered_and_empty() {
    let g = Grid::new(4, 3).unwrap();
    assert_eq!(g.width(), 4);
    assert_eq!(g.height(), 3);
    for y in 0..3 {
        for x in 0..4 {
            assert_eq!(g.get(x, y), Some(Cell::new(CellState::Covered, false, 0)));
        }
    }
}

#[test]
fn new_rejects_non_positive_width() {
    assert_eq!(Grid::new(0, 5).err(), Some(GridError::NonPositiveWidth));
    assert_eq!(Grid::new(-3, 5).err(), Some(GridError::NonPositiveWidth));
    assert_eq!(Grid::new(0, 0).err(), Some(GridError::NonPositiveWidth));
}

#[test]
fn new_rejects_non_positive_height() {
    assert_eq!(Grid::new(5, 0).err(), Some(GridError::NonPositiveHeight));
    assert_eq!(Grid::new(5, -1).err(), Some(GridError::NonPositiveHeight));
}

#[test]
fn empty_board_clears_on_first_click() {
    let mut g = grid(3, 3, &[]);
    assert_eq!(g.uncover(1, 1), BoardState::Cleared);
    for y in 0..3 {
        for x in 0..3 {
            assert_eq!(state(&g, x, y), CellState::Exposed);
        }
    }
}

#[test]
fn count_stops_the_fill() {
    let mut g = grid(2, 2, &[(0, 0)]);
    assert!(g.get(0, 0).unwrap().has_mine);
    assert_eq!(count(&g, 0, 1), 1);
    assert_eq!(count(&g, 1, 0), 1);
    assert_eq!(count(&g, 1, 1), 1);
    assert_eq!(g.uncover(1, 1), BoardState::InProgress);
    assert_eq!(state(&g, 1, 1), CellState::Exposed);
    assert_eq!(state(&g, 0, 0), CellState::Covered);
    assert_eq!(state(&g, 1, 0), CellState::Covered);
    assert_eq!(state(&g, 0, 1), CellState::Covered);
}

#[test]
fn single_mine_detonates() {
    let mut g = grid(1, 1, &[(0, 0)]);
    assert_eq!(g.uncover(0, 0), BoardState::Detonated);
    assert_eq!(state(&g, 0, 0), CellState::Exposed);
    assert!(g.get(0, 0).unwrap().has_mine);
}

#[test]
fn flagged_square_is_not_uncovered() {
    let mut g = grid(3, 3, &[(2, 2)]);
    assert_eq!(g.toggle_flag(0, 0), 1);
    assert_eq!(state(&g, 0, 0), CellState::Flagged);
    let before = g.to_text();
    assert_eq!(g.uncover(0, 0), BoardState::InProgress);
    assert_eq!(g.to_text(), before);
    assert_eq!(state(&g, 0, 0), CellState::Flagged);
}

#[test]
fn flagged_mine_is_not_set_off_by_a_click() {
    let mut g = grid(2, 2, &[(0, 0)]);
    assert_eq!(g.toggle_flag(0, 0), 1);
    assert_eq!(g.uncover(0, 0), BoardState::InProgress);
    assert_eq!(state(&g, 0, 0), CellState::Flagged);
}

#[test]
fn off_board_positions_have_no_effect() {
    let mut g = grid(3, 2, &[(1, 1)]);
    let before = g.to_text();
    for &(x, y) in &[(-1, 0), (3, 0), (0, -1), (0, 2), (i32::MAX, i32::MAX), (i32::MIN, i32::MIN)] {
        assert_eq!(g.get(x, y), None);
        assert_eq!(g.uncover(x, y), BoardState::InProgress);
        assert_eq!(g.toggle_flag(x, y), 0);
        g.place_mine(x, y);
        assert!(g.get_neighbors(x, y).is_empty());
        assert_eq!(g.to_text(), before);
    }
    assert_eq!(count(&g, 0, 0), 1);
    assert_eq!(count(&g, 2, 0), 1);
}

#[test]
fn toggle_flag_twice_returns_to_covered() {
    let mut g = grid(2, 2, &[]);
    assert_eq!(g.toggle_flag(1, 0), 1);
    assert_eq!(state(&g, 1, 0), CellState::Flagged);
    assert_eq!(g.toggle_flag(1, 0), -1);
    assert_eq!(state(&g, 1, 0), CellState::Covered);
    assert_eq!(g.get(1, 0), Some(Cell::new(CellState::Covered, false, 0)));
}

#[test]
fn toggle_flag_leaves_exposed_square() {
    let mut g = grid(2, 1, &[(0, 0)]);
    assert_eq!(g.uncover(1, 0), BoardState::Cleared);
    assert_eq!(g.toggle_flag(1, 0), 0);
    assert_eq!(state(&g, 1, 0), CellState::Exposed);
}

#[test]
fn counts_match_mines_around_each_square() {
    let mines = [(0, 0), (1, 0), (2, 0), (0, 1), (2, 1), (0, 2), (1, 2), (2, 2), (4, 3), (3, 0)];
    let g = grid(5, 4, &mines);
    for y in 0..4 {
        for x in 0..5 {
            assert_eq!(count(&g, x, y), mines_around(&g, x, y));
            assert_eq!(g.get(x, y).unwrap().has_mine, mines.contains(&(x, y)));
        }
    }
    assert_eq!(count(&g, 1, 1), 8);
    assert_eq!(count(&g, 4, 0), 1);
    assert_eq!(count(&g, 0, 0), 2);
    assert_eq!(count(&g, 4, 2), 1);
}

#[test]
fn mine_in_the_corner_is_counted_by_its_neighbors() {
    let g = grid(3, 3, &[(0, 0)]);
    assert_eq!(count(&g, 1, 0), 1);
    assert_eq!(count(&g, 0, 1), 1);
    assert_eq!(count(&g, 1, 1), 1);
    assert_eq!(count(&g, 2, 2), 0);
    assert_eq!(count(&g, 0, 0), 0);
}

#[test]
fn placing_a_mine_twice_counts_once() {
    let mut g = grid(3, 3, &[(1, 1)]);
    let once = g.to_text();
    let cells: Vec<Option<Cell>> = (0..9).map(|i| g.get(i % 3, i / 3)).collect();
    g.place_mine(1, 1);
    let again: Vec<Option<Cell>> = (0..9).map(|i| g.get(i % 3, i / 3)).collect();
    assert_eq!(cells, again);
    assert_eq!(g.to_text(), once);
    assert_eq!(count(&g, 0, 0), 1);
}

#[test]
fn placing_a_mine_keeps_states() {
    let mut g = grid(3, 1, &[]);
    assert_eq!(g.toggle_flag(1, 0), 1);
    g.place_mine(0, 0);
    assert_eq!(g.get(1, 0), Some(Cell::new(CellState::Flagged, false, 1)));
    assert_eq!(g.get(0, 0), Some(Cell::new(CellState::Covered, true, 0)));
    assert_eq!(g.get(2, 0), Some(Cell::new(CellState::Covered, false, 0)));
}

#[test]
fn neighbors_come_clockwise_from_the_upper_left() {
    let mut g = grid(3, 3, &[(0, 0), (2, 1)]);
    assert_eq!(g.toggle_flag(1, 2), 1);
    let around = around(&g, 1, 1);
    let want = vec![
        g.get(0, 0).unwrap(),
        g.get(1, 0).unwrap(),
        g.get(2, 0).unwrap(),
        g.get(2, 1).unwrap(),
        g.get(2, 2).unwrap(),
        g.get(1, 2).unwrap(),
        g.get(0, 2).unwrap(),
        g.get(0, 1).unwrap(),
    ];
    assert_eq!(around, want);
    assert!(around[0].has_mine);
    assert!(around[3].has_mine);
    assert_eq!(around[5].state, CellState::Flagged);
}

#[test]
fn neighbors_at_the_edges() {
    let g = grid(3, 3, &[(1, 1)]);
    assert_eq!(g.get_neighbors(0, 0).len(), 3);
    assert_eq!(g.get_neighbors(1, 0).len(), 5);
    assert_eq!(g.get_neighbors(2, 2).len(), 3);
    assert_eq!(g.get_neighbors(1, 1).len(), 8);
    let corner = around(&g, 0, 0);
    assert_eq!(corner, vec![g.get(1, 0).unwrap(), g.get(1, 1).unwrap(), g.get(0, 1).unwrap()]);
    assert!(corner[1].has_mine);
    assert!(grid(1, 1, &[]).get_neighbors(0, 0).is_empty());
}

#[test]
fn flood_fill_stops_at_counts_and_spares_mines() {
    let mut g = grid(5, 1, &[(3, 0)]);
    assert_eq!(g.uncover(0, 0), BoardState::InProgress);
    assert_eq!(g.to_text(), "0 0 1 - -");
    assert_eq!(g.uncover(4, 0), BoardState::Cleared);
    assert_eq!(g.to_text(), "0 0 1 - 1");
    assert_eq!(state(&g, 3, 0), CellState::Covered);
}

#[test]
fn flood_fill_goes_around_a_flag() {
    let mut g = grid(3, 1, &[]);
    assert_eq!(g.toggle_flag(1, 0), 1);
    assert_eq!(g.uncover(0, 0), BoardState::InProgress);
    assert_eq!(g.to_text(), "0 F -");
    let mut h = grid(3, 2, &[]);
    assert_eq!(h.toggle_flag(1, 0), 1);
    assert_eq!(h.uncover(0, 0), BoardState::InProgress);
    assert_eq!(h.to_text(), "0 F 0\n0 0 0");
    assert_eq!(h.toggle_flag(1, 0), -1);
    assert_eq!(h.uncover(1, 0), BoardState::Cleared);
}

#[test]
fn flood_fill_is_the_same_from_any_square_of_a_region() {
    let mines = [(3, 3), (0, 5)];
    let mut texts = Vec::new();
    for &(x, y) in &[(0, 0), (5, 0), (1, 2), (5, 5), (2, 5)] {
        let mut g = grid(6, 6, &mines);
        assert_eq!(count(&g, x, y), 0);
        assert_eq!(g.uncover(x, y), BoardState::Cleared);
        texts.push(g.to_text());
    }
    for text in &texts {
        assert_eq!(text, &texts[0]);
    }
    assert_eq!(
        texts[0],
        "0 0 0 0 0 0\n0 0 0 0 0 0\n0 0 1 1 1 0\n0 0 1 - 1 0\n1 1 1 1 1 0\n- 1 0 0 0 0"
    );
}

#[test]
fn flood_fill_keeps_to_its_region() {
    let mut g = grid(5, 1, &[(2, 0)]);
    assert_eq!(g.uncover(0, 0), BoardState::InProgress);
    assert_eq!(g.to_text(), "0 1 - - -");
    assert_eq!(g.uncover(4, 0), BoardState::Cleared);
    assert_eq!(g.to_text(), "0 1 - 1 0");
}

#[test]
fn flood_fill_covers_a_large_board() {
    let mut g = grid(300, 300, &[(299, 299)]);
    assert_eq!(g.uncover(0, 0), BoardState::Cleared);
    assert_eq!(state(&g, 298, 298), CellState::Exposed);
    assert_eq!(count(&g, 298, 298), 1);
    assert_eq!(state(&g, 299, 299), CellState::Covered);
    assert!(g.is_cleared());
}

#[test]
fn detonation_exposes_every_mine() {
    let mut g = grid(3, 3, &[(0, 0), (2, 2), (1, 0)]);
    assert_eq!(g.toggle_flag(2, 2), 1);
    assert_eq!(g.toggle_flag(0, 1), 1);
    assert_eq!(g.uncover(0, 0), BoardState::Detonated);
    assert_eq!(state(&g, 0, 0), CellState::Exposed);
    assert_eq!(state(&g, 1, 0), CellState::Exposed);
    assert_eq!(state(&g, 2, 2), CellState::Exposed);
    assert_eq!(state(&g, 0, 1), CellState::Flagged);
    assert_eq!(state(&g, 1, 1), CellState::Covered);
    assert_eq!(g.to_text(), "% % -\nF - -\n- - %");
}

#[test]
fn clearing_leaves_mines_covered() {
    let mut g = grid(3, 3, &[(0, 0)]);
    assert_eq!(g.uncover(2, 2), BoardState::Cleared);
    assert_eq!(state(&g, 0, 0), CellState::Covered);
    for &(x, y) in &[(1, 0), (2, 0), (0, 1), (1, 1), (2, 1), (0, 2), (1, 2), (2, 2)] {
        assert_eq!(state(&g, x, y), CellState::Exposed);
    }
    assert!(g.is_cleared());
}

#[test]
fn click_on_exposed_square_is_in_progress() {
    let mut g = grid(2, 2, &[]);
    assert_eq!(g.uncover(0, 0), BoardState::Cleared);
    assert_eq!(g.uncover(0, 0), BoardState::InProgress);
    assert_eq!(g.to_text(), "0 0\n0 0");
}

#[test]
fn uncover_bombs_exposes_mines_only() {
    let mut g = grid(2, 2, &[(0, 0), (1, 1)]);
    g.uncover_bombs();
    assert_eq!(g.get(0, 0), Some(Cell::new(CellState::Exposed, true, 1)));
    assert_eq!(g.get(1, 1), Some(Cell::new(CellState::Exposed, true, 1)));
    assert_eq!(g.get(1, 0), Some(Cell::new(CellState::Covered, false, 2)));
    assert_eq!(g.get(0, 1), Some(Cell::new(CellState::Covered, false, 2)));
}

#[test]
fn is_cleared_looks_at_squares_without_mines() {
    let mut g = grid(2, 1, &[(0, 0)]);
    assert!(!g.is_cleared());
    assert_eq!(g.uncover(1, 0), BoardState::Cleared);
    assert!(g.is_cleared());
    assert!(grid(1, 1, &[(0, 0)]).is_cleared());
    assert!(!grid(1, 1, &[]).is_cleared());
}

#[test]
fn text_shows_each_kind_of_square() {
    let mut g = grid(3, 2, &[(0, 0), (1, 0)]);
    assert_eq!(g.to_text(), "- - -\n- - -");
    assert_eq!(g.toggle_flag(2, 0), 1);
    assert_eq!(g.uncover(1, 1), BoardState::InProgress);
    assert_eq!(g.to_text(), "- - F\n- 2 -");
    assert_eq!(g.uncover(0, 0), BoardState::Detonated);
    assert_eq!(g.to_text(), "% % F\n- 2 -");
    assert_eq!(grid(1, 1, &[]).to_text(), "-");
    assert_eq!(grid(1, 3, &[]).to_text(), "-\n-\n-");
}

#[test]
fn rows_are_stored_one_after_another() {
    let mut g = grid(3, 2, &[]);
    assert_eq!(g.toggle_flag(2, 0), 1);
    assert_eq!(g.toggle_flag(0, 1), 1);
    assert_eq!(g.to_text(), "- - F\nF - -");
    assert_eq!(state(&g, 2, 0), CellState::Flagged);
    assert_eq!(state(&g, 0, 1), CellState::Flagged);
    assert_eq!(state(&g, 1, 1), CellState::Covered);
}
