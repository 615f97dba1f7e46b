use minesweeper::cell::CellState;
use minesweeper::game::{number_to_sprites, Button, GameState, PlayState};
use minesweeper::grid::{BoardState, Grid};

fn game(width: i32, height: i32, mines: &[(i32, i32)]) -> GameState {
    let mut grid = Grid::new(width, height).unwrap();
    for &(x, y) in mines {
        grid.place_mine(x, y);
    }
    GameState::new(mines.len() as i32, grid)
}

#[test]
fn new_game_has_not_started() {
    let g = game(3, 3, &[(0, 0), (1, 1)]);
    assert_eq!(g.total_mines(), 2);
    assert_eq!(g.total_flags(), 0);
    assert_eq!(g.turns(), 0);
    assert_eq!(g.play_state(), PlayState::Unstarted);
    assert_eq!(g.elapsed(1000), 0);
    assert_eq!(g.grid().width(), 3);
    assert!(g.grid().get(1, 1).unwrap().has_mine);
}

#[test]
fn first_click_starts_the_clock() {
    let mut g = game(3, 3, &[(0, 0)]);
    assert_eq!(g.on_left_click(1, 1, 40), BoardState::InProgress);
    assert_eq!(g.play_state(), PlayState::Playing(40));
    assert_eq!(g.turns(), 1);
    assert_eq!(g.elapsed(100), 60);
    assert_eq!(g.elapsed(40), 0);
    assert_eq!(g.elapsed(10), 0);
    assert_eq!(g.grid().get(1, 1).unwrap().state, CellState::Exposed);
}

#[test]
fn later_clicks_keep_the_start_time() {
    let mut g = game(3, 1, &[(1, 0)]);
    assert_eq!(g.on_left_click(0, 0, 5), BoardState::InProgress);
    assert_eq!(g.on_left_click(0, 0, 9), BoardState::InProgress);
    assert_eq!(g.play_state(), PlayState::Playing(5));
    assert_eq!(g.turns(), 2);
    assert_eq!(g.on_left_click(2, 0, 25), BoardState::Cleared);
    assert_eq!(g.play_state(), PlayState::Won(20));
    assert_eq!(g.turns(), 3);
    assert_eq!(g.elapsed(1000), 20);
}

#[test]
fn winning_with_the_first_click_takes_no_time() {
    let mut g = game(3, 3, &[]);
    assert_eq!(g.on_left_click(1, 1, 77), BoardState::Cleared);
    assert_eq!(g.play_state(), PlayState::Won(0));
    assert_eq!(g.elapsed(500), 0);
    assert_eq!(g.turns(), 1);
}

#[test]
fn a_mine_ends_the_game() {
    let mut g = game(2, 2, &[(0, 0)]);
    assert_eq!(g.on_left_click(1, 1, 10), BoardState::InProgress);
    assert_eq!(g.on_left_click(0, 0, 35), BoardState::Detonated);
    assert_eq!(g.play_state(), PlayState::Lost(25));
    assert_eq!(g.turns(), 2);
    assert_eq!(g.elapsed(99), 25);
    assert_eq!(g.grid().get(0, 0).unwrap().state, CellState::Exposed);
}

#[test]
fn finished_game_ignores_clicks() {
    let mut g = game(2, 2, &[(0, 0)]);
    assert_eq!(g.on_right_click(1, 0), 1);
    assert_eq!(g.on_left_click(0, 0, 3), BoardState::Detonated);
    let text = g.grid().to_text();
    assert_eq!(g.on_left_click(1, 1, 8), BoardState::InProgress);
    assert_eq!(g.on_right_click(0, 1), 0);
    assert_eq!(g.on_right_click(1, 0), 0);
    assert_eq!(g.play_state(), PlayState::Lost(0));
    assert_eq!(g.turns(), 1);
    assert_eq!(g.total_flags(), 1);
    assert_eq!(g.grid().to_text(), text);

    let mut w = game(2, 1, &[(0, 0)]);
    assert_eq!(w.on_left_click(1, 0, 3), BoardState::Cleared);
    assert_eq!(w.on_left_click(0, 0, 4), BoardState::InProgress);
    assert_eq!(w.on_right_click(0, 0), 0);
    assert_eq!(w.play_state(), PlayState::Won(0));
    assert_eq!(w.turns(), 1);
    assert_eq!(w.grid().get(0, 0).unwrap().state, CellState::Covered);
}

#[test]
fn click_off_the_board_is_not_played() {
    let mut g = game(2, 2, &[(0, 0)]);
    assert_eq!(g.on_left_click(-1, 0, 5), BoardState::InProgress);
    assert_eq!(g.on_left_click(0, 2, 5), BoardState::InProgress);
    assert_eq!(g.play_state(), PlayState::Unstarted);
    assert_eq!(g.turns(), 0);
    assert_eq!(g.on_right_click(2, 0), 0);
    assert_eq!(g.total_flags(), 0);
}

#[test]
fn right_click_counts_flags() {
    let mut g = game(2, 2, &[(0, 0)]);
    assert_eq!(g.on_right_click(0, 0), 1);
    assert_eq!(g.on_right_click(1, 1), 1);
    assert_eq!(g.total_flags(), 2);
    assert_eq!(g.play_state(), PlayState::Unstarted);
    assert_eq!(g.turns(), 0);
    assert_eq!(g.on_right_click(0, 0), -1);
    assert_eq!(g.total_flags(), 1);
    assert_eq!(g.on_left_click(1, 0, 1), BoardState::InProgress);
    assert_eq!(g.on_right_click(1, 0), 0);
    assert_eq!(g.total_flags(), 1);
    assert_eq!(g.play_state(), PlayState::Playing(1));
}

#[test]
fn click_on_a_flag_is_a_turn_that_changes_nothing() {
    let mut g = game(2, 2, &[(0, 0)]);
    assert_eq!(g.on_right_click(0, 0), 1);
    assert_eq!(g.on_left_click(0, 0, 12), BoardState::InProgress);
    assert_eq!(g.play_state(), PlayState::Playing(12));
    assert_eq!(g.turns(), 1);
    assert_eq!(g.grid().get(0, 0).unwrap().state, CellState::Flagged);
}

#[test]
fn play_state_moves_on_with_the_outcome() {
    let u = PlayState::Unstarted;
    assert_eq!(u.advance(BoardState::InProgress, 7), PlayState::Playing(7));
    assert_eq!(u.advance(BoardState::Cleared, 7), PlayState::Won(0));
    assert_eq!(u.advance(BoardState::Detonated, 7), PlayState::Lost(0));
    let p = PlayState::Playing(10);
    assert_eq!(p.advance(BoardState::InProgress, 15), PlayState::Playing(10));
    assert_eq!(p.advance(BoardState::Cleared, 15), PlayState::Won(5));
    assert_eq!(p.advance(BoardState::Detonated, 31), PlayState::Lost(21));
    assert_eq!(p.advance(BoardState::Detonated, 4), PlayState::Lost(0));
    for outcome in [BoardState::InProgress, BoardState::Cleared, BoardState::Detonated] {
        assert_eq!(PlayState::Won(3).advance(outcome, 50), PlayState::Won(3));
        assert_eq!(PlayState::Lost(4).advance(outcome, 50), PlayState::Lost(4));
    }
}

#[test]
fn play_state_knows_when_it_is_finished() {
    assert!(!PlayState::Unstarted.is_finished());
    assert!(!PlayState::Playing(0).is_finished());
    assert!(PlayState::Won(1).is_finished());
    assert!(PlayState::Lost(1).is_finished());
}

#[test]
fn elapsed_time_by_state() {
    assert_eq!(PlayState::Unstarted.elapsed(9), 0);
    assert_eq!(PlayState::Playing(4).elapsed(9), 5);
    assert_eq!(PlayState::Playing(9).elapsed(4), 0);
    assert_eq!(PlayState::Playing(0).elapsed(u64::MAX), u64::MAX);
    assert_eq!(PlayState::Won(6).elapsed(9), 6);
    assert_eq!(PlayState::Lost(8).elapsed(0), 8);
}

#[test]
fn number_as_digit_sprites() {
    assert_eq!(number_to_sprites(0), vec![0]);
    assert_eq!(number_to_sprites(7), vec![7]);
    assert_eq!(number_to_sprites(10), vec![1, 0]);
    assert_eq!(number_to_sprites(405), vec![4, 0, 5]);
    assert_eq!(number_to_sprites(1000), vec![1, 0, 0, 0]);
    assert_eq!(number_to_sprites(i32::MAX), vec![2, 1, 4, 7, 4, 8, 3, 6, 4, 7]);
}

#[test]
fn left_button_clicks_on_the_field_only() {
    let mut g = game(2, 2, &[(0, 0)]);
    g.mouse_button_down_event(Button::Left, 1, 1, false, 3);
    assert_eq!(g.play_state(), PlayState::Unstarted);
    assert_eq!(g.turns(), 0);
    assert_eq!(g.grid().get(1, 1).unwrap().state, CellState::Covered);
    g.mouse_button_down_event(Button::Left, 1, 1, true, 4);
    assert_eq!(g.play_state(), PlayState::Playing(4));
    assert_eq!(g.turns(), 1);
    assert_eq!(g.grid().get(1, 1).unwrap().state, CellState::Exposed);
    g.mouse_button_down_event(Button::Left, 0, 0, true, 10);
    assert_eq!(g.play_state(), PlayState::Lost(6));
    assert_eq!(g.turns(), 2);
}

#[test]
fn right_button_flags_wherever_it_goes_down() {
    let mut g = game(2, 2, &[(0, 0)]);
    g.mouse_button_down_event(Button::Right, 0, 1, false, 3);
    assert_eq!(g.total_flags(), 1);
    assert_eq!(g.grid().get(0, 1).unwrap().state, CellState::Flagged);
    g.mouse_button_down_event(Button::Right, 0, 1, true, 3);
    assert_eq!(g.total_flags(), 0);
    assert_eq!(g.grid().get(0, 1).unwrap().state, CellState::Covered);
    assert_eq!(g.play_state(), PlayState::Unstarted);
    assert_eq!(g.turns(), 0);
}

#[test]
fn other_buttons_do_nothing() {
    let mut g = game(2, 2, &[(0, 0)]);
    g.mouse_button_down_event(Button::Other, 1, 1, true, 3);
    assert_eq!(g.play_state(), PlayState::Unstarted);
    assert_eq!(g.turns(), 0);
    assert_eq!(g.total_flags(), 0);
    assert_eq!(g.grid().to_text(), "- -\n- -");
}
