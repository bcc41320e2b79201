use two_oh_four_eight::game::{
    button_interaction, button_text, end_game, game_reset, ButtonShade, Game, Interaction, RunState,
};
use two_oh_four_eight::grid::{Board, Points, Position, Tile};

/// A full board of the given size with the values laid out row by row, the
/// bottom row first.
fn full_board(size: u8, values: &[u32]) -> Board {
    let mut board = Board::new(size);
    for (i, &value) in values.iter().enumerate() {
        let x = (i % size as usize) as u8;
        let y = (i / size as usize) as u8;
        board.tiles.push(Tile { position: Position { x, y }, points: Points { value } });
    }
    board
}

const CHEQUERED: [u32; 16] = [2, 4, 2, 4, 4, 2, 4, 2, 2, 4, 2, 4, 4, 2, 4, 2];

#[test]
fn a_full_board_without_equal_neighbours_ends_the_game() {
    let board = full_board(4, &CHEQUERED);
    assert!(!board.has_move());
    let mut state = RunState::Playing;
    end_game(&board, &mut state);
    assert_eq!(state, RunState::GameOver);
}

#[test]
fn one_equal_pair_in_a_row_keeps_the_game_going() {
    let mut values = CHEQUERED;
    values[5] = 4;
    let board = full_board(4, &values);
    assert!(board.has_move());
    let mut state = RunState::Playing;
    end_game(&board, &mut state);
    assert_eq!(state, RunState::Playing);
}

#[test]
fn one_equal_pair_in_a_column_keeps_the_game_going() {
    let mut values = CHEQUERED;
    values[0] = 8;
    values[4] = 8;
    let board = full_board(4, &values);
    assert!(board.has_move());
    let mut state = RunState::Playing;
    end_game(&board, &mut state);
    assert_eq!(state, RunState::Playing);
}

#[test]
fn equal_values_on_a_diagonal_are_no_move() {
    let mut values = CHEQUERED;
    values[0] = 8;
    values[5] = 8;
    values[10] = 8;
    values[15] = 8;
    let board = full_board(4, &values);
    assert!(!board.has_move());
    let mut state = RunState::Playing;
    end_game(&board, &mut state);
    assert_eq!(state, RunState::GameOver);
}

#[test]
fn equal_values_across_the_edge_of_a_row_are_no_move() {
    let values = [2, 4, 8, 16, 16, 32, 64, 128, 2, 4, 8, 16, 16, 32, 64, 128];
    let board = full_board(4, &values);
    assert!(!board.has_move());
}

#[test]
fn a_board_with_a_free_cell_keeps_the_game_going() {
    let mut board = full_board(4, &CHEQUERED);
    board.tiles.pop();
    let mut state = RunState::Playing;
    end_game(&board, &mut state);
    assert_eq!(state, RunState::Playing);
    let mut state = RunState::Playing;
    end_game(&Board::new(4), &mut state);
    assert_eq!(state, RunState::Playing);
}

#[test]
fn a_game_that_is_over_stays_over() {
    let mut values = CHEQUERED;
    values[5] = 4;
    let mut state = RunState::GameOver;
    end_game(&full_board(4, &values), &mut state);
    assert_eq!(state, RunState::GameOver);
}

#[test]
fn a_full_board_of_one_cell_is_terminal() {
    let mut state = RunState::Playing;
    end_game(&full_board(1, &[2]), &mut state);
    assert_eq!(state, RunState::GameOver);
}

#[test]
fn neighbour_holds_looks_at_the_four_cells_beside() {
    let board = full_board(4, &CHEQUERED);
    assert!(board.neighbour_holds(&Position { x: 0, y: 0 }, 4));
    assert!(!board.neighbour_holds(&Position { x: 0, y: 0 }, 2));
    assert!(board.neighbour_holds(&Position { x: 3, y: 3 }, 4));
    assert!(!board.neighbour_holds(&Position { x: 3, y: 3 }, 2));
    let mut lone = Board::new(4);
    lone.spawn_tile(Position { x: 1, y: 1 });
    assert!(lone.neighbour_holds(&Position { x: 0, y: 1 }, 2));
    assert!(lone.neighbour_holds(&Position { x: 2, y: 1 }, 2));
    assert!(lone.neighbour_holds(&Position { x: 1, y: 0 }, 2));
    assert!(lone.neighbour_holds(&Position { x: 1, y: 2 }, 2));
    assert!(!lone.neighbour_holds(&Position { x: 1, y: 1 }, 2));
    assert!(!lone.neighbour_holds(&Position { x: 2, y: 2 }, 2));
}

#[test]
fn a_reset_clears_the_board_and_keeps_the_best_score() {
    let mut board = full_board(4, &CHEQUERED);
    let mut game = Game { score: 120, score_best: 300 };
    game_reset(&mut board, &mut game);
    assert_eq!(board.size, 4);
    assert!(board.tiles.is_empty());
    assert_eq!(game, Game { score: 0, score_best: 300 });
}

#[test]
fn a_session_starts_playing_with_no_score() {
    assert_eq!(RunState::default(), RunState::Playing);
    assert_eq!(Game::default(), Game { score: 0, score_best: 0 });
}

#[test]
fn a_press_asks_for_the_other_phase() {
    assert_eq!(
        button_interaction(Interaction::Pressed, RunState::Playing),
        (ButtonShade::Pressed, Some(RunState::GameOver))
    );
    assert_eq!(
        button_interaction(Interaction::Pressed, RunState::GameOver),
        (ButtonShade::Pressed, Some(RunState::Playing))
    );
}

#[test]
fn hovering_and_leaving_only_change_the_shade() {
    for state in [RunState::Playing, RunState::GameOver] {
        assert_eq!(button_interaction(Interaction::Hovered, state), (ButtonShade::Hovered, None));
        assert_eq!(button_interaction(Interaction::Idle, state), (ButtonShade::Normal, None));
    }
}

#[test]
fn the_button_says_what_a_press_will_do() {
    assert_eq!(button_text(RunState::Playing), "End Game");
    assert_eq!(button_text(RunState::GameOver), "New Game");
}
