use std::cmp::Ordering;
use two_oh_four_eight::direction::{BoardShift, Key};
use two_oh_four_eight::game::Game;
use two_oh_four_eight::grid::{Board, Points, Position, Tile};
use two_oh_four_eight::shift::{board_shift, checked_board_shift, find_shift};

fn tile(x: u8, y: u8, value: u32) -> Tile {
    Tile { position: Position { x, y }, points: Points { value } }
}

fn board(size: u8, tiles: &[(u8, u8, u32)]) -> Board {
    Board { size, tiles: tiles.iter().map(|&(x, y, value)| tile(x, y, value)).collect() }
}

/// The tiles of a board as `(x, y, value)`, in a fixed order.
fn cells(board: &Board) -> Vec<(u8, u8, u32)> {
    let mut cells: Vec<(u8, u8, u32)> =
        board.tiles.iter().map(|t| (t.position.x, t.position.y, t.points.value)).collect();
    cells.sort();
    cells
}

fn shifted(shift: BoardShift, size: u8, tiles: &[(u8, u8, u32)]) -> (Vec<(u8, u8, u32)>, u32) {
    let mut board = board(size, tiles);
    let mut game = Game { score: 0, score_best: 0 };
    shift.apply(&mut board, &mut game);
    (cells(&board), game.score)
}

#[test]
fn left_merges_two_equal_tiles() {
    let mut board = board(4, &[(0, 0, 2), (1, 0, 2)]);
    let mut game = Game { score: 10, score_best: 0 };
    BoardShift::Left.apply(&mut board, &mut game);
    assert_eq!(cells(&board), vec![(0, 0, 4)]);
    assert_eq!(game.score, 14);
}

#[test]
fn right_merges_the_pair_behind_a_different_tile() {
    let (after, score) = shifted(BoardShift::Right, 4, &[(0, 0, 2), (2, 0, 2), (3, 0, 4)]);
    assert_eq!(after, vec![(2, 0, 4), (3, 0, 4)]);
    assert_eq!(score, 4);
}

#[test]
fn right_keeps_three_different_tiles_apart() {
    let (after, score) = shifted(BoardShift::Right, 4, &[(0, 0, 2), (1, 0, 8), (3, 0, 4)]);
    assert_eq!(after, vec![(1, 0, 2), (2, 0, 8), (3, 0, 4)]);
    assert_eq!(score, 0);
}

#[test]
fn left_slides_without_merging() {
    let (after, score) = shifted(BoardShift::Left, 4, &[(1, 2, 2), (3, 2, 4)]);
    assert_eq!(after, vec![(0, 2, 2), (1, 2, 4)]);
    assert_eq!(score, 0);
}

#[test]
fn up_stacks_against_the_top_edge() {
    let (after, score) = shifted(BoardShift::Up, 4, &[(1, 0, 2), (1, 1, 2), (1, 3, 8), (2, 0, 4)]);
    assert_eq!(after, vec![(1, 2, 4), (1, 3, 8), (2, 3, 4)]);
    assert_eq!(score, 4);
}

#[test]
fn down_stacks_against_the_bottom_edge() {
    let (after, score) = shifted(BoardShift::Down, 4, &[(0, 3, 16), (0, 1, 16), (3, 2, 2)]);
    assert_eq!(after, vec![(0, 0, 32), (3, 0, 2)]);
    assert_eq!(score, 32);
}

#[test]
fn four_equal_tiles_make_two_pairs() {
    let (after, score) =
        shifted(BoardShift::Left, 4, &[(0, 1, 2), (1, 1, 2), (2, 1, 2), (3, 1, 2)]);
    assert_eq!(after, vec![(0, 1, 4), (1, 1, 4)]);
    assert_eq!(score, 8);
}

#[test]
fn a_merged_tile_does_not_merge_again() {
    let (after, score) = shifted(BoardShift::Left, 4, &[(0, 0, 2), (1, 0, 2), (2, 0, 4)]);
    assert_eq!(after, vec![(0, 0, 4), (1, 0, 4)]);
    assert_eq!(score, 4);
}

#[test]
fn the_pair_nearest_to_the_wall_merges_first() {
    let (after, score) = shifted(BoardShift::Right, 4, &[(0, 0, 2), (1, 0, 2), (2, 0, 2)]);
    assert_eq!(after, vec![(2, 0, 2), (3, 0, 4)]);
    assert_eq!(score, 4);
}

#[test]
fn every_lane_is_slid_on_its_own() {
    let (after, score) = shifted(
        BoardShift::Left,
        4,
        &[(3, 0, 2), (2, 1, 4), (3, 1, 4), (0, 2, 8), (3, 2, 8), (1, 3, 2), (2, 3, 4)],
    );
    assert_eq!(
        after,
        vec![(0, 0, 2), (0, 1, 8), (0, 2, 16), (0, 3, 2), (1, 3, 4)]
    );
    assert_eq!(score, 24);
}

#[test]
fn the_order_of_the_tiles_does_not_matter() {
    let forwards = shifted(BoardShift::Up, 4, &[(0, 0, 2), (0, 1, 4), (0, 2, 4), (0, 3, 2)]);
    let backwards = shifted(BoardShift::Up, 4, &[(0, 3, 2), (0, 2, 4), (0, 1, 4), (0, 0, 2)]);
    assert_eq!(forwards, (vec![(0, 1, 2), (0, 2, 8), (0, 3, 2)], 8));
    assert_eq!(backwards, forwards);
}

#[test]
fn a_shift_keeps_cells_apart_and_sums_equal() {
    let start = [
        (0u8, 0u8, 2u32),
        (1, 0, 2),
        (2, 0, 4),
        (3, 0, 4),
        (0, 1, 8),
        (2, 1, 8),
        (1, 2, 2),
        (3, 3, 16),
        (2, 3, 16),
        (0, 3, 32),
    ];
    for shift in [BoardShift::Left, BoardShift::Right, BoardShift::Up, BoardShift::Down] {
        let mut board = board(4, &start);
        let mut game = Game { score: 0, score_best: 0 };
        shift.apply(&mut board, &mut game);
        let after = cells(&board);
        for (i, a) in after.iter().enumerate() {
            assert!(a.0 < 4 && a.1 < 4);
            for b in after.iter().skip(i + 1) {
                assert_ne!((a.0, a.1), (b.0, b.1));
            }
        }
        let before_sum: u32 = start.iter().map(|t| t.2).sum();
        let after_sum: u32 = after.iter().map(|t| t.2).sum();
        assert_eq!(after_sum, before_sum);
        assert!(board.is_well_formed());
    }
    let mut board = board(4, &start);
    let mut game = Game { score: 0, score_best: 0 };
    BoardShift::Left.apply(&mut board, &mut game);
    assert_eq!(board.tiles.len(), start.len() - 4);
    assert_eq!(game.score, 4 + 8 + 16 + 32);
}

#[test]
fn a_settled_board_stays_as_it_is() {
    let start = [(0, 0, 2), (1, 0, 4), (2, 0, 2), (0, 1, 8), (0, 3, 16), (1, 3, 32)];
    let (after, score) = shifted(BoardShift::Left, 4, &start);
    let mut expected = start.to_vec();
    expected.sort();
    assert_eq!(after, expected);
    assert_eq!(score, 0);
}

#[test]
fn shifting_twice_changes_nothing_once_nothing_can_merge() {
    let mut board = board(4, &[(3, 0, 2), (1, 0, 4), (2, 2, 8)]);
    let mut game = Game { score: 0, score_best: 0 };
    BoardShift::Left.apply(&mut board, &mut game);
    let once = cells(&board);
    BoardShift::Left.apply(&mut board, &mut game);
    assert_eq!(cells(&board), once);
    assert_eq!(once, vec![(0, 0, 4), (0, 2, 8), (1, 0, 2)]);
    assert_eq!(game.score, 0);
}

#[test]
fn the_best_score_is_taken_before_the_shift_earns() {
    let mut board = board(4, &[(0, 0, 2), (1, 0, 2)]);
    let mut game = Game { score: 10, score_best: 4 };
    BoardShift::Left.apply(&mut board, &mut game);
    assert_eq!(game.score, 14);
    assert_eq!(game.score_best, 10);
    let mut board = board2();
    let mut game = Game { score: 3, score_best: 40 };
    BoardShift::Left.apply(&mut board, &mut game);
    assert_eq!(game.score, 7);
    assert_eq!(game.score_best, 40);
}

fn board2() -> Board {
    board(4, &[(0, 0, 2), (1, 0, 2)])
}

#[test]
fn an_empty_board_shifts_to_an_empty_board() {
    let (after, score) = shifted(BoardShift::Down, 4, &[]);
    assert_eq!(after, vec![]);
    assert_eq!(score, 0);
}

#[test]
fn a_board_of_one_cell_keeps_its_tile() {
    let (after, score) = shifted(BoardShift::Up, 1, &[(0, 0, 2)]);
    assert_eq!(after, vec![(0, 0, 2)]);
    assert_eq!(score, 0);
}

#[test]
fn slide_walks_tiles_in_the_order_of_the_shift() {
    let sorted = vec![tile(3, 1, 4), tile(1, 1, 4), tile(0, 1, 2), tile(2, 0, 2)];
    let (tiles, gained) = BoardShift::Right.slide(4, &sorted);
    assert_eq!(tiles, vec![tile(3, 1, 8), tile(2, 1, 2), tile(3, 0, 2)]);
    assert_eq!(gained, 8);
}

#[test]
fn arrow_keys_ask_for_shifts() {
    assert_eq!(BoardShift::try_from(&Key::ArrowLeft), Ok(BoardShift::Left));
    assert_eq!(BoardShift::try_from(&Key::ArrowUp), Ok(BoardShift::Up));
    assert_eq!(BoardShift::try_from(&Key::ArrowRight), Ok(BoardShift::Right));
    assert_eq!(BoardShift::try_from(&Key::ArrowDown), Ok(BoardShift::Down));
}

#[test]
fn other_keys_ask_for_nothing() {
    assert_eq!(BoardShift::try_from(&Key::Other), Err("not a valid board_shift key"));
}

#[test]
fn the_first_key_that_asks_for_a_shift_counts() {
    assert_eq!(find_shift(&vec![]), None);
    assert_eq!(find_shift(&vec![Key::Other, Key::Other]), None);
    assert_eq!(find_shift(&vec![Key::Other, Key::ArrowUp, Key::ArrowLeft]), Some(BoardShift::Up));
    assert_eq!(find_shift(&vec![Key::ArrowDown, Key::ArrowUp]), Some(BoardShift::Down));
}

#[test]
fn a_tick_without_a_shift_key_changes_nothing() {
    let mut board = board(4, &[(1, 0, 2), (2, 0, 2)]);
    let mut game = Game { score: 6, score_best: 2 };
    let new_tile = board_shift(&vec![Key::Other], &mut board, &mut game);
    assert!(!new_tile);
    assert_eq!(board.tiles, vec![tile(1, 0, 2), tile(2, 0, 2)]);
    assert_eq!(game, Game { score: 6, score_best: 2 });
}

#[test]
fn a_tick_with_a_shift_key_shifts_and_asks_for_a_tile() {
    let mut board = board(4, &[(1, 0, 2), (2, 0, 2)]);
    let mut game = Game { score: 6, score_best: 2 };
    let new_tile = board_shift(&vec![Key::Other, Key::ArrowRight], &mut board, &mut game);
    assert!(new_tile);
    assert_eq!(cells(&board), vec![(3, 0, 4)]);
    assert_eq!(game, Game { score: 10, score_best: 6 });
}

#[test]
fn a_shift_that_moves_nothing_still_asks_for_a_tile() {
    let mut board = board(4, &[(0, 0, 2), (1, 0, 4)]);
    let mut game = Game { score: 0, score_best: 0 };
    let new_tile = board_shift(&vec![Key::ArrowLeft], &mut board, &mut game);
    assert!(new_tile);
    assert_eq!(cells(&board), vec![(0, 0, 2), (1, 0, 4)]);
}

#[test]
fn sort_orders_rows_then_columns_for_left() {
    let shift = BoardShift::Left;
    let p = |x, y| Position { x, y };
    assert_eq!(shift.sort(&p(3, 0), &p(0, 1)), Ordering::Less);
    assert_eq!(shift.sort(&p(0, 1), &p(3, 0)), Ordering::Greater);
    assert_eq!(shift.sort(&p(1, 2), &p(2, 2)), Ordering::Less);
    assert_eq!(shift.sort(&p(2, 2), &p(2, 2)), Ordering::Equal);
}

#[test]
fn sort_runs_backwards_for_right_and_up() {
    let p = |x, y| Position { x, y };
    assert_eq!(BoardShift::Right.sort(&p(3, 0), &p(0, 1)), Ordering::Greater);
    assert_eq!(BoardShift::Right.sort(&p(2, 2), &p(1, 2)), Ordering::Less);
    assert_eq!(BoardShift::Up.sort(&p(3, 0), &p(0, 3)), Ordering::Less);
    assert_eq!(BoardShift::Up.sort(&p(1, 3), &p(1, 0)), Ordering::Less);
    assert_eq!(BoardShift::Up.sort(&p(1, 1), &p(1, 1)), Ordering::Equal);
}

#[test]
fn sort_orders_columns_then_rows_for_down() {
    let p = |x, y| Position { x, y };
    assert_eq!(BoardShift::Down.sort(&p(0, 3), &p(1, 0)), Ordering::Less);
    assert_eq!(BoardShift::Down.sort(&p(1, 0), &p(1, 2)), Ordering::Less);
    assert_eq!(BoardShift::Down.sort(&p(1, 2), &p(1, 0)), Ordering::Greater);
}

#[test]
fn set_col_counts_from_the_wall_of_the_shift() {
    let mut pos = Position { x: 2, y: 1 };
    BoardShift::Left.set_col(4, &mut pos, 0);
    assert_eq!(pos, Position { x: 0, y: 1 });
    BoardShift::Right.set_col(4, &mut pos, 1);
    assert_eq!(pos, Position { x: 2, y: 1 });
    BoardShift::Up.set_col(4, &mut pos, 0);
    assert_eq!(pos, Position { x: 2, y: 3 });
    BoardShift::Down.set_col(4, &mut pos, 2);
    assert_eq!(pos, Position { x: 2, y: 2 });
}

#[test]
fn get_row_is_the_row_or_the_column() {
    let pos = Position { x: 1, y: 3 };
    assert_eq!(BoardShift::Left.get_row(&pos), 3);
    assert_eq!(BoardShift::Right.get_row(&pos), 3);
    assert_eq!(BoardShift::Up.get_row(&pos), 1);
    assert_eq!(BoardShift::Down.get_row(&pos), 1);
}

#[test]
fn apply_tells_whether_the_board_changed() {
    let mut game = Game { score: 0, score_best: 0 };
    let mut settled = board(4, &[(1, 0, 4), (0, 0, 2), (0, 3, 2)]);
    assert!(!BoardShift::Left.apply(&mut settled, &mut game));
    assert!(!BoardShift::Left.apply(&mut settled, &mut game));
    assert!(BoardShift::Right.apply(&mut settled, &mut game));
    let mut merging = board(4, &[(0, 0, 2), (1, 0, 2)]);
    assert!(BoardShift::Left.apply(&mut merging, &mut game));
    let mut empty = board(4, &[]);
    assert!(!BoardShift::Up.apply(&mut empty, &mut game));
}

#[test]
fn a_shift_leaves_the_tiles_in_its_own_order() {
    let mut board = board(4, &[(0, 0, 2), (3, 1, 4), (1, 1, 8), (2, 3, 2)]);
    let mut game = Game { score: 0, score_best: 0 };
    BoardShift::Right.apply(&mut board, &mut game);
    assert_eq!(board.tiles, vec![tile(3, 3, 2), tile(3, 1, 4), tile(2, 1, 8), tile(3, 0, 2)]);
    BoardShift::Down.apply(&mut board, &mut game);
    assert_eq!(board.tiles, vec![tile(2, 0, 8), tile(3, 0, 2), tile(3, 1, 4), tile(3, 2, 2)]);
    assert_eq!(game.score, 0);
}

#[test]
fn a_checked_shift_shifts_a_sound_board() {
    let mut board = board(4, &[(1, 0, 2), (2, 0, 2)]);
    let mut game = Game { score: 6, score_best: 2 };
    let outcome = checked_board_shift(&vec![Key::ArrowLeft], &mut board, &mut game);
    assert_eq!(outcome, Some(true));
    assert_eq!(cells(&board), vec![(0, 0, 4)]);
    assert_eq!(game, Game { score: 10, score_best: 6 });
    let outcome = checked_board_shift(&vec![Key::Other], &mut board, &mut game);
    assert_eq!(outcome, Some(false));
    assert_eq!(cells(&board), vec![(0, 0, 4)]);
}

#[test]
fn a_checked_shift_refuses_tiles_on_one_cell() {
    let mut board = board(4, &[(1, 0, 2), (1, 0, 4)]);
    let mut game = Game { score: 0, score_best: 0 };
    assert_eq!(checked_board_shift(&vec![Key::ArrowLeft], &mut board, &mut game), None);
    assert_eq!(board.tiles, vec![tile(1, 0, 2), tile(1, 0, 4)]);
}

#[test]
fn a_checked_shift_refuses_a_tile_off_the_board() {
    let mut board = board(4, &[(4, 0, 2)]);
    let mut game = Game { score: 0, score_best: 0 };
    assert_eq!(checked_board_shift(&vec![Key::ArrowRight], &mut board, &mut game), None);
    assert_eq!(board.tiles, vec![tile(4, 0, 2)]);
}

#[test]
fn a_checked_shift_refuses_a_score_that_could_overflow() {
    let mut board = board(4, &[(0, 0, 2), (1, 0, 2)]);
    let mut game = Game { score: u32::MAX - 3, score_best: 0 };
    assert_eq!(checked_board_shift(&vec![Key::ArrowLeft], &mut board, &mut game), None);
    assert_eq!(game, Game { score: u32::MAX - 3, score_best: 0 });
    let mut game = Game { score: u32::MAX - 4, score_best: 0 };
    assert_eq!(checked_board_shift(&vec![Key::ArrowLeft], &mut board, &mut game), Some(true));
    assert_eq!(game, Game { score: u32::MAX, score_best: u32::MAX - 4 });
}
