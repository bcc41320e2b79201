use two_oh_four_eight::grid::{Board, Points, Position, Tile};
use two_oh_four_eight::spawn::{new_tile_handler, place_tiles, spawn_chosen, spawn_tiles};

fn full_board_but(size: u8, hole: Option<(u8, u8)>) -> Board {
    let mut board = Board::new(size);
    let mut value = 2;
    for x in 0..size {
        for y in 0..size {
            if Some((x, y)) != hole {
                board.tiles.push(Tile { position: Position { x, y }, points: Points { value } });
                value += 2;
            }
        }
    }
    board
}

#[test]
fn a_new_board_is_empty() {
    let board = Board::new(4);
    assert_eq!(board.size, 4);
    assert!(board.tiles.is_empty());
    assert!(board.is_well_formed());
}

#[test]
fn spawn_tile_puts_a_two_on_the_cell() {
    let mut board = Board::new(4);
    board.spawn_tile(Position { x: 1, y: 2 });
    assert_eq!(
        board.tiles,
        vec![Tile { position: Position { x: 1, y: 2 }, points: Points { value: 2 } }]
    );
    assert_eq!(board.value_at(&Position { x: 1, y: 2 }), Some(2));
    assert_eq!(board.value_at(&Position { x: 2, y: 1 }), None);
    assert!(board.is_occupied(&Position { x: 1, y: 2 }));
    assert!(!board.is_occupied(&Position { x: 0, y: 0 }));
}

#[test]
fn empty_cells_come_column_by_column() {
    let mut board = Board::new(2);
    assert_eq!(
        board.empty_cells(),
        vec![
            Position { x: 0, y: 0 },
            Position { x: 0, y: 1 },
            Position { x: 1, y: 0 },
            Position { x: 1, y: 1 },
        ]
    );
    board.spawn_tile(Position { x: 0, y: 1 });
    assert_eq!(
        board.empty_cells(),
        vec![Position { x: 0, y: 0 }, Position { x: 1, y: 0 }, Position { x: 1, y: 1 }]
    );
}

#[test]
fn empty_cells_of_a_full_board_are_none() {
    assert_eq!(full_board_but(4, None).empty_cells(), vec![]);
    assert_eq!(Board::new(0).empty_cells(), vec![]);
}

#[test]
fn the_only_free_cell_gets_the_new_tile() {
    for hole in [(0, 0), (3, 3), (2, 1), (0, 3)] {
        let mut board = full_board_but(4, Some(hole));
        let before = board.tiles.clone();
        let spawned = new_tile_handler(&mut board);
        assert_eq!(spawned, Some(Position { x: hole.0, y: hole.1 }));
        assert_eq!(board.tiles.len(), 16);
        assert_eq!(board.tiles[..15], before[..]);
        assert_eq!(
            board.tiles[15],
            Tile { position: Position { x: hole.0, y: hole.1 }, points: Points { value: 2 } }
        );
        assert!(board.is_well_formed());
    }
}

#[test]
fn a_full_board_gets_no_new_tile() {
    let mut board = full_board_but(4, None);
    let before = board.tiles.clone();
    assert_eq!(new_tile_handler(&mut board), None);
    assert_eq!(board.tiles, before);
}

#[test]
fn a_new_tile_takes_a_free_cell() {
    for _ in 0..50 {
        let mut board = Board::new(4);
        board.spawn_tile(Position { x: 0, y: 0 });
        board.spawn_tile(Position { x: 3, y: 2 });
        let spawned = new_tile_handler(&mut board).unwrap();
        assert!(spawned.x < 4 && spawned.y < 4);
        assert_ne!(spawned, Position { x: 0, y: 0 });
        assert_ne!(spawned, Position { x: 3, y: 2 });
        assert_eq!(board.tiles.len(), 3);
        assert_eq!(board.tiles[2], Tile { position: spawned, points: Points { value: 2 } });
        assert!(board.is_well_formed());
    }
}

#[test]
fn spawn_chosen_places_what_was_chosen() {
    let mut board = Board::new(4);
    spawn_chosen(&mut board, None);
    assert!(board.tiles.is_empty());
    spawn_chosen(&mut board, Some(Position { x: 3, y: 0 }));
    assert_eq!(
        board.tiles,
        vec![Tile { position: Position { x: 3, y: 0 }, points: Points { value: 2 } }]
    );
}

#[test]
fn place_tiles_keeps_the_order_of_the_cells() {
    let mut board = Board::new(4);
    place_tiles(&mut board, &vec![(2, 3), (0, 1)]);
    assert_eq!(
        board.tiles,
        vec![
            Tile { position: Position { x: 2, y: 3 }, points: Points { value: 2 } },
            Tile { position: Position { x: 0, y: 1 }, points: Points { value: 2 } },
        ]
    );
}

#[test]
fn a_game_starts_with_two_tiles_on_different_cells() {
    for _ in 0..50 {
        let mut board = Board::new(4);
        let picks = spawn_tiles(&mut board);
        assert_eq!(picks.len(), 2);
        assert_ne!(picks[0], picks[1]);
        assert_eq!(board.tiles.len(), 2);
        for (tile, pick) in board.tiles.iter().zip(picks.iter()) {
            assert_eq!(tile.position, Position { x: pick.0, y: pick.1 });
            assert!(tile.position.x < 4 && tile.position.y < 4);
            assert_eq!(tile.points.value, 2);
        }
        assert!(board.is_well_formed());
    }
}

#[test]
fn a_board_of_one_cell_starts_with_one_tile() {
    let mut board = Board::new(1);
    assert_eq!(spawn_tiles(&mut board), vec![(0, 0)]);
    assert_eq!(
        board.tiles,
        vec![Tile { position: Position { x: 0, y: 0 }, points: Points { value: 2 } }]
    );
}

#[test]
fn a_board_without_cells_starts_empty() {
    let mut board = Board::new(0);
    assert_eq!(spawn_tiles(&mut board), vec![]);
    assert!(board.tiles.is_empty());
    assert_eq!(new_tile_handler(&mut board), None);
}

#[test]
fn well_formed_boards_have_tiles_on_cells_of_their_own() {
    let on = |x, y| Tile { position: Position { x, y }, points: Points { value: 2 } };
    assert!(Board { size: 4, tiles: vec![on(0, 0), on(3, 3)] }.is_well_formed());
    assert!(!Board { size: 4, tiles: vec![on(0, 0), on(1, 1), on(0, 0)] }.is_well_formed());
    assert!(!Board { size: 4, tiles: vec![on(4, 0)] }.is_well_formed());
    assert!(!Board { size: 4, tiles: vec![on(0, 4)] }.is_well_formed());
}

#[test]
fn total_points_adds_up_the_tiles() {
    let on = |x, y, value| Tile { position: Position { x, y }, points: Points { value } };
    assert_eq!(Board::new(4).total_points(), 0);
    let board = Board { size: 4, tiles: vec![on(0, 0, 2), on(1, 0, 4), on(2, 0, u32::MAX)] };
    assert_eq!(board.total_points(), 6 + u32::MAX as u128);
}

#[test]
fn empty_cells_stand_at_the_index_of_their_coordinates() {
    let cells = Board::new(5).empty_cells();
    assert_eq!(cells.len(), 25);
    for (i, cell) in cells.iter().enumerate() {
        assert_eq!(*cell, Position { x: (i / 5) as u8, y: (i % 5) as u8 });
    }
}
