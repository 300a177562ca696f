use deques::{add_tile, game_over, open_positions, tilt, Board, Direction, MovingTile};

fn board_of(columns: Vec<Vec<u32>>) -> Board {
    let width = columns.len();
    let height = columns[0].len();
    Board { tiles: columns, width, height }
}

#[test]
fn new_board_holds_two_tiles() {
    let board = Board::new(4, 4, (2, 0), (4, 0));
    assert_eq!(board.width, 4);
    assert_eq!(board.height, 4);
    assert_eq!(board.tiles[0][0], 2);
    assert_eq!(board.tiles[0][1], 4);
    assert_eq!(open_positions(&board), 14);
}

#[test]
fn add_tile_fills_the_picked_empty_square() {
    let mut board = board_of(vec![vec![2, 0, 0], vec![0, 4, 0]]);
    assert_eq!(open_positions(&board), 4);
    add_tile(&mut board, 4, 2);
    assert_eq!(board.tiles, vec![vec![2, 0, 0], vec![4, 4, 0]]);
    add_tile(&mut board, 2, 2);
    assert_eq!(board.tiles, vec![vec![2, 0, 0], vec![4, 4, 2]]);
}

#[test]
fn add_tile_on_full_board_does_nothing() {
    let mut board = board_of(vec![vec![2, 4], vec![8, 16]]);
    add_tile(&mut board, 2, 0);
    assert_eq!(board.tiles, vec![vec![2, 4], vec![8, 16]]);
}

#[test]
fn game_is_not_over_with_an_empty_square() {
    let board = board_of(vec![vec![2, 4, 2], vec![4, 0, 4], vec![2, 4, 2]]);
    assert!(!game_over(&board));
}

#[test]
fn game_is_not_over_with_the_winning_tile() {
    let board = board_of(vec![vec![2, 4, 2], vec![4, 2048, 4], vec![2, 4, 2]]);
    assert!(!game_over(&board));
}

#[test]
fn game_is_not_over_with_equal_neighbours() {
    let board = board_of(vec![vec![2, 4, 2], vec![4, 8, 8], vec![2, 4, 2]]);
    assert!(!game_over(&board));
}

#[test]
fn game_is_over_on_a_locked_board() {
    let board = board_of(vec![vec![2, 4, 2], vec![4, 2, 4], vec![2, 4, 2]]);
    assert!(game_over(&board));
}

#[test]
fn moving_tile_keeps_its_fields() {
    let m = MovingTile::new(1, 2, 3, 4, 8);
    assert_eq!(m.start_x, 1);
    assert_eq!(m.start_y, 2);
    assert_eq!(m.end_x, 3);
    assert_eq!(m.end_y, 4);
    assert_eq!(m.value, 8);
}

fn sample() -> Board {
    board_of(vec![vec![0, 2, 0, 2], vec![2, 2, 2, 0], vec![4, 0, 0, 0], vec![0, 0, 0, 0]])
}

#[test]
fn tilt_north_slides_and_merges_towards_row_zero() {
    let (b, moves, score) = tilt(&sample(), Direction::North).unwrap();
    assert_eq!(b.tiles, vec![vec![4, 0, 0, 0], vec![4, 2, 0, 0], vec![4, 0, 0, 0], vec![0, 0, 0, 0]]);
    assert_eq!(score, 8);
    assert_eq!((b.width, b.height), (4, 4));
    for m in &moves {
        assert!(m.start_x < 4 && m.start_y < 4 && m.end_x < 4 && m.end_y < 4);
    }
}

#[test]
fn tilt_south_slides_towards_the_bottom_row() {
    let (b, _, score) = tilt(&sample(), Direction::South).unwrap();
    assert_eq!(b.tiles, vec![vec![0, 0, 0, 4], vec![0, 0, 2, 4], vec![0, 0, 0, 4], vec![0, 0, 0, 0]]);
    assert_eq!(score, 8);
}

#[test]
fn tilt_west_slides_rows_towards_column_zero() {
    let (b, _, score) = tilt(&sample(), Direction::West).unwrap();
    assert_eq!(b.tiles, vec![vec![2, 4, 2, 2], vec![4, 0, 0, 0], vec![0, 0, 0, 0], vec![0, 0, 0, 0]]);
    assert_eq!(score, 4);
}

#[test]
fn tilt_east_slides_rows_towards_the_last_column() {
    let (b, _, score) = tilt(&sample(), Direction::East).unwrap();
    assert_eq!(b.tiles, vec![vec![0, 0, 0, 0], vec![0, 0, 0, 0], vec![2, 0, 0, 0], vec![4, 4, 2, 2]]);
    assert_eq!(score, 4);
}

#[test]
fn tilt_that_changes_nothing_gives_none() {
    let board = board_of(vec![vec![2, 4, 0], vec![8, 0, 0], vec![0, 0, 0]]);
    assert!(tilt(&board, Direction::North).is_none());
    assert!(tilt(&board, Direction::West).is_none());
    assert!(tilt(&board, Direction::South).is_some());
}

#[test]
fn tilt_merges_each_tile_once() {
    let board = board_of(vec![vec![2, 2, 2, 2], vec![4, 4, 8, 0]]);
    let (b, _, score) = tilt(&board, Direction::North).unwrap();
    assert_eq!(b.tiles, vec![vec![4, 4, 0, 0], vec![8, 8, 0, 0]]);
    assert_eq!(score, 16);
}

#[test]
fn tilt_records_each_move_of_a_column() {
    let board = board_of(vec![vec![0, 2, 0, 2]]);
    let (b, moves, score) = tilt(&board, Direction::North).unwrap();
    assert_eq!(b.tiles, vec![vec![4, 0, 0, 0]]);
    assert_eq!(score, 4);
    assert_eq!(moves, vec![MovingTile::new(0, 1, 0, 0, 2), MovingTile::new(0, 3, 0, 0, 2)]);
}

#[test]
fn tilt_records_tiles_that_stay_put() {
    let board = board_of(vec![vec![2, 4, 0, 4]]);
    let (b, moves, score) = tilt(&board, Direction::North).unwrap();
    assert_eq!(b.tiles, vec![vec![2, 8, 0, 0]]);
    assert_eq!(score, 8);
    assert_eq!(
        moves,
        vec![MovingTile::new(0, 0, 0, 0, 2), MovingTile::new(0, 1, 0, 1, 4), MovingTile::new(0, 3, 0, 1, 4)]
    );
}

#[test]
fn game_is_not_over_with_equal_neighbours_in_a_corner() {
    let board = board_of(vec![vec![2, 2], vec![4, 8]]);
    assert!(!game_over(&board));
}

#[test]
fn game_is_not_over_with_equal_neighbours_along_an_edge() {
    let board = board_of(vec![vec![2, 4, 2], vec![8, 16, 4], vec![2, 8, 8]]);
    assert!(!game_over(&board));
}

#[test]
fn game_is_over_on_a_small_locked_board() {
    let board = board_of(vec![vec![2, 4], vec![4, 2]]);
    assert!(game_over(&board));
}

#[test]
fn tilt_handles_a_large_tile() {
    let mut columns = vec![vec![0u32; 4]; 4];
    columns[2][3] = 1 << 29;
    let board = board_of(columns);
    let (b, moves, score) = tilt(&board, Direction::North).unwrap();
    assert_eq!(b.tiles[2][0], 1 << 29);
    assert_eq!(score, 0);
    assert_eq!(moves, vec![MovingTile::new(2, 3, 2, 0, 1 << 29)]);
}

#[test]
fn tilt_gives_each_tile_one_move() {
    let board = sample();
    for dir in [Direction::North, Direction::East, Direction::South, Direction::West] {
        let (b, moves, _) = tilt(&board, dir).unwrap();
        let mut starts: Vec<(usize, usize)> = moves.iter().map(|m| (m.start_x, m.start_y)).collect();
        starts.sort();
        let mut tiles = Vec::new();
        for x in 0..4 {
            for y in 0..4 {
                if board.tiles[x][y] != 0 {
                    tiles.push((x, y));
                }
            }
        }
        assert_eq!(starts, tiles);
        for m in &moves {
            assert_eq!(board.tiles[m.start_x][m.start_y], m.value);
            assert_ne!(b.tiles[m.end_x][m.end_y], 0);
        }
    }
}
