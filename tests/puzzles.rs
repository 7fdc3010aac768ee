use huffman::bingo::{check_board, check_columns, check_row, check_rouws, play_round, Board, Cell};
use huffman::origami::{
    find_biggest_x_and_y_coords, make_move, Axis, Board as Sheet, Coord, Game, Move, UnmadeChange,
};
use huffman::vents::{difference, generate_grid, ExpandedLine, Line, Point};

fn board_from(values: [[u64; 5]; 5]) -> Board {
    let mut board: Board = [[Cell::new(0); 5]; 5];
    for r in 0..5 {
        for c in 0..5 {
            board[r][c] = Cell::new(values[r][c]);
        }
    }
    board
}

#[test]
fn cell_starts_unmarked() {
    assert_eq!(Cell::new(7), Cell { value: 7, marked: false });
}

#[test]
fn row_and_column_checks() {
    let mut board = board_from([[1, 2, 3, 4, 5], [6, 7, 8, 9, 10], [11, 12, 13, 14, 15], [16, 17, 18, 19, 20], [21, 22, 23, 24, 25]]);
    assert!(!check_board(&board));
    for c in 0..5 {
        board[2][c].marked = true;
    }
    assert!(check_row(&board[2]));
    assert!(!check_row(&board[1]));
    assert!(check_rouws(&board));
    assert!(!check_columns(&board));
    assert!(check_board(&board));

    let mut other = board_from([[1, 2, 3, 4, 5], [6, 7, 8, 9, 10], [11, 12, 13, 14, 15], [16, 17, 18, 19, 20], [21, 22, 23, 24, 25]]);
    for r in 0..5 {
        other[r][3].marked = true;
    }
    assert!(!check_rouws(&other));
    assert!(check_columns(&other));
    assert!(check_board(&other));
}

#[test]
fn play_round_marks_and_finds_first_winner() {
    let first = board_from([[1, 2, 3, 4, 5], [6, 7, 8, 9, 10], [11, 12, 13, 14, 15], [16, 17, 18, 19, 20], [21, 22, 23, 24, 25]]);
    let second = board_from([[5, 4, 3, 2, 1], [10, 9, 8, 7, 6], [15, 14, 13, 12, 11], [20, 19, 18, 17, 16], [25, 24, 23, 22, 21]]);
    let mut data = vec![first, second];
    for n in [1u64, 2, 3, 4] {
        assert_eq!(play_round(&n, &mut data), None);
    }
    assert!(data[0][0][3].marked);
    assert!(data[1][0][1].marked);
    assert!(!data[0][1][0].marked);
    let winner = play_round(&5, &mut data).unwrap();
    assert_eq!(winner, data[0]);
    assert!(check_board(&data[1]));
}

#[test]
fn differences() {
    assert_eq!(difference(3, 10), 7);
    assert_eq!(difference(10, 3), 7);
    assert_eq!(Point::new(989, 10).difference(), 979);
}

fn points(line: Line) -> Vec<(u64, u64)> {
    ExpandedLine::from_line(&line).points.iter().map(|p| (p.x, p.y)).collect()
}

#[test]
fn expands_straight_lines() {
    assert_eq!(points(Line::from_coords(1, 1, 1, 3)), vec![(1, 1), (1, 2), (1, 3)]);
    assert_eq!(points(Line::from_coords(9, 7, 7, 7)), vec![(9, 7), (8, 7), (7, 7)]);
    assert_eq!(points(Line::from_coords(4, 4, 4, 4)), vec![(4, 4)]);
}

#[test]
fn expands_diagonal_lines() {
    assert_eq!(points(Line::from_coords(3, 4, 6, 7)), vec![(3, 4), (4, 5), (5, 6), (6, 7)]);
    assert_eq!(points(Line::from_coords(9, 7, 7, 9)), vec![(9, 7), (8, 8), (7, 9)]);
    assert_eq!(points(Line::new(Point::new(2, 2), Point::new(0, 0))), vec![(2, 2), (1, 1), (0, 0)]);
    assert_eq!(ExpandedLine::from_line_helpper(&Line::from_coords(105, 725, 399, 431)).len(), 295);
    assert_eq!(ExpandedLine::new(vec![Point::new(1, 2)]).points, vec![Point::new(1, 2)]);
}

#[test]
fn grid_is_zeroed() {
    let grid = generate_grid(3);
    assert_eq!(grid, vec![vec![0u64; 3]; 3]);
    assert!(generate_grid(0).is_empty());
}

fn sample_game() -> Game {
    let mut game = Game::new();
    for (x, y) in [(6, 10), (0, 14), (9, 10), (0, 3), (10, 4), (4, 11), (6, 0), (6, 12), (4, 1), (0, 13), (10, 12), (3, 4), (3, 0), (8, 4), (1, 10), (2, 14), (8, 10), (9, 0)] {
        game.coords.push(Coord::new(x, y));
    }
    game.moves.push(Move::new(Axis::X, 5));
    game.moves.push(Move::new(Axis::Y, 7));
    game
}

#[test]
fn folding_merges_dots() {
    let mut game = sample_game();
    make_move(&mut game);
    assert_eq!(game.coords.len(), 17);
    assert_eq!(game.moves.len(), 1);
    make_move(&mut game);
    assert_eq!(game.coords.len(), 16);
    assert!(game.moves.is_empty());
    make_move(&mut game);
    assert_eq!(game.coords.len(), 16);
    assert_eq!(find_biggest_x_and_y_coords(&game), Coord::new(4, 4));
}

#[test]
fn origami_values() {
    let change = UnmadeChange::new(Coord::new(1, 9), Coord::new(1, 5));
    assert_eq!(change.old, Coord { x: 1, y: 9 });
    assert_eq!(change.new, Coord { x: 1, y: 5 });
    let sheet = Sheet::from_contents(vec![vec![true, false]]);
    assert_eq!(sheet.contents, vec![vec![true, false]]);
    assert_eq!(find_biggest_x_and_y_coords(&Game::new()), Coord::new(0, 0));
}
