use hexgame::board::{Board, BoardError};
use hexgame::cell::{Cell, Ownership};

#[test]
fn test_board_contructor() {
    let empty_board: Board = Board::new();
    assert_eq!(empty_board.cells.len(), 1);
    assert_eq!(empty_board.cells[0].len(), 0);
    let small_board: Board = Board::new_from_dim(3);
    assert_eq!(small_board.cells.len(), 3);
    assert_eq!(small_board.cells[0].len(), 3);
    assert_eq!(small_board.cells[0][0].ownership, Ownership::Unowned);
    let uneven_board: Board = Board::new_from_dims(3, 2);
    assert_eq!(uneven_board.cells.len(), 3);
    assert_eq!(uneven_board.cells[0].len(), 2);
}

#[test]
fn test_is_empty() {
    let empty_board: Board = Board::new();
    let small_board: Board = Board::new_from_dim(1);
    assert!(empty_board.is_empty());
    assert!(!small_board.is_empty());
}

#[test]
fn test_is_valid_square_on_small_board() {
    let small_board: Board = Board::new_from_dims(2, 3);
    let valid_squares: [(isize, isize); 6] = [(0, 0), (0, 1), (1, 0), (1, 1), (0, 2), (1, 2)];
    for (x, y) in valid_squares {
        assert!(small_board.is_valid_square(x, y));
    }
    let invalid_squares: [(isize, isize); 4] = [(2, 0), (2, 1), (2, 2), (3, 3)];
    for (x, y) in invalid_squares {
        assert!(!small_board.is_valid_square(x, y));
    }
}

#[test]
fn negative_squares_are_off_the_board() {
    let board: Board = Board::new_from_dim(2);
    assert!(!board.is_valid_square(-1, 0));
    assert!(!board.is_valid_square(0, -1));
}

#[test]
fn test_get_neighbours() {
    let truth: Vec<Cell> = vec![Cell::new(1, 0), Cell::new(0, 1), Cell::new(1, 1)];
    let board: Board = Board::new_from_dim(2);
    assert_eq!(board.get_neighbours(0, 0), truth);
}

#[test]
fn test_find_next_node_to_visit() {
    let mut visited_nodes: Vec<Vec<bool>> = vec![vec![true; 4]; 2];
    visited_nodes[0][2] = false;
    assert_eq!(Board::find_next_node_to_visit(&visited_nodes), Some((0, 2)));
    let visited_nodes: Vec<Vec<bool>> = vec![vec![true, true, true, false]];
    assert_eq!(Board::find_next_node_to_visit(&visited_nodes), Some((0, 3)));
    let visited_nodes: Vec<Vec<bool>> = vec![vec![true, true]];
    assert_eq!(Board::find_next_node_to_visit(&visited_nodes), None);
}

#[test]
fn test_get_neighbours_board_size_three() {
    let truth: Vec<Cell> = vec![
        Cell::new(0, 0),
        Cell::new(1, 0),
        Cell::new(0, 1),
        Cell::new(2, 1),
        Cell::new(1, 2),
        Cell::new(2, 2),
    ];
    let board: Board = Board::new_from_dim(3);
    let result = board.get_neighbours(1, 1);
    for neighbour in result {
        assert_eq!(truth.contains(&neighbour), true);
    }
}

#[test]
fn fresh_board_is_all_unowned() {
    let board: Board = Board::new_from_dims(4, 3);
    let mut count = 0;
    for column in &board.cells {
        for cell in column {
            assert_eq!(cell.ownership, Ownership::Unowned);
            count += 1;
        }
    }
    assert_eq!(count, 12);
    assert_eq!(board.get_unoccupied_squares().len(), 12);
    assert_eq!(board.cells[2][1], Cell::new(2, 1));
}

#[test]
fn neighbour_counts_by_position() {
    let board: Board = Board::new_from_dims(4, 3);
    assert_eq!(board.get_neighbours(0, 0).len(), 3);
    assert_eq!(board.get_neighbours(3, 2).len(), 3);
    assert_eq!(board.get_neighbours(3, 0).len(), 2);
    assert_eq!(board.get_neighbours(0, 2).len(), 2);
    assert_eq!(board.get_neighbours(1, 0).len(), 4);
    assert_eq!(board.get_neighbours(0, 1).len(), 4);
    assert_eq!(board.get_neighbours(3, 1).len(), 4);
    assert_eq!(board.get_neighbours(2, 2).len(), 4);
    assert_eq!(board.get_neighbours(1, 1).len(), 6);
    assert_eq!(
        board.get_neighbours(1, 1),
        vec![Cell::new(0, 1), Cell::new(2, 1), Cell::new(1, 0), Cell::new(1, 2), Cell::new(0, 0), Cell::new(2, 2)]
    );
}

#[test]
fn neighbours_are_copies() {
    let mut board: Board = Board::new_from_dim(2);
    let mut neighbours = board.get_neighbours(0, 0);
    neighbours[0].ownership = Ownership::Player1;
    assert_eq!(board.cells[1][0].ownership, Ownership::Unowned);
    board.make_move((1, 0), Ownership::Player2).unwrap();
    assert_eq!(board.get_neighbours(0, 0)[0], Cell::new_from_ownership(1, 0, Ownership::Player2));
}

#[test]
fn unoccupied_squares_in_column_order() {
    let mut board: Board = Board::new_from_dim(3);
    board.make_move((0, 2), Ownership::Player1).unwrap();
    board.make_move((1, 0), Ownership::Player1).unwrap();
    board.make_move((2, 1), Ownership::Player2).unwrap();
    board.make_move((2, 2), Ownership::Player2).unwrap();
    let result: Vec<(usize, usize)> = board.get_unoccupied_squares();
    assert_eq!(result, vec![(0, 0), (0, 1), (1, 1), (1, 2), (2, 0)]);
}

#[test]
fn make_move_sets_and_refuses() {
    let mut board: Board = Board::new_from_dims(2, 3);
    assert_eq!(board.make_move((1, 2), Ownership::Player1), Ok(()));
    assert_eq!(board.cells[1][2].ownership, Ownership::Player1);
    assert_eq!(board.make_move((2, 0), Ownership::Player1), Err(BoardError::InvalidCoordinate));
    assert_eq!(board.make_move((0, 3), Ownership::Player2), Err(BoardError::InvalidCoordinate));
    assert_eq!(board.make_move((0, 0), Ownership::Unowned), Err(BoardError::InvalidPlayer));
    assert_eq!(board.cells[0][0].ownership, Ownership::Unowned);
    assert_eq!(board.make_move((1, 2), Ownership::Player2), Ok(()));
    assert_eq!(board.cells[1][2].ownership, Ownership::Player2);
    let mut empty_board: Board = Board::new();
    assert_eq!(empty_board.make_move((0, 0), Ownership::Player1), Err(BoardError::InvalidCoordinate));
}

#[test]
fn render_three_by_three() {
    let mut board: Board = Board::new_from_dim(3);
    board.make_move((0, 2), Ownership::Player1).unwrap();
    board.make_move((1, 0), Ownership::Player1).unwrap();
    board.make_move((2, 1), Ownership::Player2).unwrap();
    board.make_move((2, 2), Ownership::Player2).unwrap();
    let expected = "------------\n\
                    |  0  _  1  |\n  \
                    |  _  _  1  |\n    \
                    |  _  0  _  |\n      \
                    ------------\n";
    assert_eq!(board.to_string(), expected);
}

#[test]
fn render_uneven_and_empty() {
    let board: Board = Board::new_from_dims(1, 2);
    assert_eq!(board.to_string(), "----\n|  _  |\n  |  _  |\n    ----\n");
    let empty_board: Board = Board::new();
    assert_eq!(empty_board.to_string(), "\n\n");
}
