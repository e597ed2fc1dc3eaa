use hexgame::board::{Board, BoardError};
use hexgame::cell::{Cell, Ownership};
use hexgame::game::{Agent, Game, RandomPlay};

fn board_with(dim: usize, moves: &[((usize, usize), Ownership)]) -> Board {
    let mut board: Board = Board::new_from_dim(dim);
    for &(coords, owner) in moves {
        board.make_move(coords, owner).unwrap();
    }
    board
}

fn sorted(mut component: Vec<Cell>) -> Vec<(usize, usize, Ownership)> {
    component.sort_by_key(|c| (c.x, c.y));
    component.into_iter().map(|c| (c.x, c.y, c.ownership)).collect()
}

fn as_sets(components: Vec<Vec<Cell>>) -> Vec<Vec<(usize, usize, Ownership)>> {
    let mut sets: Vec<Vec<(usize, usize, Ownership)>> = components.into_iter().map(sorted).collect();
    sets.sort_by_key(|s| (s[0].0, s[0].1));
    sets
}

use Ownership::{Player1, Player2};

fn sparse_board() -> Board {
    board_with(3, &[((0, 2), Player1), ((1, 0), Player1), ((2, 1), Player2), ((2, 2), Player2)])
}

fn end_game_board() -> Board {
    board_with(
        3,
        &[
            ((0, 1), Player2),
            ((0, 2), Player1),
            ((1, 0), Player1),
            ((1, 1), Player2),
            ((1, 2), Player2),
            ((2, 0), Player1),
            ((2, 1), Player1),
            ((2, 2), Player2),
        ],
    )
}

fn no_winner_board() -> Board {
    board_with(
        3,
        &[
            ((1, 0), Player2),
            ((2, 0), Player2),
            ((0, 1), Player1),
            ((1, 1), Player1),
            ((2, 1), Player1),
            ((0, 2), Player2),
            ((1, 2), Player2),
            ((2, 2), Player1),
        ],
    )
}

fn simpler_board() -> Board {
    board_with(3, &[((1, 0), Player2), ((2, 0), Player1), ((1, 1), Player1), ((2, 1), Player2), ((2, 2), Player1)])
}

#[test]
fn components_of_sparse_board() {
    let components = sparse_board().find_connected_components();
    assert_eq!(components.len(), 3);
    assert_eq!(
        as_sets(components),
        vec![vec![(0, 2, Player1)], vec![(1, 0, Player1)], vec![(2, 1, Player2), (2, 2, Player2)]]
    );
}

#[test]
fn sparse_board_has_no_winner() {
    let board = sparse_board();
    assert_eq!(board.check_winner(Player1), Ok(false));
    assert_eq!(board.check_winner(Player2), Ok(false));
}

#[test]
fn end_game_board_is_won_by_second_player() {
    let board = end_game_board();
    assert_eq!(board.check_winner(Player1), Ok(false));
    assert_eq!(board.check_winner(Player2), Ok(true));
}

#[test]
fn components_of_board_without_winner() {
    let components = no_winner_board().find_connected_components();
    assert_eq!(components.len(), 3);
    assert_eq!(
        as_sets(components),
        vec![
            vec![(0, 1, Player1), (1, 1, Player1), (2, 1, Player1), (2, 2, Player1)],
            vec![(0, 2, Player2), (1, 2, Player2)],
            vec![(1, 0, Player2), (2, 0, Player2)],
        ]
    );
    let board = no_winner_board();
    assert_eq!(board.check_winner(Player1), Ok(false));
    assert_eq!(board.check_winner(Player2), Ok(false));
}

#[test]
fn components_of_simpler_board() {
    let board = simpler_board();
    let components = board.find_connected_components();
    assert_eq!(components.len(), 3);
    assert_eq!(
        as_sets(components),
        vec![vec![(1, 0, Player2), (2, 1, Player2)], vec![(1, 1, Player1), (2, 2, Player1)], vec![(2, 0, Player1)]]
    );
    assert_eq!(board.check_winner(Player1), Ok(false));
    assert_eq!(board.check_winner(Player2), Ok(false));
}

#[test]
fn components_cover_occupied_cells_once() {
    let board = end_game_board();
    let components = board.find_connected_components();
    let mut seen: Vec<(usize, usize)> = Vec::new();
    for component in &components {
        for cell in component {
            assert!(!seen.contains(&(cell.x, cell.y)));
            assert_eq!(board.cells[cell.x][cell.y], *cell);
            seen.push((cell.x, cell.y));
        }
    }
    assert_eq!(seen.len(), 8);
}

#[test]
fn unowned_player_is_refused() {
    assert_eq!(end_game_board().check_winner(Ownership::Unowned), Err(BoardError::InvalidPlayer));
    assert_eq!(Board::new_from_dim(2).check_winner(Ownership::Unowned), Err(BoardError::InvalidPlayer));
    assert_eq!(Board::new().check_winner(Ownership::Unowned), Err(BoardError::InvalidPlayer));
}

#[test]
fn empty_boards_have_no_components_or_winner() {
    assert!(Board::new().find_connected_components().is_empty());
    assert!(Board::new_from_dim(3).find_connected_components().is_empty());
    assert_eq!(Board::new().check_winner(Player1), Ok(false));
    assert_eq!(Board::new_from_dim(3).check_winner(Player2), Ok(false));
}

#[test]
fn full_boards_are_won_by_their_owner() {
    for (dim_x, dim_y) in [(1, 1), (1, 4), (3, 2), (4, 4)] {
        for player in [Player1, Player2] {
            let mut board: Board = Board::new_from_dims(dim_x, dim_y);
            for x in 0..dim_x {
                for y in 0..dim_y {
                    board.make_move((x, y), player).unwrap();
                }
            }
            assert_eq!(board.check_winner(player), Ok(true));
            assert_eq!(board.find_connected_components().len(), 1);
        }
    }
}

#[test]
fn diagonal_chain_joins_rows() {
    let board = board_with(3, &[((0, 0), Player1), ((1, 1), Player1), ((2, 2), Player1)]);
    assert_eq!(board.check_winner(Player1), Ok(true));
    assert_eq!(board.check_winner(Player2), Ok(false));
    let other_diagonal = board_with(3, &[((2, 0), Player1), ((1, 1), Player1), ((0, 2), Player1)]);
    assert_eq!(other_diagonal.check_winner(Player1), Ok(false));
    assert_eq!(other_diagonal.find_connected_components().len(), 3);
}

#[test]
fn column_wins_for_second_player_only_across() {
    let board = board_with(3, &[((0, 1), Player2), ((1, 1), Player2), ((2, 1), Player2)]);
    assert_eq!(board.check_winner(Player2), Ok(true));
    let column = board_with(3, &[((1, 0), Player2), ((1, 1), Player2), ((1, 2), Player2)]);
    assert_eq!(column.check_winner(Player2), Ok(false));
}

#[test]
fn agent_picks_an_unowned_cell() {
    let agent = Agent::new(Player1);
    let board = end_game_board();
    assert_eq!(agent.choose_next_move(&board), Ok((0, 0)));
    let sparse = sparse_board();
    let free = sparse.get_unoccupied_squares();
    for _ in 0..20 {
        let m = agent.choose_next_move(&sparse).unwrap();
        assert!(free.contains(&m));
    }
}

#[test]
fn agent_without_moves_reports_it() {
    let agent = Agent::new(Player2);
    let mut board = end_game_board();
    board.make_move((0, 0), Player1).unwrap();
    assert_eq!(agent.choose_next_move(&board), Err(BoardError::NoMovesAvailable));
}

#[test]
fn game_turns_alternate_until_a_win() {
    let mut game = Game::new(3);
    assert_eq!(game.agents[0].identity, Player1);
    assert_eq!(game.agents[1].identity, Player2);
    let mut turn: usize = 0;
    let mut won = false;
    while !won {
        let (m, has_won) = game.play_turn(turn).unwrap();
        let expected = if turn % 2 == 0 { Player1 } else { Player2 };
        assert_eq!(game.board.cells[m.0][m.1].ownership, expected);
        won = has_won;
        turn += 1;
    }
    assert!(turn <= 9);
    let winner = if (turn - 1) % 2 == 0 { Player1 } else { Player2 };
    assert_eq!(game.board.check_winner(winner), Ok(true));
}
