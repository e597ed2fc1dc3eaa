use vstd::prelude::*;
use rand::seq::SliceRandom;
use crate::board::{Board, BoardError};
use crate::cell::Ownership;

verus! {

/// The most turns a game runs before it is called off as stalled.
pub const MAX_TURNS: usize = 500;

/// A player that picks its moves at random among the unowned cells.
#[derive(Debug)]
pub struct Agent {
    pub identity: Ownership,
}

/// Relies on rand's `SliceRandom::choose`, drawing from `thread_rng`: it
/// returns `None` for an empty slice and otherwise one of its elements.
#[verifier::external_body]
fn choose_square(squares: &Vec<(usize, usize)>) -> (r: Option<(usize, usize)>)
    ensures
        match r {
            Some(s) => squares@.contains(s),
            None => squares@.len() == 0,
        },
{
    squares.choose(&mut rand::thread_rng()).copied()
}

impl Board {
    /// Some cell of the board is unowned.
    pub open spec fn has_free_cell(&self) -> bool {
        exists|x: int, y: int| #[trigger] self.in_bounds(x, y) && self.owner(x, y) == Ownership::Unowned
    }
}

/// Choosing the next move of a player.
pub trait RandomPlay {
    /// An unowned cell of `board`, or `NoMovesAvailable` when there is none.
    fn choose_next_move(&self, board: &Board) -> (r: Result<(usize, usize), BoardError>)
        requires
            board.wf(),
        ensures
            match r {
                Ok(m) => board.in_bounds(m.0 as int, m.1 as int) && board.owner(m.0 as int, m.1 as int)
                    == Ownership::Unowned,
                Err(e) => e == BoardError::NoMovesAvailable && !board.has_free_cell(),
            },
    ;
}

impl Agent {
    pub fn new(identity: Ownership) -> (r: Agent)
        ensures
            r.identity == identity,
    {
        Agent { identity }
    }
}

impl RandomPlay for Agent {
    /// Draws uniformly among the unowned cells.
    fn choose_next_move(&self, board: &Board) -> (r: Result<(usize, usize), BoardError>) {
        let possible_moves = board.get_unoccupied_squares();
        match choose_square(&possible_moves) {
            Some(m) => {
                let ghost k = possible_moves@.index_of(m);
                assert(possible_moves@[k] == m);
                Ok(m)
            },
            None => {
                assert forall|x: int, y: int| #[trigger] board.in_bounds(x, y) implies board.owner(x, y)
                    != Ownership::Unowned by {
                    if board.owner(x, y) == Ownership::Unowned {
                        let k = choose|k: int|
                            0 <= k < possible_moves@.len() && #[trigger] possible_moves@[k] == (x as usize, y as usize);
                    }
                }
                Err(BoardError::NoMovesAvailable)
            },
        }
    }
}

/// A game between two random players on a square board.
#[derive(Debug)]
pub struct Game {
    pub board: Board,
    pub agents: [Box<Agent>; 2],
}

impl Game {
    /// The board is well formed and the first agent plays first player.
    pub open spec fn wf(&self) -> bool {
        &&& self.board.wf()
        &&& self.agents@[0].identity == Ownership::Player1
        &&& self.agents@[1].identity == Ownership::Player2
    }

    /// A game on an empty `dims` by `dims` board.
    pub fn new(dims: usize) -> (r: Game)
        requires
            dims <= isize::MAX,
        ensures
            r.wf(),
            r.board.dim_x == dims,
            r.board.dim_y == dims,
            forall|x: int, y: int| #[trigger] r.board.in_bounds(x, y) ==> r.board.owner(x, y) == Ownership::Unowned,
    {
        Game {
            board: Board::new_from_dim(dims),
            agents: [Box::new(Agent::new(Ownership::Player1)), Box::new(Agent::new(Ownership::Player2))],
        }
    }

    /// Plays turn `turn`: the agent whose turn it is (the first on even
    /// turns) takes an unowned cell, and the result says which cell and
    /// whether that agent has now won. With no unowned cell left the board
    /// stays as it was.
    pub fn play_turn(&mut self, turn: usize) -> (r: Result<((usize, usize), bool), BoardError>)
        requires
            old(self).wf(),
        ensures
            final(self).wf(),
            match r {
                Ok((m, won)) => {
                    let player = if turn % 2 == 0 { Ownership::Player1 } else { Ownership::Player2 };
                    &&& old(self).board.in_bounds(m.0 as int, m.1 as int)
                    &&& old(self).board.owner(m.0 as int, m.1 as int) == Ownership::Unowned
                    &&& final(self).board.dim_x == old(self).board.dim_x
                    &&& final(self).board.dim_y == old(self).board.dim_y
                    &&& final(self).board.owner(m.0 as int, m.1 as int) == player
                    &&& forall|x: int, y: int|
                        #![trigger final(self).board.cell(x, y)]
                        final(self).board.in_bounds(x, y) && !(x == m.0 && y == m.1) ==> final(self).board.cell(x, y)
                            == old(self).board.cell(x, y)
                    &&& won == final(self).board.has_bridge(player)
                },
                Err(e) => e == BoardError::NoMovesAvailable && !old(self).board.has_free_cell() && *final(self) == *old(
                    self,
                ),
            },
    {
        let active = turn % 2;
        let identity = self.agents[active].identity;
        let m = match self.agents[active].choose_next_move(&self.board) {
            Ok(m) => m,
            Err(e) => {
                return Err(e);
            },
        };
        let moved = self.board.make_move(m, identity);
        match moved {
            Ok(()) => {},
            Err(e) => {
                return Err(e);
            },
        }
        match self.board.check_winner(identity) {
            Ok(won) => Ok((m, won)),
            Err(e) => Err(e),
        }
    }
}

} // verus!
