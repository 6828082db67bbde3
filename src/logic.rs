//! The pieces, the phases of a turn, and the log that drives the turn order.

use vstd::prelude::*;

verus! {

/// Side length of the board.
pub const BOARD_SIZE: usize = 19;

/// The owner of a piece.
#[derive(Clone, Copy, PartialEq, Eq, Debug, Hash, Structural)]
pub enum Side {
    Black,
    White,
}

/// The side to act.
#[derive(Clone, Copy, PartialEq, Eq, Debug, Structural)]
pub enum Turn {
    Black,
    White,
}

/// The phase of the game.
#[derive(Clone, Copy, PartialEq, Eq, Debug, Hash, Structural)]
pub enum GamePhase {
    Initialize,
    PlaceWatchtower,
    PlaceGoPiece,
    MoveDraught,
    GameOver,
}

/// The kind of a draught move.
#[derive(Clone, Copy, PartialEq, Eq, Debug, Structural)]
pub enum CheckersMoveType {
    Regular,
    DraughtTakeOver,
    /// Declared for a capture of a watchtower; no move of this kind is made.
    TowerTakeOver,
}

/// The kind of a stone move.
#[derive(Clone, Copy, PartialEq, Eq, Debug, Structural)]
pub enum GoMoveType {
    Regular,
    StoneRemoval,
    TowerTakeOver,
}

/// A stone, standing on the intersection `(i, j)` between four squares.
#[derive(Clone, Copy, PartialEq, Eq, Debug, Structural)]
pub struct Stone {
    pub i: usize,
    pub j: usize,
    pub side: Side,
}

/// A draught on square `(i, j)`, with its ordinal `n` among its side's
/// draughts.
#[derive(Clone, Copy, PartialEq, Eq, Debug, Structural)]
pub struct Draught {
    pub i: usize,
    pub j: usize,
    pub n: i8,
    pub side: Side,
}

/// A snapshot of the game's statistics.
#[derive(Clone, Copy, PartialEq, Eq, Debug, Structural)]
pub struct GameStats {
    pub n_moves: usize,
    pub white_territory: usize,
    pub black_territory: usize,
    pub white_draughts: usize,
    pub black_draughts: usize,
}

/// The side that does not act.
pub open spec fn other(turn: Turn) -> Turn {
    match turn {
        Turn::Black => Turn::White,
        Turn::White => Turn::Black,
    }
}

/// The state that follows the logged `(phase, turn)`.
pub open spec fn transition(phase: GamePhase, turn: Turn) -> (GamePhase, Turn) {
    match phase {
        GamePhase::PlaceWatchtower => match turn {
            Turn::Black => (GamePhase::MoveDraught, Turn::White),
            Turn::White => (GamePhase::PlaceWatchtower, Turn::Black),
        },
        GamePhase::PlaceGoPiece => (GamePhase::MoveDraught, other(turn)),
        GamePhase::MoveDraught => (GamePhase::PlaceGoPiece, turn),
        _ => (GamePhase::PlaceWatchtower, turn),
    }
}

/// The opposing side.
pub fn opposite(turn: Turn) -> (r: Turn)
    ensures
        r == other(turn),
{
    match turn {
        Turn::Black => Turn::White,
        Turn::White => Turn::Black,
    }
}

/// The side whose turn it is.
pub fn side_of(turn: Turn) -> (r: Side)
    ensures
        r == side_spec(turn),
{
    match turn {
        Turn::Black => Side::Black,
        Turn::White => Side::White,
    }
}

/// The side whose turn it is.
pub open spec fn side_spec(turn: Turn) -> Side {
    match turn {
        Turn::Black => Side::Black,
        Turn::White => Side::White,
    }
}

/// The append-only log of the actions taken, as `(phase, turn)` pairs.
pub struct GameLogic {
    log: Vec<(GamePhase, Turn)>,
}

impl View for GameLogic {
    type V = Seq<(GamePhase, Turn)>;

    closed spec fn view(&self) -> Seq<(GamePhase, Turn)> {
        self.log@
    }
}

impl GameLogic {
    /// An empty log.
    pub fn new() -> (r: GameLogic)
        ensures
            r@ == Seq::<(GamePhase, Turn)>::empty(),
    {
        GameLogic { log: Vec::new() }
    }

    /// Appends `(game_phase, turn)` to the log.
    pub fn log(&mut self, game_phase: GamePhase, turn: Turn)
        ensures
            final(self)@ == old(self)@.push((game_phase, turn)),
    {
        self.log.push((game_phase, turn));
    }

    /// The number of logged actions.
    pub fn len(&self) -> (r: usize)
        ensures
            r == self@.len(),
    {
        self.log.len()
    }

    /// The state that follows the last logged action.
    pub fn next_state(&self) -> (r: (GamePhase, Turn))
        requires
            self@.len() > 0,
        ensures
            r == transition(self@.last().0, self@.last().1),
    {
        let (game_phase, turn) = self.log[self.log.len() - 1];
        match game_phase {
            GamePhase::PlaceWatchtower => match turn {
                Turn::Black => (GamePhase::MoveDraught, Turn::White),
                Turn::White => (GamePhase::PlaceWatchtower, Turn::Black),
            },
            GamePhase::PlaceGoPiece => (GamePhase::MoveDraught, opposite(turn)),
            GamePhase::MoveDraught => (GamePhase::PlaceGoPiece, turn),
            _ => (GamePhase::PlaceWatchtower, turn),
        }
    }
}

} // verus!
