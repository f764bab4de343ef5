//! Actions (moves) and the history records that make them reversible.
use vstd::prelude::*;

use crate::bits::BitBoard;

verus! {

/// The error of undoing a move on a board whose history is empty.
#[derive(Clone, Copy, PartialEq, Eq, Structural, Debug)]
pub struct NoHistoryMoves;

/// The errors of the apply/undo machine.
#[derive(Clone, Copy, PartialEq, Eq, Structural, Debug)]
pub enum UndoMoveError {
    NoHistoryMoves,
}

/// One move of one piece. `info` is an opaque per-piece tag: 0 is a plain
/// quiet move or capture; the pawn uses 1 for en passant and `k + 2` for a
/// promotion to piece kind `k`.
#[derive(Clone, Copy, PartialEq, Eq, Structural, Debug)]
pub struct Action {
    pub from: u32,
    pub to: u32,
    pub team: u32,
    pub piece_type: usize,
    pub info: usize,
}

/// A bitboard as it stood before a move.
#[derive(Clone, Copy, PartialEq, Eq, Structural, Debug)]
pub struct PreviousBoard(pub BitBoard);

/// A team or piece bitboard, with its index, as it stood before a move.
#[derive(Clone, Copy, PartialEq, Eq, Structural, Debug)]
pub struct IndexedPreviousBoard(pub usize, pub BitBoard);

/// One overwritten board of a move that touched several boards.
#[derive(Clone, Copy, PartialEq, Eq, Structural, Debug)]
pub enum HistoryUpdate {
    Team(IndexedPreviousBoard),
    Piece(IndexedPreviousBoard),
}

/// What a move overwrote. `Single` serves quiet moves, which touch one team
/// and one piece board; `Any` serves captures, promotions and en passant;
/// `Marker` records a synthetic last move (an en-passant opportunity decoded
/// from a position description) that changed no boards.
#[derive(Clone, Debug)]
pub enum HistoryState {
    Single {
        team: IndexedPreviousBoard,
        piece: IndexedPreviousBoard,
        all_pieces: PreviousBoard,
        first_move: PreviousBoard,
    },
    Any { all_pieces: PreviousBoard, first_move: PreviousBoard, updates: Vec<HistoryUpdate> },
    Marker,
}

/// One entry of the history stack: the action and what it overwrote.
#[derive(Clone, Debug)]
pub struct HistoryMove {
    pub action: Action,
    pub state: HistoryState,
}

/// The mathematical value of a `HistoryState`.
#[verifier::ext_equal]
pub ghost enum HistStateM {
    Single { team: IndexedPreviousBoard, piece: IndexedPreviousBoard, all_pieces: u128, first_move: u128 },
    Any { all_pieces: u128, first_move: u128, updates: Seq<HistoryUpdate> },
    Marker,
}

/// The mathematical value of a history entry.
#[verifier::ext_equal]
pub ghost struct HistM {
    pub action: Action,
    pub state: HistStateM,
}

impl View for HistoryState {
    type V = HistStateM;

    open spec fn view(&self) -> HistStateM {
        match *self {
            HistoryState::Single { team, piece, all_pieces, first_move } => HistStateM::Single {
                team,
                piece,
                all_pieces: all_pieces.0.bits,
                first_move: first_move.0.bits,
            },
            HistoryState::Any { all_pieces, first_move, updates } => HistStateM::Any {
                all_pieces: all_pieces.0.bits,
                first_move: first_move.0.bits,
                updates: updates@,
            },
            HistoryState::Marker => HistStateM::Marker,
        }
    }
}

impl View for HistoryMove {
    type V = HistM;

    open spec fn view(&self) -> HistM {
        HistM { action: self.action, state: self.state@ }
    }
}

} // verus!
