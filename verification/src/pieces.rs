//! The piece kinds and their polymorphic movement protocol.
//!
//! Piece dispatch is a tagged variant with a match per operation: every piece
//! kind answers the same protocol (symbol, lookup generation, move
//! generation, action enumeration, apply and undo).
use vstd::prelude::*;

use crate::bits::BitBoard;
use crate::edges::Edges;
use crate::sliders::step;
use crate::sliders::step_sp;
use crate::state::one_shl;

verus! {

#[derive(Clone, Copy, PartialEq, Eq, Structural, Debug)]
pub struct PawnPiece;

#[derive(Clone, Copy, PartialEq, Eq, Structural, Debug)]
pub struct KnightPiece;

#[derive(Clone, Copy, PartialEq, Eq, Structural, Debug)]
pub struct BishopPiece;

#[derive(Clone, Copy, PartialEq, Eq, Structural, Debug)]
pub struct RookPiece;

#[derive(Clone, Copy, PartialEq, Eq, Structural, Debug)]
pub struct QueenPiece;

#[derive(Clone, Copy, PartialEq, Eq, Structural, Debug)]
pub struct KingPiece;

/// One piece kind of a game.
#[derive(Clone, Copy, PartialEq, Eq, Structural, Debug)]
pub enum Piece {
    Pawn(PawnPiece),
    Knight(KnightPiece),
    Bishop(BishopPiece),
    Rook(RookPiece),
    Queen(QueenPiece),
    King(KingPiece),
}

/// A piece's symbol in a position description: one character with the case
/// giving the team, or one explicit character per team.
#[derive(Clone, Debug)]
pub enum PieceSymbol {
    Char(char),
    TeamSymbol(Vec<char>),
}

impl Piece {
    /// Whether the pawn's special apply/undo rules govern this kind.
    pub open spec fn is_pawn(self) -> bool {
        self is Pawn
    }

    /// The piece's symbol (lower case; team 0 upper-cases it).
    pub fn get_piece_symbol(&self) -> (r: PieceSymbol)
        ensures
            r matches PieceSymbol::Char(c) && c == self.symbol_char(),
    {
        match *self {
            Piece::Pawn(_) => PieceSymbol::Char('p'),
            Piece::Knight(_) => PieceSymbol::Char('n'),
            Piece::Bishop(_) => PieceSymbol::Char('b'),
            Piece::Rook(_) => PieceSymbol::Char('r'),
            Piece::Queen(_) => PieceSymbol::Char('q'),
            Piece::King(_) => PieceSymbol::Char('k'),
        }
    }

    pub open spec fn symbol_char(self) -> char {
        match self {
            Piece::Pawn(_) => 'p',
            Piece::Knight(_) => 'n',
            Piece::Bishop(_) => 'b',
            Piece::Rook(_) => 'r',
            Piece::Queen(_) => 'q',
            Piece::King(_) => 'k',
        }
    }

    /// Whether the engine precomputes and caches an attack lookup for this
    /// kind. Every standard piece uses a lookup.
    pub fn can_lookup(&self) -> (r: bool)
        ensures
            r,
    {
        match *self {
            Piece::Pawn(_) => true,
            Piece::Knight(_) => true,
            Piece::Bishop(_) => true,
            Piece::Rook(_) => true,
            Piece::Queen(_) => true,
            Piece::King(_) => true,
        }
    }
}


/// The knight's delta mask: every (2, 1) jump, built from clipped unit steps
/// so that nothing wraps a row or leaves the board.
pub open spec fn knight_mask_sp(sq: u32, e: Edges, cols: u32) -> u128 {
    let b = one_shl(sq as u128);
    let uu = step_sp(step_sp(b, 2, e, cols), 2, e, cols);
    let dd = step_sp(step_sp(b, 3, e, cols), 3, e, cols);
    let ll = step_sp(step_sp(b, 0, e, cols), 0, e, cols);
    let rr = step_sp(step_sp(b, 1, e, cols), 1, e, cols);
    step_sp(uu, 0, e, cols) | step_sp(uu, 1, e, cols) | step_sp(dd, 0, e, cols) | step_sp(
        dd,
        1,
        e,
        cols,
    ) | step_sp(ll, 2, e, cols) | step_sp(ll, 3, e, cols) | step_sp(rr, 2, e, cols) | step_sp(
        rr,
        3,
        e,
        cols,
    )
}

/// The king's delta mask: one clipped step in each of the eight directions.
pub open spec fn king_mask_sp(sq: u32, e: Edges, cols: u32) -> u128 {
    let b = one_shl(sq as u128);
    step_sp(b, 0, e, cols) | step_sp(b, 1, e, cols) | step_sp(b, 2, e, cols) | step_sp(
        b,
        3,
        e,
        cols,
    ) | step_sp(b, 4, e, cols) | step_sp(b, 5, e, cols) | step_sp(b, 6, e, cols) | step_sp(
        b,
        7,
        e,
        cols,
    )
}

/// What one piece kind's attack lookup holds for one square: per-team
/// capture masks for the pawn, the single delta mask for knight and king,
/// and one full ray per direction for the sliders.
pub open spec fn lookup_dirs_sp(teams: int, p: Piece, sq: u32, e: Edges, cols: u32) -> Seq<u128> {
    match p {
        Piece::Pawn(_) => Seq::new(
            teams as nat,
            |t: int| crate::pawn::pawn_capture_sp(sq, t as u32, e, cols),
        ),
        Piece::Knight(_) => seq![knight_mask_sp(sq, e, cols)],
        Piece::King(_) => seq![king_mask_sp(sq, e, cols)],
        Piece::Bishop(_) => Seq::new(
            4,
            |d: int| crate::sliders::ray_sp(sq, (4 + d) as u32, e, cols),
        ),
        Piece::Rook(_) => Seq::new(4, |d: int| crate::sliders::ray_sp(sq, d as u32, e, cols)),
        Piece::Queen(_) => Seq::new(8, |d: int| crate::sliders::ray_sp(sq, d as u32, e, cols)),
    }
}

impl Piece {
    /// Precomputes this kind's attack lookup for one square.
    pub fn generate_lookup_moves(
        &self,
        board: &crate::board::Board,
        from: BitBoard,
    ) -> (r: Vec<BitBoard>)
        requires
            crate::state::wf_base(board.game@, board.state@),
            from.bits != 0,
            from.bits == one_shl(crate::bits::low_bit(from.bits)),
            crate::bits::low_bit(from.bits) < board.state@.squares,
        ensures
            crate::state::boards_view(r@) == lookup_dirs_sp(
                board.game@.teams,
                *self,
                crate::bits::low_bit(from.bits) as u32,
                board.state@.edges[0],
                board.state@.cols,
            ),
    {
        let sq = from.bitscan_forward();
        proof {
            crate::bits::lemma_low_bit(from.bits, sq as u128);
            assert(board.state@.cols <= 128 && board.state@.rows <= 128) by (nonlinear_arith)
                requires
                    1 <= board.state@.rows && 1 <= board.state@.cols && board.state@.rows
                        * board.state@.cols <= 128,
            ;
        }
        let edges = board.state.edges[0];
        let cols = board.state.cols;
        let ghost e = board.state@.edges[0];
        let mut out: Vec<BitBoard> = Vec::new();
        match *self {
            Piece::Pawn(_) => {
                let mut t: u32 = 0;
                while t < board.game.teams
                    invariant
                        t <= board.game.teams,
                        1 <= cols <= 128,
                        cols == board.state@.cols,
                        edges == e,
                        from.bits == one_shl(sq as u128),
                        sq < board.state@.squares <= 128,
                        crate::state::boards_view(out@) =~= Seq::new(
                            t as nat,
                            |k: int| crate::pawn::pawn_capture_sp(sq, k as u32, e, cols),
                        ),
                    decreases board.game.teams - t,
                {
                    let clip = if t == 1 {
                        edges.bottom
                    } else {
                        edges.top
                    };
                    let from0 = from.and_not(&clip);
                    let up1 = crate::pawn::up(&from0, 1, cols, t);
                    let caps = up1.and_not(&edges.right).shl(1).or(&up1.and_not(&edges.left).shr(1));
                    proof {
                        assert(caps.bits == crate::pawn::pawn_capture_sp(sq, t, e, cols));
                    }
                    let ghost out_pre = out@;
                    out.push(caps);
                    proof {
                        crate::state::lemma_boards_view_push(out_pre, caps);
                        assert(crate::state::boards_view(out@) =~= Seq::new(
                            (t + 1) as nat,
                            |k: int| crate::pawn::pawn_capture_sp(sq, k as u32, e, cols),
                        ));
                    }
                    t = t + 1;
                }
                proof {
                    assert(crate::state::boards_view(out@) =~= lookup_dirs_sp(
                        board.game@.teams,
                        *self,
                        sq,
                        e,
                        cols,
                    ));
                }
            },
            Piece::Knight(_) => {
                let uu = step(step(from, 2, &edges, cols), 2, &edges, cols);
                let dd = step(step(from, 3, &edges, cols), 3, &edges, cols);
                let ll = step(step(from, 0, &edges, cols), 0, &edges, cols);
                let rr = step(step(from, 1, &edges, cols), 1, &edges, cols);
                let mask = step(uu, 0, &edges, cols).or(&step(uu, 1, &edges, cols)).or(
                    &step(dd, 0, &edges, cols),
                ).or(&step(dd, 1, &edges, cols)).or(&step(ll, 2, &edges, cols)).or(
                    &step(ll, 3, &edges, cols),
                ).or(&step(rr, 2, &edges, cols)).or(&step(rr, 3, &edges, cols));
                let ghost out_pre = out@;
                out.push(mask);
                proof {
                    crate::state::lemma_boards_view_push(out_pre, mask);
                    assert(crate::state::boards_view(out@) =~= lookup_dirs_sp(
                        board.game@.teams,
                        *self,
                        sq,
                        e,
                        cols,
                    ));
                }
            },
            Piece::King(_) => {
                let mask = step(from, 0, &edges, cols).or(&step(from, 1, &edges, cols)).or(
                    &step(from, 2, &edges, cols),
                ).or(&step(from, 3, &edges, cols)).or(&step(from, 4, &edges, cols)).or(
                    &step(from, 5, &edges, cols),
                ).or(&step(from, 6, &edges, cols)).or(&step(from, 7, &edges, cols));
                let ghost out_pre = out@;
                out.push(mask);
                proof {
                    crate::state::lemma_boards_view_push(out_pre, mask);
                    assert(crate::state::boards_view(out@) =~= lookup_dirs_sp(
                        board.game@.teams,
                        *self,
                        sq,
                        e,
                        cols,
                    ));
                }
            },
            Piece::Bishop(_) => {
                let mut d: u32 = 0;
                while d < 4
                    invariant
                        d <= 4,
                        1 <= cols <= 128,
                        cols == board.state@.cols,
                        edges == e,
                        from.bits == one_shl(sq as u128),
                        crate::state::boards_view(out@) =~= Seq::new(
                            d as nat,
                            |k: int| crate::sliders::ray_sp(sq, (4 + k) as u32, e, cols),
                        ),
                    decreases 4 - d,
                {
                    let ray = crate::sliders::get_moves_ray(from, 4 + d, &edges, cols);
                    let ghost out_pre = out@;
                    out.push(ray);
                    proof {
                        crate::state::lemma_boards_view_push(out_pre, ray);
                        assert(crate::state::boards_view(out@) =~= Seq::new(
                            (d + 1) as nat,
                            |k: int| crate::sliders::ray_sp(sq, (4 + k) as u32, e, cols),
                        ));
                    }
                    d = d + 1;
                }
                proof {
                    assert(crate::state::boards_view(out@) =~= lookup_dirs_sp(
                        board.game@.teams,
                        *self,
                        sq,
                        e,
                        cols,
                    ));
                }
            },
            Piece::Rook(_) => {
                let mut d: u32 = 0;
                while d < 4
                    invariant
                        d <= 4,
                        1 <= cols <= 128,
                        cols == board.state@.cols,
                        edges == e,
                        from.bits == one_shl(sq as u128),
                        crate::state::boards_view(out@) =~= Seq::new(
                            d as nat,
                            |k: int| crate::sliders::ray_sp(sq, k as u32, e, cols),
                        ),
                    decreases 4 - d,
                {
                    let ray = crate::sliders::get_moves_ray(from, d, &edges, cols);
                    let ghost out_pre = out@;
                    out.push(ray);
                    proof {
                        crate::state::lemma_boards_view_push(out_pre, ray);
                        assert(crate::state::boards_view(out@) =~= Seq::new(
                            (d + 1) as nat,
                            |k: int| crate::sliders::ray_sp(sq, k as u32, e, cols),
                        ));
                    }
                    d = d + 1;
                }
                proof {
                    assert(crate::state::boards_view(out@) =~= lookup_dirs_sp(
                        board.game@.teams,
                        *self,
                        sq,
                        e,
                        cols,
                    ));
                }
            },
            Piece::Queen(_) => {
                let mut d: u32 = 0;
                while d < 8
                    invariant
                        d <= 8,
                        1 <= cols <= 128,
                        cols == board.state@.cols,
                        edges == e,
                        from.bits == one_shl(sq as u128),
                        crate::state::boards_view(out@) =~= Seq::new(
                            d as nat,
                            |k: int| crate::sliders::ray_sp(sq, k as u32, e, cols),
                        ),
                    decreases 8 - d,
                {
                    let ray = crate::sliders::get_moves_ray(from, d, &edges, cols);
                    let ghost out_pre = out@;
                    out.push(ray);
                    proof {
                        crate::state::lemma_boards_view_push(out_pre, ray);
                        assert(crate::state::boards_view(out@) =~= Seq::new(
                            (d + 1) as nat,
                            |k: int| crate::sliders::ray_sp(sq, k as u32, e, cols),
                        ));
                    }
                    d = d + 1;
                }
                proof {
                    assert(crate::state::boards_view(out@) =~= lookup_dirs_sp(
                        board.game@.teams,
                        *self,
                        sq,
                        e,
                        cols,
                    ));
                }
            },
        }
        out
    }
}

} // verus!
