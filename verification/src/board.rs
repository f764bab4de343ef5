//! The board: state plus game configuration, with reversible move
//! application through the history stack.
use vstd::prelude::*;

use crate::actions::Action;
use crate::actions::HistoryMove;
use crate::actions::UndoMoveError;
use crate::moves::Game;
use crate::moves::action_ok;
use crate::moves::can_retreat;
use crate::moves::tr_make;
use crate::pieces::Piece;
use crate::pieces::lookup_dirs_sp;
use crate::state::BoardState;
use crate::state::Cols;
use crate::state::GameModel;
use crate::state::Rows;
use crate::state::StateModel;
use crate::state::boards_view;
use crate::state::wf_base;
use crate::state::tr_undo;
use crate::state::wf;

verus! {

/// A per-square lookup of attack masks: one slot per team or in total for
/// delta pieces, one slot per ray direction for sliders.
pub type AttackDirections = Vec<crate::bits::BitBoard>;

/// A per-piece-kind lookup, indexed by square.
pub type AttackLookup = Vec<AttackDirections>;

/// The nested mathematical value of one piece kind's lookup table.
pub open spec fn lookup_view(table: Seq<AttackDirections>) -> Seq<Seq<u128>> {
    table.map_values(|dirs: AttackDirections| crate::state::boards_view(dirs@))
}

/// A board: the mutable state, the immutable game configuration, and the
/// per-piece attack lookups.
pub struct Board {
    pub state: BoardState,
    pub game: Game,
    pub attack_lookup: Vec<AttackLookup>,
}

impl Board {
    /// The team after `team` in turn order.
    pub fn get_next_team(&self, team: u32) -> (r: u32)
        requires
            self.state@.teams.len() >= 1,
            self.state@.teams.len() <= u32::MAX,
        ensures
            r as int == crate::state::next_team_sp(self.state@.teams.len() as int, team as int),
    {
        let n = self.state.teams.len();
        if team as usize >= n - 1 {
            0
        } else {
            team + 1
        }
    }

    /// The team before `team` in turn order.
    pub fn get_previous_team(&self, team: u32) -> (r: u32)
        requires
            self.state@.teams.len() >= 1,
            self.state@.teams.len() <= u32::MAX,
            (team as int) < self.state@.teams.len(),
        ensures
            r as int == crate::state::prev_team_sp(self.state@.teams.len() as int, team as int),
    {
        if team == 0 {
            (self.state.teams.len() - 1) as u32
        } else {
            team - 1
        }
    }

    /// Applies `action` through its piece kind's rules; the state becomes
    /// exactly `tr_make` of the old state and stays well-formed.
    pub fn make_move(&mut self, action: &Action)
        requires
            wf(old(self).game@, old(self).state@),
            action_ok(old(self).game@, old(self).state@, *action),
        ensures
            final(self).state@ == tr_make(old(self).game@, old(self).state@, *action),
            final(self).game == old(self).game,
            final(self).attack_lookup == old(self).attack_lookup,
            wf(final(self).game@, final(self).state@),
            can_retreat(final(self).game@, final(self).state@),
            final(self).state@.history.len() == old(self).state@.history.len() + 1,
            tr_undo(final(self).game@, final(self).state@) == old(self).state@,
    {
        let nt = self.state.teams.len();
        let np = self.state.pieces.len();
        proof {
            crate::moves::lemma_make_wf(self.game@, self.state@, *action);
        }
        let piece = self.game.pieces[action.piece_type];
        piece.make_move(&mut self.state, &self.game, action);
    }

    /// Undoes the newest move; fails exactly when the history is empty.
    pub fn undo_move(&mut self) -> (r: Result<(), UndoMoveError>)
        requires
            wf(old(self).game@, old(self).state@),
            old(self).state@.history.len() > 0 ==> can_retreat(old(self).game@, old(self).state@),
        ensures
            old(self).state@.history.len() == 0 ==> (r == Err::<(), UndoMoveError>(
                UndoMoveError::NoHistoryMoves,
            ) && final(self).state@ == old(self).state@),
            old(self).state@.history.len() > 0 ==> (r == Ok::<(), UndoMoveError>(())
                && final(self).state@ == tr_undo(old(self).game@, old(self).state@)),
            final(self).game == old(self).game,
            final(self).attack_lookup == old(self).attack_lookup,
            old(self).state@.history.len() > 0 ==> wf(final(self).game@, final(self).state@),
    {
        let popped = self.state.history.pop();
        match popped {
            Some(history_move) => {
                proof {
                    crate::state::lemma_history_view_pop(old(self).state.history@);
                    assert(crate::state::entry_ok(self.game@, history_move@));
                }
                let piece = self.game.pieces[history_move.action.piece_type];
                let ghost hv = history_move@;
                piece.undo_move(&mut self.state, &self.game, history_move);
                proof {
                    assert(self.state@ =~= tr_undo(old(self).game@, old(self).state@));
                }
                Ok(())
            },
            None => {
                proof {
                    assert(self.state@ =~= old(self).state@);
                }
                Err(UndoMoveError::NoHistoryMoves)
            },
        }
    }
}


/// The attack lookups hold, for every piece kind and square, exactly what
/// `lookup_dirs_sp` prescribes.
pub open spec fn lookups_ok(g: GameModel, s: StateModel, al: Seq<AttackLookup>) -> bool {
    &&& al.len() == g.pieces.len()
    &&& forall|p: int| 0 <= p < al.len() ==> #[trigger] al[p]@.len() == s.squares
    &&& forall|p: int, sq: int|
        0 <= p < al.len() && 0 <= sq < s.squares ==> boards_view(#[trigger] al[p]@[sq]@)
            == lookup_dirs_sp(g.teams, g.pieces[p], sq as u32, s.edges[0], s.cols)
}

/// A board is well-formed when its state is and its lookups are filled.
pub open spec fn board_wf(b: Board) -> bool {
    &&& wf(b.game@, b.state@)
    &&& lookups_ok(b.game@, b.state@, b.attack_lookup@)
}

/// Fills one piece kind's lookup: one `AttackDirections` per square.
pub fn generate_lookups(board: &Board, piece: &Piece, rows: Rows, cols: Cols) -> (r: AttackLookup)
    requires
        wf_base(board.game@, board.state@),
        rows == board.state@.rows,
        cols == board.state@.cols,
    ensures
        r@.len() == board.state@.squares,
        forall|sq: int|
            0 <= sq < board.state@.squares ==> boards_view(#[trigger] r@[sq]@) == lookup_dirs_sp(
                board.game@.teams,
                *piece,
                sq as u32,
                board.state@.edges[0],
                board.state@.cols,
            ),
{
    let mut lookups: Vec<Vec<crate::bits::BitBoard>> = Vec::new();
    let mut i: u32 = 0;
    while i < board.state.squares
        invariant
            wf_base(board.game@, board.state@),
            i <= board.state@.squares,
            lookups@.len() == i,
            forall|sq: int|
                0 <= sq < i ==> boards_view(#[trigger] lookups@[sq]@) == lookup_dirs_sp(
                    board.game@.teams,
                    *piece,
                    sq as u32,
                    board.state@.edges[0],
                    board.state@.cols,
                ),
        decreases board.state@.squares - i,
    {
        let from = crate::bits::BitBoard::from_lsb(i);
        proof {
            broadcast use crate::bits::group_nth;

            assert(crate::bits::nth(from.bits, i as u128));
            crate::bits::lemma_low_bit(from.bits, i as u128);
        }
        lookups.push(piece.generate_lookup_moves(board, from));
        i = i + 1;
    }
    lookups
}

impl Board {
    /// Precomputes the attack lookup of every piece kind.
    pub fn generate_lookups(&mut self)
        requires
            wf_base(old(self).game@, old(self).state@),
        ensures
            final(self).state == old(self).state,
            final(self).game == old(self).game,
            lookups_ok(final(self).game@, final(self).state@, final(self).attack_lookup@),
    {
        let mut out: Vec<AttackLookup> = Vec::new();
        let mut p: usize = 0;
        while p < self.game.pieces.len()
            invariant
                wf_base(self.game@, self.state@),
                p <= self.game@.pieces.len(),
                out@.len() == p,
                forall|k: int| 0 <= k < p ==> #[trigger] out@[k]@.len() == self.state@.squares,
                forall|k: int, sq: int|
                    0 <= k < p && 0 <= sq < self.state@.squares ==> boards_view(
                        #[trigger] out@[k]@[sq]@,
                    ) == lookup_dirs_sp(
                        self.game@.teams,
                        self.game@.pieces[k],
                        sq as u32,
                        self.state@.edges[0],
                        self.state@.cols,
                    ),
            decreases self.game@.pieces.len() - p,
        {
            let piece = self.game.pieces[p];
            if piece.can_lookup() {
                out.push(generate_lookups(self, &piece, self.state.rows, self.state.cols));
            } else {
                out.push(Vec::new());
            }
            p = p + 1;
        }
        self.attack_lookup = out;
    }

    /// Creates an empty board: all bitboards clear, the counters at zero, the
    /// edge masks computed, and the attack lookups generated.
    pub fn empty(game: Game, teams: u32, dims: (Rows, Cols)) -> (r: Board)
        requires
            teams as int == game@.teams,
            1 <= game@.teams,
            1 <= game@.turns,
            1 <= game@.pieces.len(),
            1 <= dims.0,
            1 <= dims.1,
            dims.0 * dims.1 <= 128,
        ensures
            board_wf(r),
            r.game == game,
            r.state@.all_pieces == 0,
            r.state@.first_move == 0,
            r.state@.history.len() == 0,
            r.state@.moving_team == 0,
            r.state@.turns == 0,
            r.state@.rows == dims.0,
            r.state@.cols == dims.1,
            r.state@.squares == dims.0 * dims.1,
            forall|t: int| 0 <= t < r.state@.teams.len() ==> #[trigger] r.state@.teams[t] == 0,
            forall|p: int| 0 <= p < r.state@.pieces.len() ==> #[trigger] r.state@.pieces[p] == 0,
            r.state@.teams.len() == game@.teams,
            r.state@.pieces.len() == game@.pieces.len(),
    {
        let rows = dims.0;
        let cols = dims.1;
        let mut pieces_state: Vec<crate::bits::BitBoard> = Vec::new();
        let mut i: usize = 0;
        while i < game.pieces.len()
            invariant
                i <= game@.pieces.len(),
                pieces_state@.len() == i,
                forall|k: int|
                    0 <= k < i ==> #[trigger] pieces_state@[k] == (crate::bits::BitBoard {
                        bits: 0u128,
                    }),
            decreases game@.pieces.len() - i,
        {
            pieces_state.push(crate::bits::BitBoard::new());
            i = i + 1;
        }
        let mut teams_state: Vec<crate::bits::BitBoard> = Vec::new();
        let mut t: u32 = 0;
        while t < teams
            invariant
                t <= teams,
                teams_state@.len() == t,
                forall|k: int|
                    0 <= k < t ==> #[trigger] teams_state@[k] == (crate::bits::BitBoard {
                        bits: 0u128,
                    }),
            decreases teams - t,
        {
            teams_state.push(crate::bits::BitBoard::new());
            t = t + 1;
        }
        let mut board = Board {
            attack_lookup: Vec::new(),
            game,
            state: BoardState {
                all_pieces: crate::bits::BitBoard::new(),
                first_move: crate::bits::BitBoard::new(),
                pieces: pieces_state,
                teams: teams_state,
                edges: crate::edges::generate_edge_list(rows, cols),
                cols,
                rows,
                squares: rows * cols,
                history: Vec::new(),
                moving_team: 0,
                current_turn: 0,
                full_moves: 0,
                sub_moves: 0,
                turns: 0,
            },
        };
        proof {
            broadcast use crate::bits::group_nth;

            let sv = board.state@;
            assert(crate::state::pairwise_disjoint(sv.teams)) by {
                assert forall|j: int, k: int|
                    0 <= j < k < sv.teams.len() implies crate::state::disjoint(
                    #[trigger] sv.teams[j],
                    #[trigger] sv.teams[k],
                ) by {
                    assert(sv.teams[j] == 0 && sv.teams[k] == 0);
                }
            }
            assert(crate::state::pairwise_disjoint(sv.pieces)) by {
                assert forall|j: int, k: int|
                    0 <= j < k < sv.pieces.len() implies crate::state::disjoint(
                    #[trigger] sv.pieces[j],
                    #[trigger] sv.pieces[k],
                ) by {
                    assert(sv.pieces[j] == 0 && sv.pieces[k] == 0);
                }
            }
            assert(crate::state::covers(sv.all_pieces, sv.teams)) by {
                assert forall|i: u128| #[trigger]
                    crate::bits::nth(sv.all_pieces, i) <==> exists|k: int|
                        0 <= k < sv.teams.len() && crate::bits::nth(
                            #[trigger] sv.teams[k],
                            i,
                        ) by {
                    if exists|k: int|
                        0 <= k < sv.teams.len() && crate::bits::nth(#[trigger] sv.teams[k], i) {
                        let k0 = choose|k: int|
                            0 <= k < sv.teams.len() && crate::bits::nth(#[trigger] sv.teams[k], i);
                        assert(sv.teams[k0] == 0);
                    }
                }
            }
            assert(crate::state::covers(sv.all_pieces, sv.pieces)) by {
                assert forall|i: u128| #[trigger]
                    crate::bits::nth(sv.all_pieces, i) <==> exists|k: int|
                        0 <= k < sv.pieces.len() && crate::bits::nth(
                            #[trigger] sv.pieces[k],
                            i,
                        ) by {
                    if exists|k: int|
                        0 <= k < sv.pieces.len() && crate::bits::nth(#[trigger] sv.pieces[k], i) {
                        let k0 = choose|k: int|
                            0 <= k < sv.pieces.len() && crate::bits::nth(
                                #[trigger] sv.pieces[k],
                                i,
                            );
                        assert(sv.pieces[k0] == 0);
                    }
                }
            }
            assert(crate::state::subset_of(sv.first_move, sv.all_pieces)) by {
                assert forall|i: u128|
                    crate::bits::nth(sv.first_move, i) implies crate::bits::nth(
                    sv.all_pieces,
                    i,
                ) by {}
            }
            assert(forall|i: u128| crate::bits::nth(sv.all_pieces, i) ==> i < sv.squares) by {
                assert forall|i: u128|
                    crate::bits::nth(sv.all_pieces, i) implies i < sv.squares by {}
            }
            assert(sv.edges[0] == crate::edges::edges_spec(sv.rows, sv.cols));
            assert(crate::state::ep_sync(board.game@, sv));
            assert(board.state.teams@.len() == teams as int);
            assert(sv.teams =~= boards_view(board.state.teams@));
            assert(sv.teams.len() == board.state.teams@.len());
            assert(sv.pieces.len() == board.state.pieces@.len());
            assert(sv.squares == sv.rows * sv.cols);
            assert(sv.edges.len() == 1);
            assert(wf_base(board.game@, board.state@));
            assert(board.state@.history.len() == 0);
        }
        board.generate_lookups();
        board
    }
}

} // verus!
