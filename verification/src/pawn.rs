//! The pawn: single and double pushes, diagonal captures, en passant and
//! promotion. The most intricate piece.
//!
//! A pawn that moves always leaves the first-move mask, uniformly with the
//! other pieces; double-push eligibility is re-established from row
//! membership by the chess post-process hook when a position is loaded.
use vstd::prelude::*;
use vstd::pervasive::VecAdditionalExecFns;

use crate::actions::Action;
use crate::actions::HistM;
use crate::actions::HistStateM;
use crate::actions::HistoryMove;
use crate::actions::HistoryState;
use crate::actions::HistoryUpdate;
use crate::actions::IndexedPreviousBoard;
use crate::actions::PreviousBoard;
use crate::bits::BitBoard;
use crate::bits::nth;
use crate::pieces::PawnPiece;
use crate::state::BoardState;
use crate::state::Cols;
use crate::state::GameModel;
use crate::state::StateModel;
use crate::state::boards_view;
use crate::state::first_board_at;
use crate::state::first_at;
use crate::state::history_view;
use crate::state::lemma_boards_view_update;
use crate::state::lemma_history_view_push;
use crate::state::one_shl;
use crate::state::tr_normal;

verus! {

/// One square forward for `team`: team 1 moves toward higher bit indices,
/// every other team toward lower ones.
pub fn up(bitboard: &BitBoard, shift: u32, cols: Cols, team: u32) -> (r: BitBoard)
    ensures
        r == up_sp(*bitboard, shift, cols, team),
{
    match team {
        0 => bitboard.up(shift, cols),
        1 => bitboard.down(shift, cols),
        _ => bitboard.up(shift, cols),
    }
}

/// One square backward for `team`.
pub fn down(bitboard: &BitBoard, shift: u32, cols: Cols, team: u32) -> (r: BitBoard)
    ensures
        r == down_sp(*bitboard, shift, cols, team),
{
    match team {
        0 => bitboard.down(shift, cols),
        1 => bitboard.up(shift, cols),
        _ => bitboard.down(shift, cols),
    }
}

pub open spec fn up_sp(b: BitBoard, shift: u32, cols: Cols, team: u32) -> BitBoard {
    if team == 1 {
        BitBoard { bits: b.bits << crate::bits::row_shift(shift, cols) }
    } else {
        BitBoard { bits: b.bits >> crate::bits::row_shift(shift, cols) }
    }
}

pub open spec fn down_sp(b: BitBoard, shift: u32, cols: Cols, team: u32) -> BitBoard {
    if team == 1 {
        BitBoard { bits: b.bits >> crate::bits::row_shift(shift, cols) }
    } else {
        BitBoard { bits: b.bits << crate::bits::row_shift(shift, cols) }
    }
}

/// The pawn's precomputed capture mask for one square and team: one square
/// forward in the team's direction (clipped against the far boundary), then
/// one column left and one right, clipped against the side boundaries.
pub open spec fn pawn_capture_sp(sq: u32, team: u32, e: crate::edges::Edges, cols: u32) -> u128 {
    let from0 = one_shl(sq as u128) & !(if team == 1 {
        e.bottom.bits
    } else {
        e.top.bits
    });
    let up1 = if team == 1 {
        from0 << (cols as u128)
    } else {
        from0 >> (cols as u128)
    };
    ((up1 & !e.right.bits) << 1u128) | ((up1 & !e.left.bits) >> 1u128)
}

/// The square of the pawn captured en passant: one square behind the
/// destination from the mover's perspective.
pub open spec fn ep_victim(a: Action, cols: u32) -> int {
    if a.team == 1 {
        a.to - cols
    } else {
        a.to + cols
    }
}

/// What a pawn action must satisfy beyond the generic conditions: an
/// en-passant tag on an empty destination demands an enemy pawn on the victim
/// square, and a promotion tag names an existing piece kind other than the
/// pawn itself.
pub open spec fn pawn_action_ok(g: GameModel, s: StateModel, a: Action) -> bool {
    &&& (a.info == 1 && !nth(s.all_pieces, a.to as u128)) ==> {
        let e = ep_victim(a, s.cols);
        &&& s.teams.len() == 2
        &&& 0 <= e < s.squares
        &&& e != a.from
        &&& e != a.to
        &&& nth(s.all_pieces, e as u128)
        &&& !nth(s.teams[a.team as int], e as u128)
        &&& nth(s.pieces[a.piece_type as int], e as u128)
    }
    &&& a.info >= 2 ==> {
        &&& (a.info - 2) < g.pieces.len()
        &&& a.info - 2 != a.piece_type
    }
}

/// The boards and history after a quiet promotion: the pawn leaves `from`,
/// the promoted kind appears on `to`, and an `Any` record of the three
/// overwritten boards is pushed.
pub open spec fn tr_pawn_promo(s: StateModel, a: Action) -> StateModel {
    let c = a.team as int;
    let pt = a.piece_type as int;
    let promo = a.info - 2;
    let f = one_shl(a.from as u128);
    let t = one_shl(a.to as u128);
    let p1 = s.pieces.update(promo, s.pieces[promo] | t);
    StateModel {
        teams: s.teams.update(c, (s.teams[c] ^ f) | t),
        pieces: p1.update(pt, p1[pt] ^ f),
        all_pieces: (s.all_pieces ^ f) | t,
        first_move: s.first_move & !f,
        history: s.history.push(
            HistM {
                action: a,
                state: HistStateM::Any {
                    all_pieces: s.all_pieces,
                    first_move: s.first_move,
                    updates: seq![
                        HistoryUpdate::Team(
                            IndexedPreviousBoard(a.team as usize, BitBoard { bits: s.teams[c] }),
                        ),
                        HistoryUpdate::Piece(
                            IndexedPreviousBoard(a.piece_type, BitBoard { bits: s.pieces[pt] }),
                        ),
                        HistoryUpdate::Piece(
                            IndexedPreviousBoard(
                                (a.info - 2) as usize,
                                BitBoard { bits: s.pieces[promo] },
                            ),
                        ),
                    ],
                },
            },
        ),
        ..s
    }
}

/// The boards and history after an en-passant capture: the mover's pawn swaps
/// `from` for `to`, the victim team and the pawn board lose the victim
/// square, and an `Any` record of the three overwritten boards is pushed.
pub open spec fn tr_pawn_ep(s: StateModel, a: Action) -> StateModel {
    let c = a.team as int;
    let pt = a.piece_type as int;
    let f = one_shl(a.from as u128);
    let t = one_shl(a.to as u128);
    let e = one_shl(ep_victim(a, s.cols) as u128);
    let ec = first_at(s.teams, ep_victim(a, s.cols) as u128);
    let t1 = s.teams.update(c, (s.teams[c] ^ f) | t);
    StateModel {
        teams: t1.update(ec, t1[ec] ^ e),
        pieces: s.pieces.update(pt, ((s.pieces[pt] ^ f) ^ e) | t),
        all_pieces: ((s.all_pieces ^ f) ^ e) | t,
        first_move: s.first_move & !f & !e,
        history: s.history.push(
            HistM {
                action: a,
                state: HistStateM::Any {
                    all_pieces: s.all_pieces,
                    first_move: s.first_move,
                    updates: seq![
                        HistoryUpdate::Team(
                            IndexedPreviousBoard(a.team as usize, BitBoard { bits: s.teams[c] }),
                        ),
                        HistoryUpdate::Team(
                            IndexedPreviousBoard(ec as usize, BitBoard { bits: s.teams[ec] }),
                        ),
                        HistoryUpdate::Piece(
                            IndexedPreviousBoard(a.piece_type, BitBoard { bits: s.pieces[pt] }),
                        ),
                    ],
                },
            },
        ),
        ..s
    }
}

/// The boards and history after a pawn capture, promoting when the action
/// says so: as the default capture, except that with a promotion tag the
/// promoted kind rather than the pawn appears on `to`, and its overwritten
/// board joins the record.
pub open spec fn tr_pawn_capture(s: StateModel, a: Action) -> StateModel {
    let c = a.team as int;
    let pt = a.piece_type as int;
    let f = one_shl(a.from as u128);
    let t = one_shl(a.to as u128);
    let cc = first_at(s.teams, a.to as u128);
    let cpt = first_at(s.pieces, a.to as u128);
    let base_updates = seq![
        HistoryUpdate::Team(IndexedPreviousBoard(a.team as usize, BitBoard { bits: s.teams[c] })),
        HistoryUpdate::Team(IndexedPreviousBoard(cc as usize, BitBoard { bits: s.teams[cc] })),
        HistoryUpdate::Piece(IndexedPreviousBoard(a.piece_type, BitBoard { bits: s.pieces[pt] })),
        HistoryUpdate::Piece(IndexedPreviousBoard(cpt as usize, BitBoard { bits: s.pieces[cpt] })),
    ];
    let updates = if a.info >= 2 {
        base_updates.push(
            HistoryUpdate::Piece(
                IndexedPreviousBoard((a.info - 2) as usize, BitBoard { bits: s.pieces[a.info - 2] }),
            ),
        )
    } else {
        base_updates
    };
    let p1 = s.pieces.update(cpt, s.pieces[cpt] ^ t);
    let p2 = p1.update(pt, p1[pt] ^ f);
    StateModel {
        teams: s.teams.update(cc, s.teams[cc] ^ t).update(
            c,
            (s.teams.update(cc, s.teams[cc] ^ t)[c] ^ f) | t,
        ),
        pieces: if a.info >= 2 {
            p2.update(a.info - 2, p2[a.info - 2] | t)
        } else {
            p2.update(pt, p2[pt] | t)
        },
        all_pieces: s.all_pieces ^ f,
        first_move: s.first_move & !f & !t,
        history: s.history.push(
            HistM {
                action: a,
                state: HistStateM::Any {
                    all_pieces: s.all_pieces,
                    first_move: s.first_move,
                    updates: updates,
                },
            },
        ),
        ..s
    }
}

/// The pawn's boards-and-history transition, by occupancy and tag.
pub open spec fn tr_pawn(s: StateModel, a: Action) -> StateModel {
    if nth(s.all_pieces, a.to as u128) {
        tr_pawn_capture(s, a)
    } else if a.info == 1 {
        tr_pawn_ep(s, a)
    } else if a.info >= 2 {
        tr_pawn_promo(s, a)
    } else {
        tr_normal(s, a)
    }
}


impl PawnPiece {
    /// Applies an en-passant capture: the mover's pawn swaps `from` for `to`
    /// and the enemy pawn one square behind `to` leaves the board.
    pub fn make_en_passant_move(
        &self,
        state: &mut BoardState,
        action: &Action,
        piece_type: usize,
        from: BitBoard,
        to: BitBoard,
    )
        requires
            piece_type == action.piece_type,
            (action.team as int) < old(state)@.teams.len(),
            (piece_type as int) < old(state)@.pieces.len(),
            from.bits == one_shl(action.from as u128),
            to.bits == one_shl(action.to as u128),
            action.from < 128,
            action.to < 128,
            0 <= ep_victim(*action, old(state)@.cols) < 128,
            old(state).cols == old(state)@.cols,
        ensures
            final(state)@ == tr_pawn_ep(old(state)@, *action),
    {
        let cols = state.cols;
        let color = action.team as usize;
        let victim: u32 = if action.team == 1 {
            action.to - cols
        } else {
            action.to + cols
        };
        let target = BitBoard::from_lsb(victim);
        let target_color = first_board_at(&state.teams, victim);
        let team_prev = state.teams[color];
        let ctarget_prev = state.teams[target_color];
        let piece_prev = state.pieces[piece_type];
        let mut updates: Vec<HistoryUpdate> = Vec::new();
        updates.push(HistoryUpdate::Team(IndexedPreviousBoard(color, team_prev)));
        updates.push(HistoryUpdate::Team(IndexedPreviousBoard(target_color, ctarget_prev)));
        updates.push(HistoryUpdate::Piece(IndexedPreviousBoard(piece_type, piece_prev)));
        state.history.push(
            HistoryMove {
                action: *action,
                state: HistoryState::Any {
                    all_pieces: PreviousBoard(state.all_pieces),
                    first_move: PreviousBoard(state.first_move),
                    updates: updates,
                },
            },
        );
        let team_new = team_prev.xor(&from).or(&to);
        state.teams.set(color, team_new);
        let ghost teams_mid = state.teams@;
        let ctarget_mid = state.teams[target_color];
        let ctarget_new = ctarget_mid.xor(&target);
        state.teams.set(target_color, ctarget_new);
        let piece_new = piece_prev.xor(&from).xor(&target).or(&to);
        state.pieces.set(piece_type, piece_new);
        state.all_pieces = state.all_pieces.xor(&from).xor(&target).or(&to);
        state.first_move = state.first_move.and_not(&from).and_not(&target);
        proof {
            lemma_boards_view_update(old(state).teams@, color as int, team_new);
            lemma_boards_view_update(teams_mid, target_color as int, ctarget_new);
            lemma_boards_view_update(old(state).pieces@, piece_type as int, piece_new);
            assert(victim as int == ep_victim(*action, old(state)@.cols));
            assert(state@.teams =~= tr_pawn_ep(old(state)@, *action).teams);
            assert(state@.pieces =~= tr_pawn_ep(old(state)@, *action).pieces);
            assert(state@.history =~~= tr_pawn_ep(old(state)@, *action).history);
            assert(state@ =~= tr_pawn_ep(old(state)@, *action));
        }
    }

    /// Applies a quiet pawn move: en passant when tagged 1, a promotion when
    /// tagged 2 or more, else the default quiet move.
    pub fn make_normal_move(
        &self,
        state: &mut BoardState,
        action: &Action,
        piece_type: usize,
        from: BitBoard,
        to: BitBoard,
    )
        requires
            piece_type == action.piece_type,
            (action.team as int) < old(state)@.teams.len(),
            (piece_type as int) < old(state)@.pieces.len(),
            from.bits == one_shl(action.from as u128),
            to.bits == one_shl(action.to as u128),
            action.from < 128,
            action.to < 128,
            action.info == 1 ==> 0 <= ep_victim(*action, old(state)@.cols) < 128,
            action.info >= 2 ==> action.info - 2 < old(state)@.pieces.len() && action.info - 2
                != piece_type,
            old(state).cols == old(state)@.cols,
        ensures
            action.info == 1 ==> final(state)@ == tr_pawn_ep(old(state)@, *action),
            action.info >= 2 ==> final(state)@ == tr_pawn_promo(old(state)@, *action),
            action.info == 0 ==> final(state)@ == tr_normal(old(state)@, *action),
    {
        if action.info == 1 {
            self.make_en_passant_move(state, action, piece_type, from, to);
            return ;
        }
        if action.info >= 2 {
            let promotion_type = action.info - 2;
            let color = action.team as usize;
            let team_prev = state.teams[color];
            let piece_prev = state.pieces[piece_type];
            let promo_prev = state.pieces[promotion_type];
            let mut updates: Vec<HistoryUpdate> = Vec::new();
            updates.push(HistoryUpdate::Team(IndexedPreviousBoard(color, team_prev)));
            updates.push(HistoryUpdate::Piece(IndexedPreviousBoard(piece_type, piece_prev)));
            updates.push(HistoryUpdate::Piece(IndexedPreviousBoard(promotion_type, promo_prev)));
            state.history.push(
                HistoryMove {
                    action: *action,
                    state: HistoryState::Any {
                        all_pieces: PreviousBoard(state.all_pieces),
                        first_move: PreviousBoard(state.first_move),
                        updates: updates,
                    },
                },
            );
            let promo_new = promo_prev.or(&to);
            state.pieces.set(promotion_type, promo_new);
            let ghost pieces_mid = state.pieces@;
            let piece_mid = state.pieces[piece_type];
            let piece_new = piece_mid.xor(&from);
            state.pieces.set(piece_type, piece_new);
            let team_new = team_prev.xor(&from).or(&to);
            state.teams.set(color, team_new);
            state.all_pieces = state.all_pieces.xor(&from).or(&to);
            state.first_move = state.first_move.and_not(&from);
            proof {
                lemma_boards_view_update(old(state).pieces@, promotion_type as int, promo_new);
                lemma_boards_view_update(pieces_mid, piece_type as int, piece_new);
                lemma_boards_view_update(old(state).teams@, color as int, team_new);
                assert(state@.teams =~= tr_pawn_promo(old(state)@, *action).teams);
                assert(state@.pieces =~= tr_pawn_promo(old(state)@, *action).pieces);
                assert(state@.history =~~= tr_pawn_promo(old(state)@, *action).history);
                assert(state@ =~= tr_pawn_promo(old(state)@, *action));
            }
            return ;
        }
        let color = action.team as usize;
        let team_prev = state.teams[color];
        let piece_prev = state.pieces[piece_type];
        state.history.push(
            HistoryMove {
                action: *action,
                state: HistoryState::Single {
                    team: IndexedPreviousBoard(color, team_prev),
                    piece: IndexedPreviousBoard(piece_type, piece_prev),
                    all_pieces: PreviousBoard(state.all_pieces),
                    first_move: PreviousBoard(state.first_move),
                },
            },
        );
        let team_new = team_prev.xor(&from).or(&to);
        let piece_new = piece_prev.xor(&from).or(&to);
        state.teams.set(color, team_new);
        state.pieces.set(piece_type, piece_new);
        state.all_pieces = state.all_pieces.xor(&from).or(&to);
        state.first_move = state.first_move.and_not(&from);
        proof {
            lemma_boards_view_update(old(state).teams@, color as int, team_new);
            lemma_boards_view_update(old(state).pieces@, piece_type as int, piece_new);
            assert(state@ =~= tr_normal(old(state)@, *action));
        }
    }

    /// Applies a pawn capture, promoting when the action is so tagged.
    pub fn make_capture_move(
        &self,
        state: &mut BoardState,
        action: &Action,
        piece_type: usize,
        from: BitBoard,
        to: BitBoard,
    )
        requires
            piece_type == action.piece_type,
            (action.team as int) < old(state)@.teams.len(),
            (piece_type as int) < old(state)@.pieces.len(),
            from.bits == one_shl(action.from as u128),
            to.bits == one_shl(action.to as u128),
            action.from < 128,
            action.to < 128,
            action.info >= 2 ==> action.info - 2 < old(state)@.pieces.len(),
        ensures
            final(state)@ == tr_pawn_capture(old(state)@, *action),
    {
        let color = action.team as usize;
        let captured_color = first_board_at(&state.teams, action.to);
        let captured_piece_type = first_board_at(&state.pieces, action.to);
        let team_prev = state.teams[color];
        let cteam_prev = state.teams[captured_color];
        let piece_prev = state.pieces[piece_type];
        let cpiece_prev = state.pieces[captured_piece_type];
        let mut updates: Vec<HistoryUpdate> = Vec::new();
        updates.push(HistoryUpdate::Team(IndexedPreviousBoard(color, team_prev)));
        updates.push(HistoryUpdate::Team(IndexedPreviousBoard(captured_color, cteam_prev)));
        updates.push(HistoryUpdate::Piece(IndexedPreviousBoard(piece_type, piece_prev)));
        updates.push(
            HistoryUpdate::Piece(IndexedPreviousBoard(captured_piece_type, cpiece_prev)),
        );
        if action.info >= 2 {
            let promotion_type = action.info - 2;
            updates.push(
                HistoryUpdate::Piece(
                    IndexedPreviousBoard(promotion_type, state.pieces[promotion_type]),
                ),
            );
        }
        state.history.push(
            HistoryMove {
                action: *action,
                state: HistoryState::Any {
                    all_pieces: PreviousBoard(state.all_pieces),
                    first_move: PreviousBoard(state.first_move),
                    updates: updates,
                },
            },
        );
        let cteam_new = cteam_prev.xor(&to);
        state.teams.set(captured_color, cteam_new);
        let ghost teams_mid = state.teams@;
        let team_mid = state.teams[color];
        let team_new = team_mid.xor(&from).or(&to);
        state.teams.set(color, team_new);
        let cpiece_new = cpiece_prev.xor(&to);
        state.pieces.set(captured_piece_type, cpiece_new);
        let ghost pieces_mid1 = state.pieces@;
        let piece_mid = state.pieces[piece_type];
        let piece_new = piece_mid.xor(&from);
        state.pieces.set(piece_type, piece_new);
        let ghost pieces_mid2 = state.pieces@;
        proof {
            lemma_boards_view_update(old(state).teams@, captured_color as int, cteam_new);
            lemma_boards_view_update(teams_mid, color as int, team_new);
            lemma_boards_view_update(old(state).pieces@, captured_piece_type as int, cpiece_new);
            lemma_boards_view_update(pieces_mid1, piece_type as int, piece_new);
        }
        if action.info >= 2 {
            let promotion_type = action.info - 2;
            let promo_mid = state.pieces[promotion_type];
            let promo_new = promo_mid.or(&to);
            state.pieces.set(promotion_type, promo_new);
            proof {
                lemma_boards_view_update(pieces_mid2, promotion_type as int, promo_new);
            }
        } else {
            let last_mid = state.pieces[piece_type];
            let last_new = last_mid.or(&to);
            state.pieces.set(piece_type, last_new);
            proof {
                lemma_boards_view_update(pieces_mid2, piece_type as int, last_new);
            }
        }
        state.all_pieces = state.all_pieces.xor(&from);
        state.first_move = state.first_move.and_not(&from).and_not(&to);
        proof {
            assert(state@.teams =~= tr_pawn_capture(old(state)@, *action).teams);
            assert(state@.pieces =~= tr_pawn_capture(old(state)@, *action).pieces);
            assert(state@.history =~~= tr_pawn_capture(old(state)@, *action).history);
            assert(state@ =~= tr_pawn_capture(old(state)@, *action));
        }
    }
}


/// The absolute difference of two square indices.
pub open spec fn adiff(a: u32, b: u32) -> int {
    if a >= b {
        a - b
    } else {
        b - a
    }
}

/// Whether the last recorded action gives `team` an en-passant opportunity:
/// piece kind 0 just moved two whole rows with a plain tag.
pub open spec fn ep_available(s: StateModel, team: u32) -> bool {
    &&& s.history.len() > 0
    &&& s.history.last().action.piece_type == 0
    &&& s.history.last().action.info < 2
    &&& adiff(s.history.last().action.to, s.history.last().action.from) == 2 * s.cols
}

/// The phantom capture square an en-passant opportunity adds: one square in
/// the opponent's forward direction from the double push's source.
pub open spec fn ep_req_sp(s: StateModel, team: u32) -> u128 {
    if ep_available(s, team) {
        let h = s.history.last();
        let nt = crate::state::next_team_sp(s.teams.len() as int, team as int);
        if nt == 1 {
            one_shl(h.action.from as u128) << (s.cols as u128)
        } else {
            one_shl(h.action.from as u128) >> (s.cols as u128)
        }
    } else {
        0
    }
}

/// The pawn's pseudo-legal destinations from square `sq`. In ATTACKS mode
/// (1), exactly the precomputed capture mask regardless of occupancy; in
/// NORMAL mode (0), the single push onto an empty square, the double push
/// when the source has not moved, and the capture mask restricted to occupied
/// squares plus the en-passant phantom square.
pub open spec fn pawn_moves_sp(s: StateModel, sq: u32, team: u32, mode: u32) -> u128 {
    let e = s.edges[0];
    if mode == 1 {
        pawn_capture_sp(sq, team, e, s.cols)
    } else {
        let from = one_shl(sq as u128);
        let single = (if team == 1 {
            from << (s.cols as u128)
        } else {
            from >> (s.cols as u128)
        }) & !s.all_pieces;
        let dbl = if from & s.first_move != 0 {
            (if team == 1 {
                single << (s.cols as u128)
            } else {
                single >> (s.cols as u128)
            }) & !s.all_pieces
        } else {
            0
        };
        let caps = pawn_capture_sp(sq, team, e, s.cols) & (s.all_pieces | ep_req_sp(s, team));
        single | dbl | caps
    }
}

impl PawnPiece {
    /// The pawn's pseudo-legal destinations; see `pawn_moves_sp`.
    pub fn get_moves(
        &self,
        board: &crate::board::Board,
        from: BitBoard,
        piece_type: usize,
        team: u32,
        mode: u32,
    ) -> (r: BitBoard)
        requires
            crate::state::wf(board.game@, board.state@),
            crate::board::lookups_ok(board.game@, board.state@, board.attack_lookup@),
            board.game@.teams == 2,
            board.game@.turns == 1,
            (piece_type as int) < board.game@.pieces.len(),
            board.game@.pieces[piece_type as int] is Pawn,
            (team as int) < board.game@.teams,
            from.bits != 0,
            from.bits == one_shl(crate::bits::low_bit(from.bits)),
            crate::bits::low_bit(from.bits) < board.state@.squares,
        ensures
            r.bits == pawn_moves_sp(
                board.state@,
                crate::bits::low_bit(from.bits) as u32,
                team,
                mode,
            ),
    {
        let sq = from.bitscan_forward();
        let cols = board.state.cols;
        proof {
            crate::bits::lemma_low_bit(from.bits, sq as u128);
            assert(crate::state::boards_view(board.attack_lookup@[piece_type as int]@[sq as int]@)
                == crate::pieces::lookup_dirs_sp(
                board.game@.teams,
                board.game@.pieces[piece_type as int],
                sq,
                board.state@.edges[0],
                cols,
            ));
        }
        let captures_mask = board.attack_lookup[piece_type][sq as usize][team as usize];
        proof {
            let ghost dirs = board.attack_lookup@[piece_type as int]@[sq as int]@;
            assert(crate::state::boards_view(dirs)[team as int] == dirs[team as int].bits);
            assert(crate::state::boards_view(dirs)[team as int] == pawn_capture_sp(
                sq,
                team,
                board.state@.edges[0],
                cols,
            ));
            assert(captures_mask.bits == pawn_capture_sp(sq, team, board.state@.edges[0], cols));
        }
        if mode == 1 {
            return captures_mask;
        }
        let single_moves = up(&from, 1, cols, team).and_not(&board.state.all_pieces);
        let mut moves = single_moves;
        if from.and(&board.state.first_move).is_set() {
            let double_moves = up(&single_moves, 1, cols, team).and_not(&board.state.all_pieces);
            moves = moves.or(&double_moves);
        } else {
            proof {
                let f0 = from.bits;
                let fm = board.state@.first_move;
                assert((f0 & fm == 0) ==> (f0 & fm != 0) == false);
            }
        }
        let mut capture_requirements = board.state.all_pieces;
        proof {
            if board.state@.history.len() > 0 {
                crate::state::lemma_history_view_pop(board.state.history@);
            }
        }
        if board.state.history.len() > 0 {
            let last = &board.state.history[board.state.history.len() - 1];
            let d = if last.action.to >= last.action.from {
                last.action.to - last.action.from
            } else {
                last.action.from - last.action.to
            };
            if last.action.piece_type == 0 && last.action.info < 2 && (d as u64) == 2 * (
            cols as u64) {
                proof {
                    assert(board.state@.history.last() == board.state.history@[board.state.history@.len()
                        - 1]@);
                    assert(ep_available(board.state@, team));
                }
                let nt = if team + 1 >= board.game.teams {
                    0
                } else {
                    team + 1
                };
                let phantom = up(&BitBoard::from_lsb(last.action.from), 1, cols, nt);
                capture_requirements = capture_requirements.or(&phantom);
                proof {
                    assert(capture_requirements.bits == board.state@.all_pieces | ep_req_sp(
                        board.state@,
                        team,
                    ));
                }
            } else {
                proof {
                    assert(!ep_available(board.state@, team));
                    let a0 = board.state@.all_pieces;
                    assert(a0 | 0u128 == a0) by (bit_vector);
                }
            }
        } else {
            proof {
                let a0 = board.state@.all_pieces;
                assert(a0 | 0u128 == a0) by (bit_vector);
            }
        }
        let captures = captures_mask.and(&capture_requirements);
        moves = moves.or(&captures);
        proof {
            let sv = board.state@;
            let single = (if team == 1 {
                one_shl(sq as u128) << (sv.cols as u128)
            } else {
                one_shl(sq as u128) >> (sv.cols as u128)
            }) & !sv.all_pieces;
            if one_shl(sq as u128) & sv.first_move == 0 {
                let caps = captures.bits;
                assert((single | 0) | caps == single | 0 | caps) by (bit_vector);
                assert(single | 0u128 == single) by (bit_vector);
            }
        }
        moves
    }
}

} // verus!
