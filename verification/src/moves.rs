//! The apply/undo machine: what a move may assume, what it changes, and that
//! undoing restores the previous state bit for bit.
use vstd::prelude::*;
use vstd::pervasive::VecAdditionalExecFns;

use crate::actions::Action;
use crate::actions::HistM;
use crate::actions::HistStateM;
use crate::actions::HistoryMove;
use crate::actions::HistoryState;
use crate::actions::HistoryUpdate;
use crate::actions::IndexedPreviousBoard;
use crate::actions::PreviousBoard;
use crate::bits::BitBoard;
use crate::bits::group_nth;
use crate::bits::nth;
use crate::pawn::ep_victim;
use crate::pawn::pawn_action_ok;
use crate::pawn::tr_pawn;
use crate::pieces::Piece;
use crate::state::BoardState;
use crate::state::GameModel;
use crate::state::StateModel;
use crate::state::advance_counters;
use crate::state::boards_view;
use crate::state::dp_mid;
use crate::state::dp_push;
use crate::state::dp_shape;
use crate::state::first_at;
use crate::state::first_board_at;
use crate::state::history_view;
use crate::state::lemma_boards_view_update;
use crate::state::lemma_history_view_push;
use crate::state::next_team_sp;
use crate::state::one_shl;
use crate::state::prev_team_sp;
use crate::state::retreat_counters;
use crate::state::tr_capture;
use crate::state::tr_normal;
use crate::state::tr_undo;
use crate::state::wf;
use crate::state::wf_base;

verus! {

/// The immutable configuration of a game: how many teams play, how many
/// turns make one sub-move, and which piece kinds exist (indices are piece
/// types).
pub struct Game {
    pub teams: u32,
    pub turns: u32,
    pub pieces: Vec<Piece>,
}

impl View for Game {
    type V = GameModel;

    open spec fn view(&self) -> GameModel {
        GameModel {
            teams: self.teams as int,
            turns: self.turns as int,
            pieces: self.pieces@,
        }
    }
}

/// Enough counter room to step backward once without underflow.
pub open spec fn can_retreat(g: GameModel, s: StateModel) -> bool {
    &&& s.turns >= 1
    &&& s.current_turn == 0 ==> {
        &&& s.sub_moves >= 1
        &&& prev_team_sp(g.teams, s.moving_team) == 0 ==> s.full_moves >= 1
    }
}

/// What `make_move` assumes of an action: the mover is the team to move, the
/// source square holds the mover's piece of the named kind, the destination
/// is on the board and not the mover's own, the counters have room to grow,
/// a double push of piece kind 0 is direction-consistent over an empty middle
/// square (the en-passant bookkeeping), and the pawn's tags are coherent.
pub open spec fn action_ok(g: GameModel, s: StateModel, a: Action) -> bool {
    &&& a.team as int == s.moving_team
    &&& (a.piece_type as int) < g.pieces.len()
    &&& a.from < s.squares
    &&& a.to < s.squares
    &&& a.from != a.to
    &&& nth(s.teams[a.team as int], a.from as u128)
    &&& nth(s.pieces[a.piece_type as int], a.from as u128)
    &&& !nth(s.teams[a.team as int], a.to as u128)
    &&& s.turns < 0xffff_ffff
    &&& s.sub_moves < 0xffff_ffff
    &&& s.full_moves < 0xffff_ffff
    &&& (g.teams == 2 && g.turns == 1 && a.piece_type == 0 && dp_shape(a, s.cols) && a.info < 2)
        ==> {
        &&& dp_push(a, s.cols)
        &&& !nth(s.all_pieces, dp_mid(a, s.cols) as u128)
    }
    &&& if g.pieces[a.piece_type as int] is Pawn {
        pawn_action_ok(g, s, a)
    } else {
        a.info == 0
    }
}

/// The boards and history after `a`, before the counters advance.
pub open spec fn tr_base(g: GameModel, s: StateModel, a: Action) -> StateModel {
    if g.pieces[a.piece_type as int] is Pawn {
        tr_pawn(s, a)
    } else if nth(s.all_pieces, a.to as u128) {
        tr_capture(s, a)
    } else {
        tr_normal(s, a)
    }
}

/// The whole state after `a` is applied.
pub open spec fn tr_make(g: GameModel, s: StateModel, a: Action) -> StateModel {
    advance_counters(g, tr_base(g, s, a))
}

impl Piece {
    /// Applies a quiet move as the default piece rules say: push a `Single`
    /// record, swap `from` for `to` on the mover's team and piece boards and
    /// on `all_pieces`, and clear the source square's first-move bit.
    pub fn make_normal_move(
        &self,
        state: &mut BoardState,
        action: &Action,
        piece_type: usize,
        from: BitBoard,
        to: BitBoard,
    )
        requires
            piece_type == action.piece_type,
            (action.team as int) < old(state)@.teams.len(),
            (piece_type as int) < old(state)@.pieces.len(),
            from.bits == one_shl(action.from as u128),
            to.bits == one_shl(action.to as u128),
            action.from < 128,
            action.to < 128,
        ensures
            final(state)@ == tr_normal(old(state)@, *action),
    {
        let color = action.team as usize;
        let team_prev = state.teams[color];
        let piece_prev = state.pieces[piece_type];
        state.history.push(
            HistoryMove {
                action: *action,
                state: HistoryState::Single {
                    team: IndexedPreviousBoard(color, team_prev),
                    piece: IndexedPreviousBoard(piece_type, piece_prev),
                    all_pieces: PreviousBoard(state.all_pieces),
                    first_move: PreviousBoard(state.first_move),
                },
            },
        );
        let team_new = team_prev.xor(&from).or(&to);
        let piece_new = piece_prev.xor(&from).or(&to);
        state.teams.set(color, team_new);
        state.pieces.set(piece_type, piece_new);
        state.all_pieces = state.all_pieces.xor(&from).or(&to);
        state.first_move = state.first_move.and_not(&from);
        proof {
            lemma_boards_view_update(old(state).teams@, color as int, team_new);
            lemma_boards_view_update(old(state).pieces@, piece_type as int, piece_new);
            lemma_history_view_push(
                old(state).history@,
                HistoryMove {
                    action: *action,
                    state: HistoryState::Single {
                        team: IndexedPreviousBoard(color, team_prev),
                        piece: IndexedPreviousBoard(piece_type, piece_prev),
                        all_pieces: PreviousBoard(old(state).all_pieces),
                        first_move: PreviousBoard(old(state).first_move),
                    },
                },
            );
            assert(state@ =~= tr_normal(old(state)@, *action));
        }
    }

    /// Applies a capture as the default piece rules say: find the captured
    /// team and piece kind on the destination, push an `Any` record of the
    /// four boards, remove the captured piece, move the mover, and clear both
    /// squares' first-move bits.
    pub fn make_capture_move(
        &self,
        state: &mut BoardState,
        action: &Action,
        piece_type: usize,
        from: BitBoard,
        to: BitBoard,
    )
        requires
            piece_type == action.piece_type,
            (action.team as int) < old(state)@.teams.len(),
            (piece_type as int) < old(state)@.pieces.len(),
            old(state)@.teams.len() > 0,
            old(state)@.pieces.len() > 0,
            from.bits == one_shl(action.from as u128),
            to.bits == one_shl(action.to as u128),
            action.from < 128,
            action.to < 128,
        ensures
            final(state)@ == tr_capture(old(state)@, *action),
    {
        let color = action.team as usize;
        let captured_color = first_board_at(&state.teams, action.to);
        let captured_piece_type = first_board_at(&state.pieces, action.to);
        let team_prev = state.teams[color];
        let cteam_prev = state.teams[captured_color];
        let piece_prev = state.pieces[piece_type];
        let cpiece_prev = state.pieces[captured_piece_type];
        let mut updates: Vec<HistoryUpdate> = Vec::new();
        updates.push(HistoryUpdate::Team(IndexedPreviousBoard(color, team_prev)));
        updates.push(HistoryUpdate::Team(IndexedPreviousBoard(captured_color, cteam_prev)));
        updates.push(HistoryUpdate::Piece(IndexedPreviousBoard(piece_type, piece_prev)));
        updates.push(
            HistoryUpdate::Piece(IndexedPreviousBoard(captured_piece_type, cpiece_prev)),
        );
        state.history.push(
            HistoryMove {
                action: *action,
                state: HistoryState::Any {
                    all_pieces: PreviousBoard(state.all_pieces),
                    first_move: PreviousBoard(state.first_move),
                    updates: updates,
                },
            },
        );
        let cteam_new = cteam_prev.xor(&to);
        state.teams.set(captured_color, cteam_new);
        let ghost teams_mid = state.teams@;
        let team_mid = state.teams[color];
        let team_new = team_mid.xor(&from).or(&to);
        state.teams.set(color, team_new);
        let cpiece_new = cpiece_prev.xor(&to);
        state.pieces.set(captured_piece_type, cpiece_new);
        let ghost pieces_mid = state.pieces@;
        let piece_mid = state.pieces[piece_type];
        let piece_new = piece_mid.xor(&from).or(&to);
        state.pieces.set(piece_type, piece_new);
        state.all_pieces = state.all_pieces.xor(&from);
        state.first_move = state.first_move.and_not(&from).and_not(&to);
        proof {
            lemma_boards_view_update(old(state).teams@, captured_color as int, cteam_new);
            lemma_boards_view_update(teams_mid, color as int, team_new);
            lemma_boards_view_update(old(state).pieces@, captured_piece_type as int, cpiece_new);
            lemma_boards_view_update(pieces_mid, piece_type as int, piece_new);
            assert(state@.teams =~= tr_capture(old(state)@, *action).teams);
            assert(state@.pieces =~= tr_capture(old(state)@, *action).pieces);
            assert(state@.history =~~= tr_capture(old(state)@, *action).history);
            assert(state@ =~= tr_capture(old(state)@, *action));
        }
    }
}


impl Piece {
    /// Applies `action`: a capture when the destination is occupied, else a
    /// quiet move (the pawn adds en passant and promotion), then advances the
    /// turn counters and, at the end of a sub-move, hands the turn to the
    /// next team.
    pub fn make_move(&self, state: &mut BoardState, game: &Game, action: &Action)
        requires
            wf(game@, old(state)@),
            action_ok(game@, old(state)@, *action),
            game@.pieces[action.piece_type as int] == *self,
        ensures
            final(state)@ == tr_make(game@, old(state)@, *action),
    {
        let from = BitBoard::from_lsb(action.from);
        let to = BitBoard::from_lsb(action.to);
        let piece_type = action.piece_type;
        if state.all_pieces.and(&to).is_set() {
            proof {
                crate::bits::lemma_and_one(old(state)@.all_pieces, action.to as u128);
                assert(nth(old(state)@.all_pieces, action.to as u128));
            }
            match *self {
                Piece::Pawn(p) => p.make_capture_move(state, action, piece_type, from, to),
                _ => self.make_capture_move(state, action, piece_type, from, to),
            }
        } else {
            proof {
                crate::bits::lemma_and_one(old(state)@.all_pieces, action.to as u128);
                assert(!nth(old(state)@.all_pieces, action.to as u128));
            }
            match *self {
                Piece::Pawn(p) => p.make_normal_move(state, action, piece_type, from, to),
                _ => self.make_normal_move(state, action, piece_type, from, to),
            }
        }
        proof {
            assert(state@ == tr_base(game@, old(state)@, *action));
        }
        state.current_turn = state.current_turn + 1;
        state.turns = state.turns + 1;
        if state.current_turn >= game.turns {
            state.current_turn = 0;
            state.sub_moves = state.sub_moves + 1;
            if state.moving_team == 0 {
                state.full_moves = state.full_moves + 1;
            }
            state.moving_team = if state.moving_team + 1 >= game.teams {
                0
            } else {
                state.moving_team + 1
            };
        }
        proof {
            assert(state@ =~= tr_make(game@, old(state)@, *action));
        }
    }

    /// Undoes what `history_move` recorded: steps the counters back one turn
    /// and writes the stored boards back.
    pub fn undo_move(&self, state: &mut BoardState, game: &Game, history_move: HistoryMove)
        requires
            game@.turns >= 1,
            game@.teams >= 1,
            old(state)@.teams.len() == game@.teams,
            old(state)@.pieces.len() == game@.pieces.len(),
            0 <= old(state)@.current_turn < game@.turns,
            0 <= old(state)@.moving_team < game@.teams,
            can_retreat(game@, old(state)@),
            crate::state::entry_ok(game@, history_move@),
        ensures
            final(state)@ == crate::state::restore_boards(
                retreat_counters(game@, old(state)@),
                history_move@,
            ),
    {
        let ghost hm = history_move@;
        state.turns = state.turns - 1;
        if state.current_turn == 0 {
            state.moving_team = if state.moving_team == 0 {
                game.teams - 1
            } else {
                state.moving_team - 1
            };
            state.current_turn = game.turns - 1;
            state.sub_moves = state.sub_moves - 1;
            if state.moving_team == 0 {
                state.full_moves = state.full_moves - 1;
            }
        } else {
            state.current_turn = state.current_turn - 1;
        }
        let ghost retreated = retreat_counters(game@, old(state)@);
        proof {
            assert(state@ =~= retreated);
        }
        match history_move.state {
            HistoryState::Single { team, piece, all_pieces, first_move } => {
                state.all_pieces = all_pieces.0;
                state.first_move = first_move.0;
                let ghost s_mid = state@;
                state.teams.set(team.0, team.1);
                let ghost teams_mid = state.teams@;
                state.pieces.set(piece.0, piece.1);
                proof {
                    lemma_boards_view_update(old(state).teams@, team.0 as int, team.1);
                    lemma_boards_view_update(old(state).pieces@, piece.0 as int, piece.1);
                    assert(state@ =~= crate::state::restore_boards(retreated, hm));
                }
            },
            HistoryState::Any { all_pieces, first_move, updates } => {
                state.all_pieces = all_pieces.0;
                state.first_move = first_move.0;
                let ghost target = crate::state::restore_boards(retreated, hm);
                proof {
                    assert(hm.state matches HistStateM::Any { updates: u, .. } && u == updates@);
                    assert(updates@.skip(0) =~= updates@);
                    assert(state@ =~= (StateModel {
                        all_pieces: all_pieces.0.bits,
                        first_move: first_move.0.bits,
                        ..retreated
                    }));
                }
                let mut i: usize = 0;
                while i < updates.len()
                    invariant
                        i <= updates@.len(),
                        state@.teams.len() == old(state)@.teams.len(),
                        state@.pieces.len() == old(state)@.pieces.len(),
                        forall|k: int|
                            0 <= k < updates@.len() ==> match #[trigger] updates@[k] {
                                HistoryUpdate::Team(ib) => (ib.0 as int) < state@.teams.len(),
                                HistoryUpdate::Piece(ib) => (ib.0 as int) < state@.pieces.len(),
                            },
                        target == crate::state::apply_updates(state@, updates@.skip(i as int)),
                    decreases updates@.len() - i,
                {
                    let ghost pre = state@;
                    let ghost teams_pre = state.teams@;
                    let ghost pieces_pre = state.pieces@;
                    match updates[i] {
                        HistoryUpdate::Team(ib) => {
                            state.teams.set(ib.0, ib.1);
                            proof {
                                lemma_boards_view_update(teams_pre, ib.0 as int, ib.1);
                            }
                        },
                        HistoryUpdate::Piece(ib) => {
                            state.pieces.set(ib.0, ib.1);
                            proof {
                                lemma_boards_view_update(pieces_pre, ib.0 as int, ib.1);
                            }
                        },
                    }
                    proof {
                        assert(state@ =~= crate::state::apply_update(pre, updates@[i as int]));
                        assert(updates@.skip(i as int).drop_first() =~= updates@.skip(
                            i as int + 1,
                        ));
                        assert(updates@.skip(i as int)[0] == updates@[i as int]);
                    }
                    i = i + 1;
                }
                proof {
                    assert(updates@.skip(i as int) =~= Seq::<HistoryUpdate>::empty());
                    assert(state@ =~= target);
                }
            },
            HistoryState::Marker => {
                proof {
                    assert(state@ =~= crate::state::restore_boards(retreated, hm));
                }
            },
        }
    }
}


/// Moving one piece of family member `c` from an occupied square to a square
/// empty in the whole family keeps the family pairwise disjoint and keeps the
/// union exact.
pub proof fn lemma_family_move(parts: Seq<u128>, all: u128, c: int, from: u128, to: u128)
    requires
        crate::state::pairwise_disjoint(parts),
        crate::state::covers(all, parts),
        0 <= c < parts.len(),
        from < 128,
        to < 128,
        from != to,
        nth(parts[c], from),
        !nth(all, to),
    ensures
        crate::state::pairwise_disjoint(
            parts.update(c, (parts[c] ^ one_shl(from)) | one_shl(to)),
        ),
        crate::state::covers(
            (all ^ one_shl(from)) | one_shl(to),
            parts.update(c, (parts[c] ^ one_shl(from)) | one_shl(to)),
        ),
{
    broadcast use crate::bits::group_nth;

    let f = one_shl(from);
    let t = one_shl(to);
    let newc = (parts[c] ^ f) | t;
    let parts2 = parts.update(c, newc);
    let all2 = (all ^ f) | t;
    assert(nth(all, from));
    assert forall|k: int| 0 <= k < parts.len() implies !nth(#[trigger] parts[k], to) by {
        if nth(parts[k], to) {
            assert(nth(all, to));
        }
    }
    assert forall|i: u128| !(nth(newc, i) && i != from && !nth(parts[c], i) && i != to) by {}
    assert forall|j: int, k: int|
        0 <= j < k < parts2.len() implies crate::state::disjoint(
        #[trigger] parts2[j],
        #[trigger] parts2[k],
    ) by {
        assert(crate::state::disjoint(parts[j], parts[k]));
        if j == c {
            assert forall|i: u128| !(nth(parts2[j], i) && nth(parts2[k], i)) by {
                if nth(parts2[k], i) {
                    assert(parts2[k] == parts[k]);
                    assert(!nth(parts[c], i));
                    assert(i != to);
                }
            }
        } else if k == c {
            assert forall|i: u128| !(nth(parts2[j], i) && nth(parts2[k], i)) by {
                if nth(parts2[j], i) {
                    assert(parts2[j] == parts[j]);
                    assert(!nth(parts[c], i));
                    assert(i != to);
                }
            }
        } else {
        }
    }
    assert forall|i: u128| #[trigger] nth(all2, i) <==> exists|k: int|
        0 <= k < parts2.len() && nth(#[trigger] parts2[k], i) by {
        if i == to {
            assert(nth(all2, i));
            assert(nth(parts2[c], i));
        } else if i == from {
            assert(!nth(all2, i));
            assert forall|k: int| 0 <= k < parts2.len() implies !nth(#[trigger] parts2[k], i) by {
                if k != c {
                    assert(crate::state::disjoint(parts[if k < c {
                        k
                    } else {
                        c
                    }], parts[if k < c {
                        c
                    } else {
                        k
                    }]));
                }
            }
        } else {
            assert(nth(all2, i) == nth(all, i));
            if nth(all, i) {
                let k0 = choose|k: int| 0 <= k < parts.len() && nth(#[trigger] parts[k], i);
                assert(nth(parts2[k0], i));
            }
            if exists|k: int| 0 <= k < parts2.len() && nth(#[trigger] parts2[k], i) {
                let k0 = choose|k: int| 0 <= k < parts2.len() && nth(#[trigger] parts2[k], i);
                assert(nth(parts[k0], i));
                assert(nth(all, i));
            }
        }
    }
}


/// Capturing on `to` (removing it from the first board that holds it, then
/// moving `c`'s piece there) keeps the family pairwise disjoint and shrinks
/// the union by exactly the source square.
pub proof fn lemma_family_capture(parts: Seq<u128>, all: u128, c: int, from: u128, to: u128)
    requires
        crate::state::pairwise_disjoint(parts),
        crate::state::covers(all, parts),
        0 <= c < parts.len(),
        from < 128,
        to < 128,
        from != to,
        nth(parts[c], from),
        nth(all, to),
    ensures
        ({
            let cc = first_at(parts, to);
            let p1 = parts.update(cc, parts[cc] ^ one_shl(to));
            let parts2 = p1.update(c, (p1[c] ^ one_shl(from)) | one_shl(to));
            &&& 0 <= cc < parts.len()
            &&& nth(parts[cc], to)
            &&& crate::state::pairwise_disjoint(parts2)
            &&& crate::state::covers(all ^ one_shl(from), parts2)
        }),
{
    broadcast use crate::bits::group_nth;

    let f = one_shl(from);
    let t = one_shl(to);
    let cc = first_at(parts, to);
    crate::state::lemma_first_at_found(parts, to);
    let p1 = parts.update(cc, parts[cc] ^ t);
    let parts2 = p1.update(c, (p1[c] ^ f) | t);
    let all2 = all ^ f;
    assert(nth(all, from));
    assert forall|k: int| 0 <= k < parts.len() && k != cc implies !nth(#[trigger] parts[k], to) by {
        if k < cc {
            assert(crate::state::disjoint(parts[k], parts[cc]));
        } else {
            assert(crate::state::disjoint(parts[cc], parts[k]));
        }
    }
    assert forall|k: int| 0 <= k < parts.len() && k != c implies !nth(#[trigger] parts[k], from) by {
        if k < c {
            assert(crate::state::disjoint(parts[k], parts[c]));
        } else {
            assert(crate::state::disjoint(parts[c], parts[k]));
        }
    }
    assert forall|j: int, k: int|
        0 <= j < k < parts2.len() implies crate::state::disjoint(
        #[trigger] parts2[j],
        #[trigger] parts2[k],
    ) by {
        assert(crate::state::disjoint(parts[j], parts[k]));
        assert forall|i: u128| !(nth(parts2[j], i) && nth(parts2[k], i)) by {
            if nth(parts2[j], i) && nth(parts2[k], i) {
                if j == c {
                    assert(i == to || nth(parts[c], i));
                    assert(nth(parts[k], i) || (k == cc && nth(parts[cc], i)));
                } else if k == c {
                    assert(i == to || nth(parts[c], i));
                    assert(nth(parts[j], i) || (j == cc && nth(parts[cc], i)));
                } else {
                    assert(nth(parts[j], i) && nth(parts[k], i));
                }
            }
        }
    }
    assert forall|i: u128| #[trigger] nth(all2, i) <==> exists|k: int|
        0 <= k < parts2.len() && nth(#[trigger] parts2[k], i) by {
        if i == to {
            assert(nth(all2, i));
            assert(nth(parts2[c], i));
        } else if i == from {
            assert(!nth(all2, i));
            assert forall|k: int| 0 <= k < parts2.len() implies !nth(#[trigger] parts2[k], i) by {}
        } else {
            assert(nth(all2, i) == nth(all, i));
            if nth(all, i) {
                let k0 = choose|k: int| 0 <= k < parts.len() && nth(#[trigger] parts[k], i);
                assert(nth(parts2[k0], i));
            }
            if exists|k: int| 0 <= k < parts2.len() && nth(#[trigger] parts2[k], i) {
                let k0 = choose|k: int| 0 <= k < parts2.len() && nth(#[trigger] parts2[k], i);
                assert(nth(parts[k0], i));
                assert(nth(all, i));
            }
        }
    }
}

/// A capture that promotes: the pawn leaves `from`, the captured piece kind
/// loses `to`, and the promoted kind gains it.
pub proof fn lemma_family_capture_promo(
    parts: Seq<u128>,
    all: u128,
    c: int,
    promo: int,
    from: u128,
    to: u128,
)
    requires
        crate::state::pairwise_disjoint(parts),
        crate::state::covers(all, parts),
        0 <= c < parts.len(),
        0 <= promo < parts.len(),
        promo != c,
        from < 128,
        to < 128,
        from != to,
        nth(parts[c], from),
        nth(all, to),
    ensures
        ({
            let cc = first_at(parts, to);
            let p1 = parts.update(cc, parts[cc] ^ one_shl(to));
            let p2 = p1.update(c, p1[c] ^ one_shl(from));
            let parts2 = p2.update(promo, p2[promo] | one_shl(to));
            &&& 0 <= cc < parts.len()
            &&& nth(parts[cc], to)
            &&& crate::state::pairwise_disjoint(parts2)
            &&& crate::state::covers(all ^ one_shl(from), parts2)
        }),
{
    broadcast use crate::bits::group_nth;

    let f = one_shl(from);
    let t = one_shl(to);
    let cc = first_at(parts, to);
    crate::state::lemma_first_at_found(parts, to);
    let p1 = parts.update(cc, parts[cc] ^ t);
    let p2 = p1.update(c, p1[c] ^ f);
    let parts2 = p2.update(promo, p2[promo] | t);
    let all2 = all ^ f;
    assert(nth(all, from));
    assert forall|k: int| 0 <= k < parts.len() && k != cc implies !nth(#[trigger] parts[k], to) by {
        if k < cc {
            assert(crate::state::disjoint(parts[k], parts[cc]));
        } else {
            assert(crate::state::disjoint(parts[cc], parts[k]));
        }
    }
    assert forall|k: int| 0 <= k < parts.len() && k != c implies !nth(#[trigger] parts[k], from) by {
        if k < c {
            assert(crate::state::disjoint(parts[k], parts[c]));
        } else {
            assert(crate::state::disjoint(parts[c], parts[k]));
        }
    }
    assert forall|j: int, k: int|
        0 <= j < k < parts2.len() implies crate::state::disjoint(
        #[trigger] parts2[j],
        #[trigger] parts2[k],
    ) by {
        assert(crate::state::disjoint(parts[j], parts[k]));
        assert forall|i: u128| !(nth(parts2[j], i) && nth(parts2[k], i)) by {
            if nth(parts2[j], i) && nth(parts2[k], i) {
                if i == to {
                    assert(parts2[promo] == p2[promo] | t);
                    assert(j == promo || (nth(p2[j], i) && j != cc && nth(parts[j], i)));
                    assert(k == promo || (nth(p2[k], i) && k != cc && nth(parts[k], i)));
                    assert(j != promo && k != promo ==> false);
                    assert(j == promo ==> nth(parts[k], to) && k != cc && false);
                    assert(k == promo ==> nth(parts[j], to) && j != cc && false);
                } else {
                    assert(nth(parts[j], i) && nth(parts[k], i));
                }
            }
        }
    }
    assert forall|i: u128| #[trigger] nth(all2, i) <==> exists|k: int|
        0 <= k < parts2.len() && nth(#[trigger] parts2[k], i) by {
        if i == to {
            assert(nth(all2, i));
            assert(nth(parts2[promo], i));
        } else if i == from {
            assert(!nth(all2, i));
            assert forall|k: int| 0 <= k < parts2.len() implies !nth(#[trigger] parts2[k], i) by {}
        } else {
            assert(nth(all2, i) == nth(all, i));
            if nth(all, i) {
                let k0 = choose|k: int| 0 <= k < parts.len() && nth(#[trigger] parts[k], i);
                assert(nth(parts2[k0], i));
            }
            if exists|k: int| 0 <= k < parts2.len() && nth(#[trigger] parts2[k], i) {
                let k0 = choose|k: int| 0 <= k < parts2.len() && nth(#[trigger] parts2[k], i);
                assert(nth(parts[k0], i));
                assert(nth(all, i));
            }
        }
    }
}

/// A quiet promotion: the pawn board loses `from` and the promoted kind
/// gains the empty square `to`.
pub proof fn lemma_family_promo(
    parts: Seq<u128>,
    all: u128,
    c: int,
    promo: int,
    from: u128,
    to: u128,
)
    requires
        crate::state::pairwise_disjoint(parts),
        crate::state::covers(all, parts),
        0 <= c < parts.len(),
        0 <= promo < parts.len(),
        promo != c,
        from < 128,
        to < 128,
        from != to,
        nth(parts[c], from),
        !nth(all, to),
    ensures
        ({
            let p1 = parts.update(promo, parts[promo] | one_shl(to));
            let parts2 = p1.update(c, p1[c] ^ one_shl(from));
            &&& crate::state::pairwise_disjoint(parts2)
            &&& crate::state::covers((all ^ one_shl(from)) | one_shl(to), parts2)
        }),
{
    broadcast use crate::bits::group_nth;

    let f = one_shl(from);
    let t = one_shl(to);
    let p1 = parts.update(promo, parts[promo] | t);
    let parts2 = p1.update(c, p1[c] ^ f);
    let all2 = (all ^ f) | t;
    assert(nth(all, from));
    assert forall|k: int| 0 <= k < parts.len() implies !nth(#[trigger] parts[k], to) by {
        if nth(parts[k], to) {
            assert(nth(all, to));
        }
    }
    assert forall|k: int| 0 <= k < parts.len() && k != c implies !nth(#[trigger] parts[k], from) by {
        if k < c {
            assert(crate::state::disjoint(parts[k], parts[c]));
        } else {
            assert(crate::state::disjoint(parts[c], parts[k]));
        }
    }
    assert forall|j: int, k: int|
        0 <= j < k < parts2.len() implies crate::state::disjoint(
        #[trigger] parts2[j],
        #[trigger] parts2[k],
    ) by {
        assert(crate::state::disjoint(parts[j], parts[k]));
        assert forall|i: u128| !(nth(parts2[j], i) && nth(parts2[k], i)) by {
            if nth(parts2[j], i) && nth(parts2[k], i) {
                if i == to {
                    assert(j == promo || nth(parts[j], i));
                    assert(k == promo || nth(parts[k], i));
                } else {
                    assert(nth(parts[j], i) && nth(parts[k], i));
                }
            }
        }
    }
    assert forall|i: u128| #[trigger] nth(all2, i) <==> exists|k: int|
        0 <= k < parts2.len() && nth(#[trigger] parts2[k], i) by {
        if i == to {
            assert(nth(all2, i));
            assert(nth(parts2[promo], i));
        } else if i == from {
            assert(!nth(all2, i));
            assert forall|k: int| 0 <= k < parts2.len() implies !nth(#[trigger] parts2[k], i) by {}
        } else {
            assert(nth(all2, i) == nth(all, i));
            if nth(all, i) {
                let k0 = choose|k: int| 0 <= k < parts.len() && nth(#[trigger] parts[k], i);
                assert(nth(parts2[k0], i));
            }
            if exists|k: int| 0 <= k < parts2.len() && nth(#[trigger] parts2[k], i) {
                let k0 = choose|k: int| 0 <= k < parts2.len() && nth(#[trigger] parts2[k], i);
                assert(nth(parts[k0], i));
                assert(nth(all, i));
            }
        }
    }
}

/// An en-passant move of family member `c` against the first board holding
/// the victim square `e`: `c` swaps `from` for the empty `to`, the victim's
/// board loses `e`.
pub proof fn lemma_family_ep_teams(
    parts: Seq<u128>,
    all: u128,
    c: int,
    from: u128,
    to: u128,
    e: u128,
)
    requires
        crate::state::pairwise_disjoint(parts),
        crate::state::covers(all, parts),
        0 <= c < parts.len(),
        from < 128,
        to < 128,
        e < 128,
        from != to,
        e != from,
        e != to,
        nth(parts[c], from),
        !nth(parts[c], e),
        nth(all, e),
        !nth(all, to),
    ensures
        ({
            let ec = first_at(parts, e);
            let t1 = parts.update(c, (parts[c] ^ one_shl(from)) | one_shl(to));
            let parts2 = t1.update(ec, t1[ec] ^ one_shl(e));
            &&& 0 <= ec < parts.len()
            &&& ec != c
            &&& nth(parts[ec], e)
            &&& crate::state::pairwise_disjoint(parts2)
            &&& crate::state::covers(((all ^ one_shl(from)) ^ one_shl(e)) | one_shl(to), parts2)
        }),
{
    broadcast use crate::bits::group_nth;

    let f = one_shl(from);
    let t = one_shl(to);
    let eb = one_shl(e);
    let ec = first_at(parts, e);
    crate::state::lemma_first_at_found(parts, e);
    let t1 = parts.update(c, (parts[c] ^ f) | t);
    let parts2 = t1.update(ec, t1[ec] ^ eb);
    let all2 = ((all ^ f) ^ eb) | t;
    assert(nth(all, from));
    assert(ec != c);
    assert forall|k: int| 0 <= k < parts.len() && k != ec implies !nth(#[trigger] parts[k], e) by {
        if k < ec {
            assert(crate::state::disjoint(parts[k], parts[ec]));
        } else {
            assert(crate::state::disjoint(parts[ec], parts[k]));
        }
    }
    assert forall|k: int| 0 <= k < parts.len() && k != c implies !nth(#[trigger] parts[k], from) by {
        if k < c {
            assert(crate::state::disjoint(parts[k], parts[c]));
        } else {
            assert(crate::state::disjoint(parts[c], parts[k]));
        }
    }
    assert forall|k: int| 0 <= k < parts.len() implies !nth(#[trigger] parts[k], to) by {
        if nth(parts[k], to) {
            assert(nth(all, to));
        }
    }
    assert forall|j: int, k: int|
        0 <= j < k < parts2.len() implies crate::state::disjoint(
        #[trigger] parts2[j],
        #[trigger] parts2[k],
    ) by {
        assert(crate::state::disjoint(parts[j], parts[k]));
        assert forall|i: u128| !(nth(parts2[j], i) && nth(parts2[k], i)) by {
            if nth(parts2[j], i) && nth(parts2[k], i) {
                if i == to {
                    assert(j == c || nth(parts[j], i));
                    assert(k == c || nth(parts[k], i));
                } else {
                    assert(j == c ==> nth(parts[c], i));
                    assert(k == c ==> nth(parts[c], i));
                    assert(j != c ==> nth(parts[j], i));
                    assert(k != c ==> nth(parts[k], i));
                }
            }
        }
    }
    assert forall|i: u128| #[trigger] nth(all2, i) <==> exists|k: int|
        0 <= k < parts2.len() && nth(#[trigger] parts2[k], i) by {
        if i == to {
            assert(nth(all2, i));
            assert(nth(parts2[c], i));
        } else if i == from || i == e {
            assert(!nth(all2, i));
            assert forall|k: int| 0 <= k < parts2.len() implies !nth(#[trigger] parts2[k], i) by {}
        } else {
            assert(nth(all2, i) == nth(all, i));
            if nth(all, i) {
                let k0 = choose|k: int| 0 <= k < parts.len() && nth(#[trigger] parts[k], i);
                assert(nth(parts2[k0], i));
            }
            if exists|k: int| 0 <= k < parts2.len() && nth(#[trigger] parts2[k], i) {
                let k0 = choose|k: int| 0 <= k < parts2.len() && nth(#[trigger] parts2[k], i);
                assert(nth(parts[k0], i));
                assert(nth(all, i));
            }
        }
    }
}

/// The pawn-board half of an en passant: one board loses `from` and the
/// victim square `e` and gains the empty `to`; the other boards are
/// untouched.
pub proof fn lemma_family_ep_piece(
    parts: Seq<u128>,
    all: u128,
    c: int,
    from: u128,
    to: u128,
    e: u128,
)
    requires
        crate::state::pairwise_disjoint(parts),
        crate::state::covers(all, parts),
        0 <= c < parts.len(),
        from < 128,
        to < 128,
        e < 128,
        from != to,
        e != from,
        e != to,
        nth(parts[c], from),
        nth(parts[c], e),
        !nth(all, to),
    ensures
        ({
            let parts2 = parts.update(c, ((parts[c] ^ one_shl(from)) ^ one_shl(e)) | one_shl(to));
            &&& crate::state::pairwise_disjoint(parts2)
            &&& crate::state::covers(((all ^ one_shl(from)) ^ one_shl(e)) | one_shl(to), parts2)
        }),
{
    broadcast use crate::bits::group_nth;

    let f = one_shl(from);
    let t = one_shl(to);
    let eb = one_shl(e);
    let parts2 = parts.update(c, ((parts[c] ^ f) ^ eb) | t);
    let all2 = ((all ^ f) ^ eb) | t;
    assert(nth(all, from));
    assert(nth(all, e));
    assert forall|k: int| 0 <= k < parts.len() && k != c implies (!nth(#[trigger] parts[k], from)
        && !nth(parts[k], e)) by {
        if k < c {
            assert(crate::state::disjoint(parts[k], parts[c]));
        } else {
            assert(crate::state::disjoint(parts[c], parts[k]));
        }
    }
    assert forall|k: int| 0 <= k < parts.len() implies !nth(#[trigger] parts[k], to) by {
        if nth(parts[k], to) {
            assert(nth(all, to));
        }
    }
    assert forall|j: int, k: int|
        0 <= j < k < parts2.len() implies crate::state::disjoint(
        #[trigger] parts2[j],
        #[trigger] parts2[k],
    ) by {
        assert(crate::state::disjoint(parts[j], parts[k]));
        assert forall|i: u128| !(nth(parts2[j], i) && nth(parts2[k], i)) by {
            if nth(parts2[j], i) && nth(parts2[k], i) {
                if i == to {
                    assert(j == c || nth(parts[j], i));
                    assert(k == c || nth(parts[k], i));
                } else {
                    assert(j == c ==> nth(parts[c], i));
                    assert(k == c ==> nth(parts[c], i));
                    assert(j != c ==> nth(parts[j], i));
                    assert(k != c ==> nth(parts[k], i));
                }
            }
        }
    }
    assert forall|i: u128| #[trigger] nth(all2, i) <==> exists|k: int|
        0 <= k < parts2.len() && nth(#[trigger] parts2[k], i) by {
        if i == to {
            assert(nth(all2, i));
            assert(nth(parts2[c], i));
        } else if i == from || i == e {
            assert(!nth(all2, i));
            assert forall|k: int| 0 <= k < parts2.len() implies !nth(#[trigger] parts2[k], i) by {}
        } else {
            assert(nth(all2, i) == nth(all, i));
            if nth(all, i) {
                let k0 = choose|k: int| 0 <= k < parts.len() && nth(#[trigger] parts[k], i);
                assert(nth(parts2[k0], i));
            }
            if exists|k: int| 0 <= k < parts2.len() && nth(#[trigger] parts2[k], i) {
                let k0 = choose|k: int| 0 <= k < parts2.len() && nth(#[trigger] parts2[k], i);
                assert(nth(parts[k0], i));
                assert(nth(all, i));
            }
        }
    }
}


/// Stepping the counters forward then backward is the identity, and a state
/// whose counters just advanced can always retreat.
pub proof fn lemma_advance_retreat(g: GameModel, s: StateModel)
    requires
        g.turns >= 1,
        g.teams >= 1,
        0 <= s.current_turn < g.turns,
        0 <= s.moving_team < g.teams,
        s.turns >= 0,
        s.sub_moves >= 0,
        s.full_moves >= 0,
    ensures
        retreat_counters(g, advance_counters(g, s)) =~= s,
        can_retreat(g, advance_counters(g, s)),
        0 <= advance_counters(g, s).current_turn < g.turns,
        0 <= advance_counters(g, s).moving_team < g.teams,
        advance_counters(g, s).turns == s.turns + 1,
{
}

/// Unfolds `apply_updates` over a three-element record.
pub proof fn lemma_apply_updates3(
    s: StateModel,
    u0: HistoryUpdate,
    u1: HistoryUpdate,
    u2: HistoryUpdate,
)
    ensures
        crate::state::apply_updates(s, seq![u0, u1, u2]) == crate::state::apply_update(
            crate::state::apply_update(crate::state::apply_update(s, u0), u1),
            u2,
        ),
{
    let ups = seq![u0, u1, u2];
    let x1 = crate::state::apply_update(s, u0);
    let x2 = crate::state::apply_update(x1, u1);
    let x3 = crate::state::apply_update(x2, u2);
    assert(ups[0] == u0);
    assert(ups.drop_first() =~= seq![u1, u2]);
    assert(crate::state::apply_updates(s, ups) == crate::state::apply_updates(x1, seq![u1, u2]));
    assert(seq![u1, u2][0] == u1);
    assert(seq![u1, u2].drop_first() =~= seq![u2]);
    assert(crate::state::apply_updates(x1, seq![u1, u2]) == crate::state::apply_updates(
        x2,
        seq![u2],
    ));
    assert(seq![u2][0] == u2);
    assert(seq![u2].drop_first() =~= Seq::<HistoryUpdate>::empty());
    assert(crate::state::apply_updates(x2, seq![u2]) == crate::state::apply_updates(
        x3,
        Seq::<HistoryUpdate>::empty(),
    ));
    assert(crate::state::apply_updates(x3, Seq::<HistoryUpdate>::empty()) == x3);
}

/// Unfolds `apply_updates` over a four-element record.
pub proof fn lemma_apply_updates4(
    s: StateModel,
    u0: HistoryUpdate,
    u1: HistoryUpdate,
    u2: HistoryUpdate,
    u3: HistoryUpdate,
)
    ensures
        crate::state::apply_updates(s, seq![u0, u1, u2, u3]) == crate::state::apply_update(
            crate::state::apply_update(
                crate::state::apply_update(crate::state::apply_update(s, u0), u1),
                u2,
            ),
            u3,
        ),
{
    let ups = seq![u0, u1, u2, u3];
    assert(ups.drop_first() =~= seq![u1, u2, u3]);
    lemma_apply_updates3(crate::state::apply_update(s, u0), u1, u2, u3);
}

/// Unfolds `apply_updates` over a five-element record.
pub proof fn lemma_apply_updates5(
    s: StateModel,
    u0: HistoryUpdate,
    u1: HistoryUpdate,
    u2: HistoryUpdate,
    u3: HistoryUpdate,
    u4: HistoryUpdate,
)
    ensures
        crate::state::apply_updates(s, seq![u0, u1, u2, u3, u4]) == crate::state::apply_update(
            crate::state::apply_update(
                crate::state::apply_update(
                    crate::state::apply_update(crate::state::apply_update(s, u0), u1),
                    u2,
                ),
                u3,
            ),
            u4,
        ),
{
    let ups = seq![u0, u1, u2, u3, u4];
    assert(ups.drop_first() =~= seq![u1, u2, u3, u4]);
    lemma_apply_updates4(crate::state::apply_update(s, u0), u1, u2, u3, u4);
}


/// A quiet move from a well-formed state yields a well-formed state, and
/// undoing it restores the state exactly.
pub proof fn lemma_make_wf_normal(g: GameModel, s: StateModel, a: Action)
    requires
        wf_base(g, s),
        action_ok(g, s, a),
        !nth(s.all_pieces, a.to as u128),
        tr_base(g, s, a) == tr_normal(s, a),
    ensures
        wf_base(g, tr_make(g, s, a)),
        crate::state::entry_ok(g, tr_make(g, s, a).history.last()),
        tr_make(g, s, a).history.len() == s.history.len() + 1,
        tr_undo(g, tr_make(g, s, a)) == s,
        can_retreat(g, tr_make(g, s, a)),
    {
    broadcast use crate::bits::group_nth;

    let from = a.from as u128;
    let to = a.to as u128;
    let f = one_shl(from);
    let t = one_shl(to);
    let c = a.team as int;
    let pt = a.piece_type as int;
    let s1 = tr_normal(s, a);
    let s2 = tr_make(g, s, a);
    assert(nth(s.all_pieces, from));
    lemma_family_move(s.teams, s.all_pieces, c, from, to);
    lemma_family_move(s.pieces, s.all_pieces, pt, from, to);
    // first-move mask stays within the occupied squares, which stay on board
    assert forall|i: u128| nth(s1.first_move, i) implies nth(s1.all_pieces, i) by {
        assert(nth(s.first_move, i) && i != from);
        assert(nth(s.all_pieces, i));
    }
    assert forall|i: u128| nth(s1.all_pieces, i) implies i < s1.squares by {
        if i != to {
            assert(nth(s.all_pieces, i));
        }
    }
    // counters advance within range and can step back
    lemma_advance_retreat(g, StateModel { history: s.history, ..s1 });
    // the en-passant bookkeeping after the move
    assert(crate::state::ep_sync(g, s2)) by {
        let h = s2.history.last();
        assert(h.action == a);
        if g.teams == 2 && g.turns == 1 && a.piece_type == 0 && a.info < 2 && dp_shape(a, s2.cols) {
            let mid = dp_mid(a, s2.cols);
            assert(dp_push(a, s.cols));
            assert(!nth(s.all_pieces, mid as u128));
            assert(mid != a.from && mid != a.to);
            assert(s2.moving_team == next_team_sp(g.teams, s.moving_team));
            assert(next_team_sp(g.teams, s2.moving_team) == a.team as int);
            assert(nth(s2.teams[a.team as int], to));
            assert(nth(s2.pieces[0], to));
            assert(!nth(s2.all_pieces, mid as u128));
        }
    }
    // undoing restores the old state exactly
    let h = s1.history.last();
    assert(s1.history =~= s.history.push(h));
    assert(s2.history.drop_last() =~= s.history);
    let popped = StateModel { history: s.history, ..s2 };
    let y = StateModel { history: s.history, ..s1 };
    assert(popped =~= advance_counters(g, y));
    assert(retreat_counters(g, popped) =~= y) by {
        lemma_advance_retreat(g, y);
    }
    assert(StateModel { history: s2.history.drop_last(), ..s2 } =~= popped);
    assert(crate::state::restore_boards(y, h) =~= s);
    assert(tr_undo(g, s2) == crate::state::restore_boards(retreat_counters(g, popped), h));
    assert(tr_undo(g, s2) =~= s);
}


/// A plain capture from a well-formed state yields a well-formed state, and
/// undoing it restores the state exactly.
pub proof fn lemma_make_wf_capture(g: GameModel, s: StateModel, a: Action)
    requires
        wf_base(g, s),
        action_ok(g, s, a),
        s.teams.len() <= usize::MAX,
        s.pieces.len() <= usize::MAX,
        nth(s.all_pieces, a.to as u128),
        tr_base(g, s, a) == tr_capture(s, a),
    ensures
        wf_base(g, tr_make(g, s, a)),
        crate::state::entry_ok(g, tr_make(g, s, a).history.last()),
        tr_make(g, s, a).history.len() == s.history.len() + 1,
        tr_undo(g, tr_make(g, s, a)) == s,
        can_retreat(g, tr_make(g, s, a)),
{
    broadcast use crate::bits::group_nth;

    let from = a.from as u128;
    let to = a.to as u128;
    let f = one_shl(from);
    let t = one_shl(to);
    let c = a.team as int;
    let pt = a.piece_type as int;
    let s1 = tr_capture(s, a);
    let s2 = tr_make(g, s, a);
    let cc = first_at(s.teams, to);
    let cpt = first_at(s.pieces, to);
    assert(nth(s.all_pieces, from));
    lemma_family_capture(s.teams, s.all_pieces, c, from, to);
    lemma_family_capture(s.pieces, s.all_pieces, pt, from, to);
    assert(cc != c);
    assert forall|i: u128| nth(s1.first_move, i) implies nth(s1.all_pieces, i) by {
        assert(nth(s.first_move, i) && i != from && i != to);
        assert(nth(s.all_pieces, i));
    }
    assert forall|i: u128| nth(s1.all_pieces, i) implies i < s1.squares by {
        assert(nth(s.all_pieces, i));
    }
    lemma_advance_retreat(g, StateModel { history: s.history, ..s1 });
    assert(crate::state::ep_sync(g, s2)) by {
        let h = s2.history.last();
        assert(h.action == a);
        if g.teams == 2 && g.turns == 1 && a.piece_type == 0 && a.info < 2 && dp_shape(a, s2.cols) {
            let mid = dp_mid(a, s2.cols);
            assert(dp_push(a, s.cols));
            assert(!nth(s.all_pieces, mid as u128));
            assert(mid != a.from && mid != a.to);
            assert(next_team_sp(g.teams, s2.moving_team) == a.team as int);
            assert(nth(s2.teams[a.team as int], to));
            assert(nth(s2.pieces[0], to));
            assert(!nth(s2.all_pieces, mid as u128));
        }
    }
    let h = s1.history.last();
    assert(s1.history =~= s.history.push(h));
    assert(s2.history.drop_last() =~= s.history);
    let popped = StateModel { history: s.history, ..s2 };
    let y = StateModel { history: s.history, ..s1 };
    assert(popped =~= advance_counters(g, y));
    assert(retreat_counters(g, popped) =~= y) by {
        lemma_advance_retreat(g, y);
    }
    assert(StateModel { history: s2.history.drop_last(), ..s2 } =~= popped);
    let u0 = HistoryUpdate::Team(IndexedPreviousBoard(a.team as usize, BitBoard { bits: s.teams[c] }));
    let u1 = HistoryUpdate::Team(IndexedPreviousBoard(cc as usize, BitBoard { bits: s.teams[cc] }));
    let u2 = HistoryUpdate::Piece(IndexedPreviousBoard(a.piece_type, BitBoard { bits: s.pieces[pt] }));
    let u3 = HistoryUpdate::Piece(
        IndexedPreviousBoard(cpt as usize, BitBoard { bits: s.pieces[cpt] }),
    );
    assert(h.state matches HistStateM::Any { updates, .. } && updates =~= seq![u0, u1, u2, u3]);
    let y0 = StateModel { all_pieces: s.all_pieces, first_move: s.first_move, ..y };
    lemma_apply_updates4(y0, u0, u1, u2, u3);
    let x1 = crate::state::apply_update(y0, u0);
    let x2 = crate::state::apply_update(x1, u1);
    let x3 = crate::state::apply_update(x2, u2);
    let x4 = crate::state::apply_update(x3, u3);
    assert(0 <= c < y0.teams.len());
    assert(x1.teams =~= y0.teams.update(c, s.teams[c]));
    assert(x2.teams =~= x1.teams.update(cc, s.teams[cc]));
    assert(x2.teams =~= s.teams);
    assert(x3.pieces =~= y0.pieces.update(pt, s.pieces[pt]));
    assert(x4.pieces =~= x3.pieces.update(cpt, s.pieces[cpt]));
    assert(x4.pieces =~= s.pieces);
    assert(crate::state::restore_boards(y, h) == x4);
    assert(crate::state::restore_boards(y, h) =~= s);
    assert(tr_undo(g, s2) == crate::state::restore_boards(retreat_counters(g, popped), h));
    assert(tr_undo(g, s2) =~= s);
}


/// A pawn capture (promoting or not) from a well-formed state yields a
/// well-formed state, and undoing it restores the state exactly.
pub proof fn lemma_make_wf_pawn_capture(g: GameModel, s: StateModel, a: Action)
    requires
        wf_base(g, s),
        action_ok(g, s, a),
        s.teams.len() <= usize::MAX,
        s.pieces.len() <= usize::MAX,
        nth(s.all_pieces, a.to as u128),
        g.pieces[a.piece_type as int] is Pawn,
        tr_base(g, s, a) == crate::pawn::tr_pawn_capture(s, a),
    ensures
        wf_base(g, tr_make(g, s, a)),
        crate::state::entry_ok(g, tr_make(g, s, a).history.last()),
        tr_make(g, s, a).history.len() == s.history.len() + 1,
        tr_undo(g, tr_make(g, s, a)) == s,
        can_retreat(g, tr_make(g, s, a)),
{
    broadcast use crate::bits::group_nth;

    let from = a.from as u128;
    let to = a.to as u128;
    let f = one_shl(from);
    let t = one_shl(to);
    let c = a.team as int;
    let pt = a.piece_type as int;
    let s1 = crate::pawn::tr_pawn_capture(s, a);
    let s2 = tr_make(g, s, a);
    let cc = first_at(s.teams, to);
    let cpt = first_at(s.pieces, to);
    assert(nth(s.all_pieces, from));
    lemma_family_capture(s.teams, s.all_pieces, c, from, to);
    assert(cc != c);
    let p1 = s.pieces.update(cpt, s.pieces[cpt] ^ t);
    let p2 = p1.update(pt, p1[pt] ^ f);
    if a.info >= 2 {
        let promo = a.info - 2;
        lemma_family_capture_promo(s.pieces, s.all_pieces, pt, promo, from, to);
        assert(s1.pieces =~= p2.update(promo, p2[promo] | t));
    } else {
        lemma_family_capture(s.pieces, s.all_pieces, pt, from, to);
        assert(s1.pieces =~= p1.update(pt, (p1[pt] ^ f) | t));
        assert(crate::state::pairwise_disjoint(s1.pieces));
        assert(crate::state::covers(s.all_pieces ^ f, s1.pieces));
    }
    assert forall|i: u128| nth(s1.first_move, i) implies nth(s1.all_pieces, i) by {
        assert(nth(s.first_move, i) && i != from && i != to);
        assert(nth(s.all_pieces, i));
    }
    assert forall|i: u128| nth(s1.all_pieces, i) implies i < s1.squares by {
        assert(nth(s.all_pieces, i));
    }
    lemma_advance_retreat(g, StateModel { history: s.history, ..s1 });
    assert(crate::state::ep_sync(g, s2)) by {
        let h = s2.history.last();
        assert(h.action == a);
        if g.teams == 2 && g.turns == 1 && a.piece_type == 0 && a.info < 2 && dp_shape(a, s2.cols) {
            let mid = dp_mid(a, s2.cols);
            assert(dp_push(a, s.cols));
            assert(!nth(s.all_pieces, mid as u128));
            assert(mid != a.from && mid != a.to);
            assert(next_team_sp(g.teams, s2.moving_team) == a.team as int);
            assert(nth(s2.teams[a.team as int], to));
            assert(nth(s2.pieces[0], to));
            assert(!nth(s2.all_pieces, mid as u128));
        }
    }
    let h = s1.history.last();
    assert(s1.history =~= s.history.push(h));
    assert(s2.history.drop_last() =~= s.history);
    let popped = StateModel { history: s.history, ..s2 };
    let y = StateModel { history: s.history, ..s1 };
    assert(popped =~= advance_counters(g, y));
    assert(retreat_counters(g, popped) =~= y) by {
        lemma_advance_retreat(g, y);
    }
    assert(StateModel { history: s2.history.drop_last(), ..s2 } =~= popped);
    let u0 = HistoryUpdate::Team(IndexedPreviousBoard(a.team as usize, BitBoard { bits: s.teams[c] }));
    let u1 = HistoryUpdate::Team(IndexedPreviousBoard(cc as usize, BitBoard { bits: s.teams[cc] }));
    let u2 = HistoryUpdate::Piece(IndexedPreviousBoard(a.piece_type, BitBoard { bits: s.pieces[pt] }));
    let u3 = HistoryUpdate::Piece(
        IndexedPreviousBoard(cpt as usize, BitBoard { bits: s.pieces[cpt] }),
    );
    let y0 = StateModel { all_pieces: s.all_pieces, first_move: s.first_move, ..y };
    if a.info >= 2 {
        let promo = a.info - 2;
        let u4 = HistoryUpdate::Piece(
            IndexedPreviousBoard(promo as usize, BitBoard { bits: s.pieces[promo] }),
        );
        assert(h.state matches HistStateM::Any { updates, .. } && updates =~= seq![
            u0,
            u1,
            u2,
            u3,
            u4,
        ]);
        lemma_apply_updates5(y0, u0, u1, u2, u3, u4);
        let x1 = crate::state::apply_update(y0, u0);
        let x2 = crate::state::apply_update(x1, u1);
        let x3 = crate::state::apply_update(x2, u2);
        let x4 = crate::state::apply_update(x3, u3);
        let x5 = crate::state::apply_update(x4, u4);
        assert(x2.teams =~= s.teams);
        assert(x5.pieces =~= s.pieces);
        assert(crate::state::restore_boards(y, h) == x5);
        assert(crate::state::restore_boards(y, h) =~= s);
    } else {
        assert(h.state matches HistStateM::Any { updates, .. } && updates =~= seq![u0, u1, u2, u3]);
        lemma_apply_updates4(y0, u0, u1, u2, u3);
        let x1 = crate::state::apply_update(y0, u0);
        let x2 = crate::state::apply_update(x1, u1);
        let x3 = crate::state::apply_update(x2, u2);
        let x4 = crate::state::apply_update(x3, u3);
        assert(x2.teams =~= s.teams);
        assert(x4.pieces =~= s.pieces);
        assert(crate::state::restore_boards(y, h) == x4);
        assert(crate::state::restore_boards(y, h) =~= s);
    }
    assert(tr_undo(g, s2) == crate::state::restore_boards(retreat_counters(g, popped), h));
    assert(tr_undo(g, s2) =~= s);
}

/// An en-passant capture from a well-formed state yields a well-formed state,
/// and undoing it restores the state exactly.
pub proof fn lemma_make_wf_pawn_ep(g: GameModel, s: StateModel, a: Action)
    requires
        wf_base(g, s),
        action_ok(g, s, a),
        s.teams.len() <= usize::MAX,
        s.pieces.len() <= usize::MAX,
        !nth(s.all_pieces, a.to as u128),
        a.info == 1,
        g.pieces[a.piece_type as int] is Pawn,
        tr_base(g, s, a) == crate::pawn::tr_pawn_ep(s, a),
    ensures
        wf_base(g, tr_make(g, s, a)),
        crate::state::entry_ok(g, tr_make(g, s, a).history.last()),
        tr_make(g, s, a).history.len() == s.history.len() + 1,
        tr_undo(g, tr_make(g, s, a)) == s,
        can_retreat(g, tr_make(g, s, a)),
{
    broadcast use crate::bits::group_nth;

    let from = a.from as u128;
    let to = a.to as u128;
    let ev = ep_victim(a, s.cols);
    let e = ev as u128;
    let f = one_shl(from);
    let t = one_shl(to);
    let eb = one_shl(e);
    let c = a.team as int;
    let pt = a.piece_type as int;
    let s1 = crate::pawn::tr_pawn_ep(s, a);
    let s2 = tr_make(g, s, a);
    let ec = first_at(s.teams, e);
    assert(nth(s.all_pieces, from));
    assert(nth(s.pieces[pt], e));
    assert(!nth(s.teams[c], e));
    lemma_family_ep_teams(s.teams, s.all_pieces, c, from, to, e);
    lemma_family_ep_piece(s.pieces, s.all_pieces, pt, from, to, e);
    assert forall|i: u128| nth(s1.first_move, i) implies nth(s1.all_pieces, i) by {
        assert(nth(s.first_move, i) && i != from && i != e);
        assert(nth(s.all_pieces, i));
        assert(i != to);
    }
    assert forall|i: u128| nth(s1.all_pieces, i) implies i < s1.squares by {
        if i != to {
            assert(nth(s.all_pieces, i));
        }
    }
    lemma_advance_retreat(g, StateModel { history: s.history, ..s1 });
    assert(crate::state::ep_sync(g, s2)) by {
        let h = s2.history.last();
        assert(h.action == a);
        if g.teams == 2 && g.turns == 1 && a.piece_type == 0 && a.info < 2 && dp_shape(a, s2.cols) {
            let mid = dp_mid(a, s2.cols);
            assert(dp_push(a, s.cols));
            assert(!nth(s.all_pieces, mid as u128));
            assert(mid != a.from && mid != a.to);
            assert(next_team_sp(g.teams, s2.moving_team) == a.team as int);
            assert(nth(s2.teams[a.team as int], to));
            assert(nth(s2.pieces[0], to));
            assert(!nth(s2.all_pieces, mid as u128));
        }
    }
    let h = s1.history.last();
    assert(s1.history =~= s.history.push(h));
    assert(s2.history.drop_last() =~= s.history);
    let popped = StateModel { history: s.history, ..s2 };
    let y = StateModel { history: s.history, ..s1 };
    assert(popped =~= advance_counters(g, y));
    assert(retreat_counters(g, popped) =~= y) by {
        lemma_advance_retreat(g, y);
    }
    assert(StateModel { history: s2.history.drop_last(), ..s2 } =~= popped);
    let u0 = HistoryUpdate::Team(IndexedPreviousBoard(a.team as usize, BitBoard { bits: s.teams[c] }));
    let u1 = HistoryUpdate::Team(IndexedPreviousBoard(ec as usize, BitBoard { bits: s.teams[ec] }));
    let u2 = HistoryUpdate::Piece(IndexedPreviousBoard(a.piece_type, BitBoard { bits: s.pieces[pt] }));
    assert(h.state matches HistStateM::Any { updates, .. } && updates =~= seq![u0, u1, u2]);
    let y0 = StateModel { all_pieces: s.all_pieces, first_move: s.first_move, ..y };
    lemma_apply_updates3(y0, u0, u1, u2);
    let x1 = crate::state::apply_update(y0, u0);
    let x2 = crate::state::apply_update(x1, u1);
    let x3 = crate::state::apply_update(x2, u2);
    assert(x2.teams =~= s.teams);
    assert(x3.pieces =~= s.pieces);
    assert(crate::state::restore_boards(y, h) == x3);
    assert(crate::state::restore_boards(y, h) =~= s);
    assert(tr_undo(g, s2) == crate::state::restore_boards(retreat_counters(g, popped), h));
    assert(tr_undo(g, s2) =~= s);
}

/// A quiet promotion from a well-formed state yields a well-formed state, and
/// undoing it restores the state exactly.
pub proof fn lemma_make_wf_pawn_promo(g: GameModel, s: StateModel, a: Action)
    requires
        wf_base(g, s),
        action_ok(g, s, a),
        s.teams.len() <= usize::MAX,
        s.pieces.len() <= usize::MAX,
        !nth(s.all_pieces, a.to as u128),
        a.info >= 2,
        g.pieces[a.piece_type as int] is Pawn,
        tr_base(g, s, a) == crate::pawn::tr_pawn_promo(s, a),
    ensures
        wf_base(g, tr_make(g, s, a)),
        crate::state::entry_ok(g, tr_make(g, s, a).history.last()),
        tr_make(g, s, a).history.len() == s.history.len() + 1,
        tr_undo(g, tr_make(g, s, a)) == s,
        can_retreat(g, tr_make(g, s, a)),
{
    broadcast use crate::bits::group_nth;

    let from = a.from as u128;
    let to = a.to as u128;
    let f = one_shl(from);
    let t = one_shl(to);
    let c = a.team as int;
    let pt = a.piece_type as int;
    let promo = a.info - 2;
    let s1 = crate::pawn::tr_pawn_promo(s, a);
    let s2 = tr_make(g, s, a);
    assert(nth(s.all_pieces, from));
    lemma_family_move(s.teams, s.all_pieces, c, from, to);
    lemma_family_promo(s.pieces, s.all_pieces, pt, promo, from, to);
    assert forall|i: u128| nth(s1.first_move, i) implies nth(s1.all_pieces, i) by {
        assert(nth(s.first_move, i) && i != from);
        assert(nth(s.all_pieces, i));
    }
    assert forall|i: u128| nth(s1.all_pieces, i) implies i < s1.squares by {
        if i != to {
            assert(nth(s.all_pieces, i));
        }
    }
    lemma_advance_retreat(g, StateModel { history: s.history, ..s1 });
    assert(crate::state::ep_sync(g, s2)) by {
        let h = s2.history.last();
        assert(h.action == a);
        assert(a.info >= 2);
    }
    let h = s1.history.last();
    assert(s1.history =~= s.history.push(h));
    assert(s2.history.drop_last() =~= s.history);
    let popped = StateModel { history: s.history, ..s2 };
    let y = StateModel { history: s.history, ..s1 };
    assert(popped =~= advance_counters(g, y));
    assert(retreat_counters(g, popped) =~= y) by {
        lemma_advance_retreat(g, y);
    }
    assert(StateModel { history: s2.history.drop_last(), ..s2 } =~= popped);
    let u0 = HistoryUpdate::Team(IndexedPreviousBoard(a.team as usize, BitBoard { bits: s.teams[c] }));
    let u1 = HistoryUpdate::Piece(IndexedPreviousBoard(a.piece_type, BitBoard { bits: s.pieces[pt] }));
    let u2 = HistoryUpdate::Piece(
        IndexedPreviousBoard(promo as usize, BitBoard { bits: s.pieces[promo] }),
    );
    assert(h.state matches HistStateM::Any { updates, .. } && updates =~= seq![u0, u1, u2]);
    let y0 = StateModel { all_pieces: s.all_pieces, first_move: s.first_move, ..y };
    lemma_apply_updates3(y0, u0, u1, u2);
    let x1 = crate::state::apply_update(y0, u0);
    let x2 = crate::state::apply_update(x1, u1);
    let x3 = crate::state::apply_update(x2, u2);
    assert(x1.teams =~= s.teams);
    assert(x3.pieces =~= s.pieces);
    assert(crate::state::restore_boards(y, h) == x3);
    assert(crate::state::restore_boards(y, h) =~= s);
    assert(tr_undo(g, s2) == crate::state::restore_boards(retreat_counters(g, popped), h));
    assert(tr_undo(g, s2) =~= s);
}

/// Applying a valid action to a well-formed board keeps it well-formed, and
/// undoing the move restores the previous state bit for bit (the make/undo
/// round trip).
pub proof fn lemma_make_wf(g: GameModel, s: StateModel, a: Action)
    requires
        wf(g, s),
        action_ok(g, s, a),
        s.teams.len() <= usize::MAX,
        s.pieces.len() <= usize::MAX,
    ensures
        wf(g, tr_make(g, s, a)),
        tr_make(g, s, a).history.len() == s.history.len() + 1,
        tr_undo(g, tr_make(g, s, a)) == s,
        can_retreat(g, tr_make(g, s, a)),
{
    let s2 = tr_make(g, s, a);
    if g.pieces[a.piece_type as int] is Pawn {
        if nth(s.all_pieces, a.to as u128) {
            lemma_make_wf_pawn_capture(g, s, a);
        } else if a.info == 1 {
            lemma_make_wf_pawn_ep(g, s, a);
        } else if a.info >= 2 {
            lemma_make_wf_pawn_promo(g, s, a);
        } else {
            lemma_make_wf_normal(g, s, a);
        }
    } else {
        if nth(s.all_pieces, a.to as u128) {
            lemma_make_wf_capture(g, s, a);
        } else {
            lemma_make_wf_normal(g, s, a);
        }
    }
    assert(tr_undo(g, s2) == s);
    assert(wf(g, s2));
}

} // verus!
