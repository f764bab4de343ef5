//! The mutable game state, its mathematical model, and the transition
//! functions that the apply/undo contracts are stated against.
use vstd::prelude::*;

use crate::actions::Action;
use crate::actions::HistM;
use crate::actions::HistStateM;
use crate::actions::HistoryMove;
use crate::actions::HistoryUpdate;
use crate::actions::IndexedPreviousBoard;
use crate::bits::BitBoard;
use crate::bits::nth;
use crate::edges::Edges;
use crate::edges::edges_spec;
use crate::pieces::Piece;

verus! {

pub type PieceType = usize;

pub type Rows = u32;

pub type Cols = u32;

/// The one-hot word with bit `i` set.
pub open spec fn one_shl(i: u128) -> u128 {
    1u128 << i
}

/// The immutable configuration of a game, as the contracts see it.
#[verifier::ext_equal]
pub ghost struct GameModel {
    /// Number of teams.
    pub teams: int,
    /// Turns per sub-move (one for chess).
    pub turns: int,
    /// The piece kinds; indices are piece types.
    pub pieces: Seq<Piece>,
}

/// The mathematical value of a `BoardState`.
#[verifier::ext_equal]
pub ghost struct StateModel {
    pub all_pieces: u128,
    pub first_move: u128,
    pub pieces: Seq<u128>,
    pub teams: Seq<u128>,
    pub moving_team: int,
    pub current_turn: int,
    pub sub_moves: int,
    pub full_moves: int,
    pub turns: int,
    pub edges: Seq<Edges>,
    pub rows: u32,
    pub cols: u32,
    pub squares: u32,
    pub history: Seq<HistM>,
}

/// The mutable game state: per-team and per-piece-kind occupancy, the cached
/// union of all pieces, the first-move mask, turn counters, and the history
/// stack that makes every move reversible.
pub struct BoardState {
    pub all_pieces: BitBoard,
    pub first_move: BitBoard,
    pub pieces: Vec<BitBoard>,
    pub teams: Vec<BitBoard>,
    pub moving_team: u32,
    pub current_turn: u32,
    pub full_moves: u32,
    pub sub_moves: u32,
    pub turns: u32,
    pub edges: Vec<Edges>,
    pub rows: Rows,
    pub cols: Cols,
    pub squares: u32,
    pub history: Vec<HistoryMove>,
}

/// The words of a sequence of bitboards.
pub open spec fn boards_view(s: Seq<BitBoard>) -> Seq<u128> {
    s.map_values(|b: BitBoard| b.bits)
}

/// The models of a sequence of history entries.
pub open spec fn history_view(s: Seq<HistoryMove>) -> Seq<HistM> {
    s.map_values(|h: HistoryMove| h@)
}

pub proof fn lemma_boards_view_update(s: Seq<BitBoard>, i: int, v: BitBoard)
    requires
        0 <= i < s.len(),
    ensures
        boards_view(s.update(i, v)) =~= boards_view(s).update(i, v.bits),
{
}

pub proof fn lemma_boards_view_push(s: Seq<BitBoard>, v: BitBoard)
    ensures
        boards_view(s.push(v)) =~= boards_view(s).push(v.bits),
{
}

pub proof fn lemma_history_view_push(s: Seq<HistoryMove>, h: HistoryMove)
    ensures
        history_view(s.push(h)) =~= history_view(s).push(h@),
{
}

pub proof fn lemma_history_view_pop(s: Seq<HistoryMove>)
    requires
        s.len() > 0,
    ensures
        history_view(s.drop_last()) =~= history_view(s).drop_last(),
        history_view(s).last() == s.last()@,
{
}

impl View for BoardState {
    type V = StateModel;

    open spec fn view(&self) -> StateModel {
        StateModel {
            all_pieces: self.all_pieces.bits,
            first_move: self.first_move.bits,
            pieces: boards_view(self.pieces@),
            teams: boards_view(self.teams@),
            moving_team: self.moving_team as int,
            current_turn: self.current_turn as int,
            sub_moves: self.sub_moves as int,
            full_moves: self.full_moves as int,
            turns: self.turns as int,
            edges: self.edges@,
            rows: self.rows,
            cols: self.cols,
            squares: self.squares,
            history: history_view(self.history@),
        }
    }
}

impl BoardState {
    /// The occupancy of one piece kind restricted to one team.
    pub fn get_piece_team_board(&self, piece: usize, team: usize) -> (r: BitBoard)
        requires
            piece < self.pieces@.len(),
            team < self.teams@.len(),
        ensures
            r.bits == self@.pieces[piece as int] & self@.teams[team as int],
    {
        self.pieces[piece].and(&self.teams[team])
    }
}

/// No square is in both words.
pub open spec fn disjoint(a: u128, b: u128) -> bool {
    forall|i: u128| !(nth(a, i) && nth(b, i))
}

/// Every square of `a` is in `b`.
pub open spec fn subset_of(a: u128, b: u128) -> bool {
    forall|i: u128| nth(a, i) ==> nth(b, i)
}

/// `whole` is exactly the union of `parts`.
pub open spec fn covers(whole: u128, parts: Seq<u128>) -> bool {
    forall|i: u128|
        #[trigger] nth(whole, i) <==> exists|k: int| 0 <= k < parts.len() && nth(#[trigger] parts[k], i)
}

pub open spec fn pairwise_disjoint(parts: Seq<u128>) -> bool {
    forall|j: int, k: int|
        0 <= j < k < parts.len() ==> disjoint(#[trigger] parts[j], #[trigger] parts[k])
}

/// The next team in turn order, wrapping to 0.
pub open spec fn next_team_sp(teams: int, t: int) -> int {
    if t + 1 >= teams {
        0
    } else {
        t + 1
    }
}

/// The previous team in turn order, wrapping to the last team.
pub open spec fn prev_team_sp(teams: int, t: int) -> int {
    if t == 0 {
        teams - 1
    } else {
        t - 1
    }
}

/// Whether `a` has the shape of a pawn double push: source and destination
/// two whole rows apart.
pub open spec fn dp_shape(a: Action, cols: u32) -> bool {
    a.to == a.from + 2 * cols || a.from == a.to + 2 * cols
}

/// Whether `a` is a double push in its own team's forward direction (team 1
/// moves toward higher bits, every other team toward lower bits).
pub open spec fn dp_push(a: Action, cols: u32) -> bool {
    if a.team == 1 {
        a.to == a.from + 2 * cols
    } else {
        a.from == a.to + 2 * cols
    }
}

/// The square a double push passed over.
pub open spec fn dp_mid(a: Action, cols: u32) -> int {
    if a.to > a.from {
        a.from + cols
    } else {
        a.from - cols
    }
}

/// The en-passant bookkeeping that move generation relies on: whenever the
/// last recorded action is a double push of piece kind 0 (the pawn in the
/// chess configuration), that action was direction-consistent, the pushed
/// pawn still stands on its destination square, the square it passed over is
/// empty, and the pushing team is the one whose turn comes after the mover's.
pub open spec fn ep_sync(g: GameModel, s: StateModel) -> bool {
    s.history.len() > 0 ==> {
        let h = s.history.last();
        (g.teams == 2 && g.turns == 1 && h.action.piece_type == 0 && h.action.info < 2
            && dp_shape(h.action, s.cols)) ==> {
            &&& g.teams == 2
            &&& (h.action.team as int) < 2
            &&& next_team_sp(g.teams, s.moving_team) == h.action.team as int
            &&& dp_push(h.action, s.cols)
            &&& h.action.from < s.squares
            &&& h.action.to < s.squares
            &&& nth(s.teams[h.action.team as int], h.action.to as u128)
            &&& nth(s.pieces[0], h.action.to as u128)
            &&& !nth(s.all_pieces, dp_mid(h.action, s.cols) as u128)
            &&& dp_mid(h.action, s.cols) < s.squares
        }
    }
}

/// A history entry's stored indices lie within the board's vectors.
pub open spec fn entry_ok(g: GameModel, h: HistM) -> bool {
    &&& (h.action.piece_type as int) < g.pieces.len()
    &&& match h.state {
        HistStateM::Single { team, piece, .. } => {
            (team.0 as int) < g.teams && (piece.0 as int) < g.pieces.len()
        },
        HistStateM::Any { updates, .. } => {
            forall|k: int|
                0 <= k < updates.len() ==> match #[trigger] updates[k] {
                    HistoryUpdate::Team(ib) => (ib.0 as int) < g.teams,
                    HistoryUpdate::Piece(ib) => (ib.0 as int) < g.pieces.len(),
                }
        },
        HistStateM::Marker => true,
    }
}

/// The data-model invariants of the current boards: teams pairwise disjoint,
/// piece kinds pairwise disjoint, `all_pieces` the union of either family,
/// the first-move mask a subset of `all_pieces`, and every occupied square on
/// the board.
pub open spec fn boards_ok(s: StateModel) -> bool {
    &&& pairwise_disjoint(s.teams)
    &&& pairwise_disjoint(s.pieces)
    &&& covers(s.all_pieces, s.teams)
    &&& covers(s.all_pieces, s.pieces)
    &&& subset_of(s.first_move, s.all_pieces)
    &&& forall|i: u128| nth(s.all_pieces, i) ==> i < s.squares
}

/// Everything `wf` asks of the present state, leaving the history chain
/// aside.
pub open spec fn wf_base(g: GameModel, s: StateModel) -> bool {
    &&& 1 <= s.rows
    &&& 1 <= s.cols
    &&& s.squares == s.rows * s.cols
    &&& s.squares <= 128
    &&& s.edges.len() == 1
    &&& s.edges[0] == edges_spec(s.rows, s.cols)
    &&& g.turns >= 1
    &&& g.teams >= 1
    &&& s.teams.len() == g.teams
    &&& g.pieces.len() >= 1
    &&& s.pieces.len() == g.pieces.len()
    &&& 0 <= s.moving_team < g.teams
    &&& 0 <= s.current_turn < g.turns
    &&& 0 <= s.turns
    &&& 0 <= s.sub_moves
    &&& 0 <= s.full_moves
    &&& boards_ok(s)
    &&& ep_sync(g, s)
}

/// Well-formedness: the present state is consistent and every state the
/// history chain can restore is consistent in turn.
pub open spec fn wf(g: GameModel, s: StateModel) -> bool
    decreases s.history.len(),
    via wf_dec
{
    &&& wf_base(g, s)
    &&& s.history.len() > 0 ==> {
        &&& entry_ok(g, s.history.last())
        &&& wf(g, tr_undo(g, s))
    }
}

#[via_fn]
proof fn wf_dec(g: GameModel, s: StateModel) {
    if s.history.len() > 0 {
        lemma_undo_fields(g, s);
    }
}

/// Applying stored updates touches only the team and piece boards.
pub proof fn lemma_apply_updates_fields(s: StateModel, ups: Seq<HistoryUpdate>)
    ensures
        apply_updates(s, ups) == (StateModel {
            teams: apply_updates(s, ups).teams,
            pieces: apply_updates(s, ups).pieces,
            ..s
        }),
    decreases ups.len(),
{
    if ups.len() > 0 {
        lemma_apply_updates_fields(apply_update(s, ups[0]), ups.drop_first());
    }
}

/// Undoing pops exactly one history entry and keeps the geometry.
pub proof fn lemma_undo_fields(g: GameModel, s: StateModel)
    requires
        s.history.len() > 0,
    ensures
        tr_undo(g, s).history == s.history.drop_last(),
        tr_undo(g, s).rows == s.rows,
        tr_undo(g, s).cols == s.cols,
        tr_undo(g, s).squares == s.squares,
        tr_undo(g, s).edges == s.edges,
        tr_undo(g, s).teams.len() == s.teams.len(),
        tr_undo(g, s).pieces.len() == s.pieces.len(),
{
    let h = s.history.last();
    let s0 = retreat_counters(g, StateModel { history: s.history.drop_last(), ..s });
    match h.state {
        HistStateM::Any { all_pieces, first_move, updates } => {
            let s1 = StateModel { all_pieces: all_pieces, first_move: first_move, ..s0 };
            lemma_apply_updates_fields(s1, updates);
            lemma_apply_updates_len(s1, updates);
        },
        _ => {},
    }
}

/// Applying stored updates keeps the lengths of the board vectors.
pub proof fn lemma_apply_updates_len(s: StateModel, ups: Seq<HistoryUpdate>)
    ensures
        apply_updates(s, ups).teams.len() == s.teams.len(),
        apply_updates(s, ups).pieces.len() == s.pieces.len(),
    decreases ups.len(),
{
    if ups.len() > 0 {
        lemma_apply_updates_len(apply_update(s, ups[0]), ups.drop_first());
    }
}

/// The counters stepped forward by one turn, as `make_move` leaves them.
pub open spec fn advance_counters(g: GameModel, s: StateModel) -> StateModel {
    let s1 = StateModel { current_turn: s.current_turn + 1, turns: s.turns + 1, ..s };
    if s1.current_turn >= g.turns {
        StateModel {
            current_turn: 0,
            sub_moves: s1.sub_moves + 1,
            full_moves: s1.full_moves + if s1.moving_team == 0 {
                1int
            } else {
                0int
            },
            moving_team: next_team_sp(g.teams, s1.moving_team),
            ..s1
        }
    } else {
        s1
    }
}

/// The counters stepped backward by one turn, as `undo_move` leaves them.
pub open spec fn retreat_counters(g: GameModel, s: StateModel) -> StateModel {
    let s1 = StateModel { current_turn: s.current_turn - 1, turns: s.turns - 1, ..s };
    if s1.current_turn < 0 {
        let mt = prev_team_sp(g.teams, s1.moving_team);
        StateModel {
            current_turn: g.turns - 1,
            sub_moves: s1.sub_moves - 1,
            full_moves: s1.full_moves - if mt == 0 {
                1int
            } else {
                0int
            },
            moving_team: mt,
            ..s1
        }
    } else {
        s1
    }
}

/// One stored board written back (an index out of range writes nothing; the
/// well-formedness invariant keeps stored indices in range).
pub open spec fn apply_update(s: StateModel, u: HistoryUpdate) -> StateModel {
    match u {
        HistoryUpdate::Team(ib) => if (ib.0 as int) < s.teams.len() {
            StateModel { teams: s.teams.update(ib.0 as int, ib.1.bits), ..s }
        } else {
            s
        },
        HistoryUpdate::Piece(ib) => if (ib.0 as int) < s.pieces.len() {
            StateModel { pieces: s.pieces.update(ib.0 as int, ib.1.bits), ..s }
        } else {
            s
        },
    }
}

/// The stored boards written back in order.
pub open spec fn apply_updates(s: StateModel, ups: Seq<HistoryUpdate>) -> StateModel
    decreases ups.len(),
{
    if ups.len() == 0 {
        s
    } else {
        apply_updates(apply_update(s, ups[0]), ups.drop_first())
    }
}

/// The boards of `s` overwritten with what `h` stored.
pub open spec fn restore_boards(s: StateModel, h: HistM) -> StateModel {
    match h.state {
        HistStateM::Single { team, piece, all_pieces, first_move } => apply_update(
            apply_update(
                StateModel { all_pieces: all_pieces, first_move: first_move, ..s },
                HistoryUpdate::Team(team),
            ),
            HistoryUpdate::Piece(piece),
        ),
        HistStateM::Any { all_pieces, first_move, updates } => apply_updates(
            StateModel { all_pieces: all_pieces, first_move: first_move, ..s },
            updates,
        ),
        HistStateM::Marker => s,
    }
}

/// The state after undoing the newest history entry: the entry popped, the
/// counters stepped back, and the stored boards written back.
pub open spec fn tr_undo(g: GameModel, s: StateModel) -> StateModel {
    let h = s.history.last();
    restore_boards(
        retreat_counters(g, StateModel { history: s.history.drop_last(), ..s }),
        h,
    )
}

/// The boards and history after a plain quiet move: the mover's team and
/// piece boards swap `from` for `to`, `all_pieces` follows, the source square
/// leaves the first-move mask, and a `Single` record is pushed.
pub open spec fn tr_normal(s: StateModel, a: Action) -> StateModel {
    let c = a.team as int;
    let pt = a.piece_type as int;
    let f = one_shl(a.from as u128);
    let t = one_shl(a.to as u128);
    StateModel {
        teams: s.teams.update(c, (s.teams[c] ^ f) | t),
        pieces: s.pieces.update(pt, (s.pieces[pt] ^ f) | t),
        all_pieces: (s.all_pieces ^ f) | t,
        first_move: s.first_move & !f,
        history: s.history.push(
            HistM {
                action: a,
                state: HistStateM::Single {
                    team: IndexedPreviousBoard(a.team as usize, BitBoard { bits: s.teams[c] }),
                    piece: IndexedPreviousBoard(a.piece_type, BitBoard { bits: s.pieces[pt] }),
                    all_pieces: s.all_pieces,
                    first_move: s.first_move,
                },
            },
        ),
        ..s
    }
}

/// The lowest index at or after `k` whose board holds `sq`, or 0 when none
/// does: how the capture code identifies the captured team and piece kind.
pub open spec fn first_at_from(parts: Seq<u128>, sq: u128, k: int) -> int
    decreases parts.len() - k,
{
    if k < 0 || k >= parts.len() {
        0
    } else if nth(parts[k], sq) {
        k
    } else {
        first_at_from(parts, sq, k + 1)
    }
}

pub open spec fn first_at(parts: Seq<u128>, sq: u128) -> int {
    first_at_from(parts, sq, 0)
}

pub proof fn lemma_first_at(parts: Seq<u128>, sq: u128, k: int, i: int)
    requires
        0 <= k <= i < parts.len(),
        nth(parts[i], sq),
        forall|j: int| k <= j < i ==> !nth(#[trigger] parts[j], sq),
    ensures
        first_at_from(parts, sq, k) == i,
    decreases parts.len() - k,
{
    if k < i {
        lemma_first_at(parts, sq, k + 1, i);
    }
}

/// When some board holds `sq`, `first_at` names one that does.
pub proof fn lemma_first_at_found(parts: Seq<u128>, sq: u128)
    requires
        exists|i: int| 0 <= i < parts.len() && nth(#[trigger] parts[i], sq),
    ensures
        0 <= first_at(parts, sq) < parts.len(),
        nth(parts[first_at(parts, sq)], sq),
{
    let i0 = choose|i: int| 0 <= i < parts.len() && nth(#[trigger] parts[i], sq);
    let lo = lowest_at(parts, sq, i0);
    lemma_first_at(parts, sq, 0, lo);
}

/// When no board at or after `k` holds `sq`, the scan falls back to 0.
pub proof fn lemma_first_at_none(parts: Seq<u128>, sq: u128, k: int)
    requires
        forall|j: int| k <= j < parts.len() ==> !nth(#[trigger] parts[j], sq),
    ensures
        first_at_from(parts, sq, k) == 0,
    decreases parts.len() - k,
{
    if 0 <= k < parts.len() {
        lemma_first_at_none(parts, sq, k + 1);
    }
}

/// The least index `<= i` holding `sq` (there is one, since `i` holds it).
proof fn lowest_at(parts: Seq<u128>, sq: u128, i: int) -> (r: int)
    requires
        0 <= i < parts.len(),
        nth(parts[i], sq),
    ensures
        0 <= r <= i,
        nth(parts[r], sq),
        forall|j: int| 0 <= j < r ==> !nth(#[trigger] parts[j], sq),
    decreases i,
{
    if exists|j: int| 0 <= j < i && nth(#[trigger] parts[j], sq) {
        let j0 = choose|j: int| 0 <= j < i && nth(#[trigger] parts[j], sq);
        lowest_at(parts, sq, j0)
    } else {
        i
    }
}

/// The index of the first board that holds square `sq`, or 0 when none does:
/// how a capture identifies the captured team and piece kind.
pub fn first_board_at(boards: &Vec<BitBoard>, sq: u32) -> (r: usize)
    requires
        sq < 128,
    ensures
        r as int == first_at(boards_view(boards@), sq as u128),
        boards@.len() > 0 ==> r < boards@.len(),
{
    let ghost parts = boards_view(boards@);
    let mut i: usize = 0;
    while i < boards.len()
        invariant
            sq < 128,
            i <= boards@.len(),
            parts == boards_view(boards@),
            forall|j: int| 0 <= j < i ==> !nth(#[trigger] parts[j], sq as u128),
        decreases boards@.len() - i,
    {
        if (boards[i].bits >> sq) & 1 == 1 {
            proof {
                lemma_first_at(parts, sq as u128, 0, i as int);
            }
            return i;
        }
        i = i + 1;
    }
    proof {
        lemma_first_at_none(parts, sq as u128, 0);
    }
    0
}

/// The boards and history after a plain capture: the captured team and piece
/// kind lose `to`, the mover's boards swap `from` for `to`, `all_pieces`
/// loses only `from`, both squares leave the first-move mask, and an `Any`
/// record of the four overwritten boards is pushed.
pub open spec fn tr_capture(s: StateModel, a: Action) -> StateModel {
    let c = a.team as int;
    let pt = a.piece_type as int;
    let f = one_shl(a.from as u128);
    let t = one_shl(a.to as u128);
    let cc = first_at(s.teams, a.to as u128);
    let cpt = first_at(s.pieces, a.to as u128);
    StateModel {
        teams: s.teams.update(cc, s.teams[cc] ^ t).update(
            c,
            (s.teams.update(cc, s.teams[cc] ^ t)[c] ^ f) | t,
        ),
        pieces: s.pieces.update(cpt, s.pieces[cpt] ^ t).update(
            pt,
            (s.pieces.update(cpt, s.pieces[cpt] ^ t)[pt] ^ f) | t,
        ),
        all_pieces: s.all_pieces ^ f,
        first_move: s.first_move & !f & !t,
        history: s.history.push(
            HistM {
                action: a,
                state: HistStateM::Any {
                    all_pieces: s.all_pieces,
                    first_move: s.first_move,
                    updates: seq![
                        HistoryUpdate::Team(
                            IndexedPreviousBoard(a.team as usize, BitBoard { bits: s.teams[c] }),
                        ),
                        HistoryUpdate::Team(
                            IndexedPreviousBoard(cc as usize, BitBoard { bits: s.teams[cc] }),
                        ),
                        HistoryUpdate::Piece(
                            IndexedPreviousBoard(a.piece_type, BitBoard { bits: s.pieces[pt] }),
                        ),
                        HistoryUpdate::Piece(
                            IndexedPreviousBoard(cpt as usize, BitBoard { bits: s.pieces[cpt] }),
                        ),
                    ],
                },
            },
        ),
        ..s
    }
}

} // verus!
