use boards::actions::Action;
use boards::bits::BitBoard;
use boards::bits::Direction;
use boards::edges::generate_edge_list;
use boards::pieces::KnightPiece;
use boards::pieces::PawnPiece;
use boards::pieces::Piece;
use boards::board::Board;
use boards::moves::Game;
use boards::state::BoardState;

fn empty_board(rows: u32, cols: u32) -> Board {
    let game = Game {
        teams: 2,
        turns: 1,
        pieces: vec![
            Piece::Pawn(PawnPiece),
            Piece::Knight(KnightPiece),
        ],
    };
    Board {
        state: BoardState {
            all_pieces: BitBoard::new(),
            first_move: BitBoard::new(),
            pieces: vec![BitBoard::new(), BitBoard::new()],
            teams: vec![BitBoard::new(), BitBoard::new()],
            moving_team: 0,
            current_turn: 0,
            full_moves: 0,
            sub_moves: 0,
            turns: 0,
            edges: generate_edge_list(rows, cols),
            rows,
            cols,
            squares: rows * cols,
            history: vec![],
        },
        game,
        attack_lookup: vec![],
    }
}

fn place(b: &mut Board, team: usize, piece: usize, sq: u32) {
    let one = BitBoard::from_lsb(sq);
    b.state.teams[team] = b.state.teams[team].or(&one);
    b.state.pieces[piece] = b.state.pieces[piece].or(&one);
    b.state.all_pieces = b.state.all_pieces.or(&one);
}

#[test]
fn shifts_move_squares() {
    let b = BitBoard::from_lsb(20);
    assert_eq!(b.up(1, 8).bits, 1u128 << 12);
    assert_eq!(b.down(1, 8).bits, 1u128 << 28);
    assert_eq!(b.right(1).bits, 1u128 << 21);
    assert_eq!(b.left(1).bits, 1u128 << 19);
}

#[test]
fn shifts_past_capacity_empty() {
    let b = BitBoard::from_element(u128::MAX);
    assert_eq!(b.shl(128).bits, 0);
    assert_eq!(b.shr(200).bits, 0);
    assert_eq!(b.down(32, 8).bits, 0);
}

#[test]
fn bitscans_find_extremes() {
    let b = BitBoard::from_element((1u128 << 5) | (1u128 << 77));
    assert_eq!(b.bitscan_forward(), 5);
    assert_eq!(b.bitscan_reverse(), 77);
    assert_eq!(b.bitscan(Direction::LEFT), 5);
    assert_eq!(b.bitscan(Direction::RIGHT), 77);
}

#[test]
fn one_bits_ascending() {
    let b = BitBoard::from_element((1u128 << 3) | (1u128 << 9) | (1u128 << 63));
    assert_eq!(b.iter_one_bits(64), vec![3, 9, 63]);
    assert_eq!(b.iter_one_bits(10), vec![3, 9]);
}

#[test]
fn edge_masks_eight_by_eight() {
    let e = generate_edge_list(8, 8);
    assert_eq!(e.len(), 1);
    assert_eq!(e[0].top.bits, 0xffu128);
    assert_eq!(e[0].bottom.bits, 0xffu128 << 56);
    let mut left = 0u128;
    let mut right = 0u128;
    for r in 0..8u32 {
        left |= 1u128 << (r * 8);
        right |= 1u128 << (r * 8 + 7);
    }
    assert_eq!(e[0].left.bits, left);
    assert_eq!(e[0].right.bits, right);
}

#[test]
fn make_then_undo_restores_state() {
    let mut b = empty_board(8, 8);
    place(&mut b, 0, 1, 60);
    place(&mut b, 1, 1, 4);
    let before_teams = (b.state.teams[0].bits, b.state.teams[1].bits);
    let before_all = b.state.all_pieces.bits;
    let action = Action { from: 60, to: 45, team: 0, piece_type: 1, info: 0 };
    b.make_move(&action);
    assert_eq!(b.state.moving_team, 1);
    assert_eq!(b.state.turns, 1);
    assert!(b.state.teams[0].bits & (1u128 << 45) != 0);
    assert!(b.state.teams[0].bits & (1u128 << 60) == 0);
    b.undo_move().unwrap();
    assert_eq!(b.state.teams[0].bits, before_teams.0);
    assert_eq!(b.state.teams[1].bits, before_teams.1);
    assert_eq!(b.state.all_pieces.bits, before_all);
    assert_eq!(b.state.moving_team, 0);
    assert_eq!(b.state.turns, 0);
    assert_eq!(b.state.history.len(), 0);
}

#[test]
fn capture_removes_victim_and_undo_restores() {
    let mut b = empty_board(8, 8);
    place(&mut b, 0, 1, 60);
    place(&mut b, 1, 0, 45);
    let before = (
        b.state.teams[0].bits,
        b.state.teams[1].bits,
        b.state.pieces[0].bits,
        b.state.pieces[1].bits,
        b.state.all_pieces.bits,
    );
    let action = Action { from: 60, to: 45, team: 0, piece_type: 1, info: 0 };
    b.make_move(&action);
    assert_eq!(b.state.teams[1].bits, 0);
    assert_eq!(b.state.pieces[0].bits, 0);
    assert!(b.state.teams[0].bits & (1u128 << 45) != 0);
    b.undo_move().unwrap();
    assert_eq!(b.state.teams[0].bits, before.0);
    assert_eq!(b.state.teams[1].bits, before.1);
    assert_eq!(b.state.pieces[0].bits, before.2);
    assert_eq!(b.state.pieces[1].bits, before.3);
    assert_eq!(b.state.all_pieces.bits, before.4);
}

#[test]
fn undo_on_empty_history_fails() {
    let mut b = empty_board(8, 8);
    assert!(b.undo_move().is_err());
}

#[test]
fn ray_walks_to_the_edge() {
    let e = generate_edge_list(8, 8);
    let from = BitBoard::from_lsb(36);
    // direction 1 is "right": three squares to the end of the row
    let ray = boards::sliders::get_moves_ray(from, 1, &e[0], 8);
    assert_eq!(ray.bits, (1u128 << 37) | (1u128 << 38) | (1u128 << 39));
    // direction 2 is "up": four squares to the top of the board
    let ray_up = boards::sliders::get_moves_ray(from, 2, &e[0], 8);
    assert_eq!(ray_up.bits, (1u128 << 28) | (1u128 << 20) | (1u128 << 12) | (1u128 << 4));
}

#[test]
fn team_rotation_wraps() {
    let b = empty_board(8, 8);
    assert_eq!(b.get_next_team(0), 1);
    assert_eq!(b.get_next_team(1), 0);
    assert_eq!(b.get_previous_team(0), 1);
    assert_eq!(b.get_previous_team(1), 0);
}
