//! Shared slider machinery: rays produced by iterated clipped shifts, and
//! their resolution against blockers at runtime.
//!
//! Directions are numbered 0..8: left, right, up, down, then the four
//! diagonals up-left, up-right, down-left, down-right. The rook uses 0..4,
//! the bishop 4..8, the queen all eight.
use vstd::prelude::*;

use crate::bits::BitBoard;
use crate::bits::nth;
use crate::edges::Edges;
use crate::state::one_shl;

verus! {

/// One clipped step in direction `dir`: the bits still inside the opposite
/// boundary, shifted one square.
pub open spec fn step_sp(b: u128, dir: u32, e: Edges, cols: u32) -> u128 {
    if dir == 0 {
        (b & !e.left.bits) >> 1u128
    } else if dir == 1 {
        (b & !e.right.bits) << 1u128
    } else if dir == 2 {
        (b & !e.top.bits) >> (cols as u128)
    } else if dir == 3 {
        (b & !e.bottom.bits) << (cols as u128)
    } else if dir == 4 {
        (b & !(e.left.bits | e.top.bits)) >> ((cols + 1) as u128)
    } else if dir == 5 {
        (b & !(e.right.bits | e.top.bits)) >> ((cols - 1) as u128)
    } else if dir == 6 {
        (b & !(e.left.bits | e.bottom.bits)) << ((cols - 1) as u128)
    } else {
        (b & !(e.right.bits | e.bottom.bits)) << ((cols + 1) as u128)
    }
}

/// One clipped step in direction `dir`.
pub fn step(b: BitBoard, dir: u32, edges: &Edges, cols: u32) -> (r: BitBoard)
    requires
        dir < 8,
        1 <= cols <= 128,
    ensures
        r.bits == step_sp(b.bits, dir, *edges, cols),
{
    if dir == 0 {
        b.and_not(&edges.left).shr(1)
    } else if dir == 1 {
        b.and_not(&edges.right).shl(1)
    } else if dir == 2 {
        b.and_not(&edges.top).shr(cols)
    } else if dir == 3 {
        b.and_not(&edges.bottom).shl(cols)
    } else if dir == 4 {
        b.and_not(&edges.left.or(&edges.top)).shr(cols + 1)
    } else if dir == 5 {
        b.and_not(&edges.right.or(&edges.top)).shr(cols - 1)
    } else if dir == 6 {
        b.and_not(&edges.left.or(&edges.bottom)).shl(cols - 1)
    } else {
        b.and_not(&edges.right.or(&edges.bottom)).shl(cols + 1)
    }
}

/// The ray from `b` in direction `dir`: step, union, repeat until the ray
/// runs off the board (`fuel` bounds the recursion; 128 steps always
/// suffice on a board of at most 128 squares).
pub open spec fn ray_rec(b: u128, dir: u32, e: Edges, cols: u32, fuel: nat) -> u128
    decreases fuel,
{
    if fuel == 0 {
        0
    } else {
        let nx = step_sp(b, dir, e, cols);
        if nx == 0 {
            0
        } else {
            nx | ray_rec(nx, dir, e, cols, (fuel - 1) as nat)
        }
    }
}

/// The full ray of squares reachable from square `sq` in direction `dir`,
/// ignoring blockers.
pub open spec fn ray_sp(sq: u32, dir: u32, e: Edges, cols: u32) -> u128 {
    ray_rec(one_shl(sq as u128), dir, e, cols, 128)
}

/// Produces the ray by iterated shift-until-empty.
pub fn get_moves_ray(from: BitBoard, dir: u32, edges: &Edges, cols: u32) -> (r: BitBoard)
    requires
        dir < 8,
        1 <= cols <= 128,
    ensures
        r.bits == ray_rec(from.bits, dir, *edges, cols, 128),
{
    let mut cur = from;
    let mut acc = BitBoard::new();
    let mut i: u32 = 0;
    proof {
        let r0 = ray_rec(from.bits, dir, *edges, cols, 128);
        assert(0u128 | r0 == r0) by (bit_vector);
    }
    while i < 128
        invariant
            i <= 128,
            dir < 8,
            1 <= cols <= 128,
            ray_rec(from.bits, dir, *edges, cols, 128) == acc.bits | ray_rec(
                cur.bits,
                dir,
                *edges,
                cols,
                (128 - i) as nat,
            ),
        decreases 128 - i,
    {
        let nx = step(cur, dir, edges, cols);
        if nx.is_empty() {
            proof {
                assert(ray_rec(cur.bits, dir, *edges, cols, (128 - i) as nat) == 0);
                let a0 = acc.bits;
                assert(a0 | 0u128 == a0) by (bit_vector);
            }
            return acc;
        }
        let ghost acc0 = acc.bits;
        acc = acc.or(&nx);
        proof {
            let rest = ray_rec(nx.bits, dir, *edges, cols, (128 - i - 1) as nat);
            let nb = nx.bits;
            assert(acc0 | (nb | rest) == (acc0 | nb) | rest) by (bit_vector);
        }
        cur = nx;
        i = i + 1;
    }
    proof {
        assert(ray_rec(cur.bits, dir, *edges, cols, 0) == 0);
        let a0 = acc.bits;
        assert(a0 | 0u128 == a0) by (bit_vector);
    }
    acc
}

/// A slider lookup table for `base .. base + ndirs` holds the rays of every
/// square.
pub open spec fn slider_table_ok(
    table: Seq<Seq<u128>>,
    base: u32,
    ndirs: u32,
    e: Edges,
    cols: u32,
    squares: u32,
) -> bool {
    &&& table.len() == squares
    &&& forall|sq: int| 0 <= sq < squares ==> #[trigger] table[sq].len() == ndirs
    &&& forall|sq: int, d: int|
        0 <= sq < squares && 0 <= d < ndirs ==> #[trigger] table[sq][d] == ray_sp(
            sq as u32,
            (base + d) as u32,
            e,
            cols,
        )
}

/// Ray attacks from `sq`: the full ray, clipped beyond the blocker nearest to
/// the source (a forward scan when the blocker bits lie above the source, a
/// reverse scan when below); the blocker square itself stays in the mask.
pub open spec fn ray_attacks_sp(sq: u32, dir: u32, e: Edges, cols: u32, all: u128) -> u128 {
    let ray = ray_sp(sq, dir, e, cols);
    let blocker = ray & all;
    if blocker == 0 {
        ray
    } else {
        let bsq = if blocker < one_shl(sq as u128) {
            crate::bits::high_bit(blocker)
        } else {
            crate::bits::low_bit(blocker)
        };
        ray ^ ray_sp(bsq as u32, dir, e, cols)
    }
}


/// The union of ray attacks over directions `base .. base + n`.
pub open spec fn slider_att_rec(
    sq: u32,
    base: u32,
    n: nat,
    e: Edges,
    cols: u32,
    all: u128,
) -> u128
    decreases n,
{
    if n == 0 {
        0
    } else {
        slider_att_rec(sq, base, (n - 1) as nat, e, cols, all) | ray_attacks_sp(
            sq,
            (base + (n - 1)) as u32,
            e,
            cols,
            all,
        )
    }
}

/// Ray attacks read off a lookup table: the table's full ray for the source,
/// clipped beyond the blocker nearest the source; the blocker square itself
/// stays in the mask.
pub open spec fn ray_att_table_sp(tv: Seq<Seq<u128>>, sq: u32, d: int, all: u128) -> u128 {
    let ray = tv[sq as int][d];
    let blocker = ray & all;
    if blocker == 0 {
        ray
    } else {
        let bsq = if blocker < one_shl(sq as u128) {
            crate::bits::high_bit(blocker)
        } else {
            crate::bits::low_bit(blocker)
        };
        ray ^ tv[bsq as int][d]
    }
}

/// Resolves one ray against the blockers at runtime: start from the
/// precomputed full ray, find the blocker nearest to the source (forward scan
/// when the blocker bits lie above the source, reverse scan when below), and
/// clip the ray beyond it; the blocker square stays, a pseudo-legal capture
/// target.
#[verifier::rlimit(60)]
pub fn get_ray_attacks(
    board: &crate::board::Board,
    from: BitBoard,
    dir: u32,
    ray_attacks: &crate::board::AttackLookup,
) -> (r: BitBoard)
    requires
        crate::state::wf_base(board.game@, board.state@),
        from.bits != 0,
        crate::bits::low_bit(from.bits) < board.state@.squares,
        from.bits == one_shl(crate::bits::low_bit(from.bits)),
        ray_attacks@.len() == board.state@.squares,
        forall|k: int|
            0 <= k < ray_attacks@.len() ==> (dir as int) < #[trigger] ray_attacks@[k]@.len(),
    ensures
        r.bits == ray_att_table_sp(
            crate::board::lookup_view(ray_attacks@),
            crate::bits::low_bit(from.bits) as u32,
            dir as int,
            board.state@.all_pieces,
        ),
{
    let sq = from.bitscan_forward();
    let ghost tv = crate::board::lookup_view(ray_attacks@);
    proof {
        crate::bits::lemma_low_bit(from.bits, sq as u128);
        assert(tv[sq as int] == crate::state::boards_view(ray_attacks@[sq as int]@));
    }
    let mut attacks = ray_attacks[sq as usize][dir as usize];
    let blocker = attacks.and(&board.state.all_pieces);
    proof {
        assert(attacks.bits == tv[sq as int][dir as int]);
    }
    if blocker.is_set() {
        proof {
            broadcast use crate::bits::group_nth;

            assert forall|j: u128| nth(blocker.bits, j) implies j < board.state@.squares by {
                assert(nth(board.state@.all_pieces, j));
            }
        }
        let square = if blocker.ult(&from) {
            let hb = blocker.bitscan_reverse();
            proof {
                crate::bits::lemma_high_bit(blocker.bits, hb as u128);
            }
            hb
        } else {
            let lb = blocker.bitscan_forward();
            proof {
                crate::bits::lemma_low_bit(blocker.bits, lb as u128);
            }
            lb
        };
        proof {
            if blocker.bits < from.bits {
                assert(nth(blocker.bits, crate::bits::high_bit(blocker.bits)));
            } else {
                assert(nth(blocker.bits, crate::bits::low_bit(blocker.bits)));
            }
            assert(tv[square as int] == crate::state::boards_view(ray_attacks@[square as int]@));
        }
        attacks = attacks.xor(&ray_attacks[square as usize][dir as usize]);
    }
    attacks
}

/// The union of table ray attacks over direction slots `0 .. n`.
pub open spec fn slider_att_table_rec(tv: Seq<Seq<u128>>, sq: u32, n: nat, all: u128) -> u128
    decreases n,
{
    if n == 0 {
        0
    } else {
        slider_att_table_rec(tv, sq, (n - 1) as nat, all) | ray_att_table_sp(
            tv,
            sq,
            n - 1,
            all,
        )
    }
}

} // verus!
