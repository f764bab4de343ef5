//! Boundary masks of a rectangular board, used to clip directional shifts so
//! that bits never wrap around a row or fall off the board.
use vstd::prelude::*;

use crate::bits::BitBoard;
use crate::bits::row_shift;

verus! {

/// The word whose lowest `n` bits are set.
pub open spec fn low_ones(n: nat) -> u128
    decreases n,
{
    if n == 0 {
        0
    } else {
        low_ones((n - 1) as nat) | (1u128 << ((n - 1) as u128))
    }
}

/// The mask of column 0 of a board with `r` rows of `cols` columns: one bit at
/// the start of each row.
pub open spec fn left_column(r: nat, cols: u32) -> u128
    decreases r,
{
    if r == 0 {
        0
    } else {
        left_column((r - 1) as nat, cols) | (1u128 << (((r - 1) * cols) as u128))
    }
}

/// Boundary bitboards of one rectangular region.
#[derive(Clone, Copy, PartialEq, Eq, Structural, Debug)]
pub struct Edges {
    /// The first (top) row.
    pub top: BitBoard,
    /// The last (bottom) row.
    pub bottom: BitBoard,
    /// Column 0.
    pub left: BitBoard,
    /// The last column.
    pub right: BitBoard,
}

/// The boundary masks of a `rows` by `cols` board.
pub open spec fn edges_spec(rows: u32, cols: u32) -> Edges {
    Edges {
        top: BitBoard { bits: low_ones(cols as nat) },
        bottom: BitBoard { bits: low_ones(cols as nat) << row_shift((rows - 1) as u32, cols) },
        left: BitBoard { bits: left_column(rows as nat, cols) },
        right: BitBoard { bits: left_column(rows as nat, cols) << (((cols - 1) as u32) as u128) },
    }
}

/// Builds the boundary masks of the one rectangular region of a board.
pub fn generate_edge_list(rows: u32, cols: u32) -> (r: Vec<Edges>)
    requires
        1 <= rows,
        1 <= cols,
        rows * cols <= 128,
    ensures
        r@.len() == 1,
        r@[0] == edges_spec(rows, cols),
{
    proof {
        assert(cols <= 128 && rows <= 128) by (nonlinear_arith)
            requires
                1 <= rows && 1 <= cols && rows * cols <= 128,
        ;
    }
    let mut top = BitBoard::new();
    let mut c: u32 = 0;
    while c < cols
        invariant
            c <= cols,
            cols <= 128,
            top.bits == low_ones(c as nat),
        decreases cols - c,
    {
        top = top.or(&BitBoard::from_lsb(c));
        c = c + 1;
    }
    let mut left = BitBoard::new();
    let mut r: u32 = 0;
    let mut pos: u32 = 0;
    while r < rows
        invariant
            r <= rows,
            1 <= cols,
            rows * cols <= 128,
            pos == r * cols,
            left.bits == left_column(r as nat, cols),
        decreases rows - r,
    {
        proof {
            assert((r + 1) * cols <= rows * cols && r * cols == (r + 1) * cols - cols)
                by (nonlinear_arith)
                requires
                    r < rows && 1 <= cols,
            ;
        }
        left = left.or(&BitBoard::from_lsb(pos));
        pos = pos + cols;
        r = r + 1;
    }
    let bottom = top.down(rows - 1, cols);
    let right = left.right(cols - 1);
    let edges = Edges { top, bottom, left, right };
    let mut out: Vec<Edges> = Vec::new();
    out.push(edges);
    out
}

} // verus!
