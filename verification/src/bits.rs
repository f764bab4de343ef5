//! Fixed-capacity bit vectors ("bitboards") and their directional shifts.
//!
//! A board square maps to one bit: bit `i` is the square at row `i / cols`,
//! column `i % cols`, with bit 0 at the top-left. Moving one column right
//! advances one bit; moving one row down advances `cols` bits.
use vstd::prelude::*;

verus! {

/// Bit `i` of `b` (false for `i >= 128`).
pub open spec fn nth(b: u128, i: u128) -> bool {
    i < 128 && (b >> i) & 1 == 1
}

pub broadcast proof fn lemma_nth_and(a: u128, b: u128, i: u128)
    by (bit_vector)
    ensures
        #[trigger] nth(a & b, i) <==> nth(a, i) && nth(b, i),
{
}

pub broadcast proof fn lemma_nth_or(a: u128, b: u128, i: u128)
    by (bit_vector)
    ensures
        #[trigger] nth(a | b, i) <==> nth(a, i) || nth(b, i),
{
}

pub broadcast proof fn lemma_nth_xor(a: u128, b: u128, i: u128)
    by (bit_vector)
    ensures
        #[trigger] nth(a ^ b, i) <==> (nth(a, i) != nth(b, i)) && i < 128,
{
}

pub broadcast proof fn lemma_nth_not(a: u128, i: u128)
    by (bit_vector)
    ensures
        #[trigger] nth(!a, i) <==> i < 128 && !nth(a, i),
{
}

pub broadcast proof fn lemma_nth_shl(a: u128, k: u128, i: u128)
    by (bit_vector)
    ensures
        #[trigger] nth(a << k, i) <==> k <= i < 128 && nth(a, (i - k) as u128),
{
}

pub broadcast proof fn lemma_nth_shr(a: u128, k: u128, i: u128)
    by (bit_vector)
    ensures
        #[trigger] nth(a >> k, i) <==> k < 128 && i + k < 128 && nth(a, (i + k) as u128),
{
}

pub broadcast proof fn lemma_nth_one(k: u128, i: u128)
    by (bit_vector)
    ensures
        #[trigger] nth(1u128 << k, i) <==> k < 128 && i == k,
{
}

pub broadcast proof fn lemma_nth_zero(i: u128)
    by (bit_vector)
    ensures
        !#[trigger] nth(0u128, i),
{
}

/// Intersection with a one-hot word tests that bit.
pub broadcast proof fn lemma_and_one(b: u128, i: u128)
    by (bit_vector)
    ensures
        #[trigger] (b & (1u128 << i)) != 0 <==> nth(b, i),
{
}

/// A non-zero word has at least one set bit.
pub proof fn lemma_nonzero_has_bit(a: u128)
    requires
        a != 0,
    ensures
        exists|i: u128| nth(a, i),
    decreases a,
{
    if a & 1 == 1 {
        assert(nth(a, 0)) by (bit_vector)
            requires
                a & 1 == 1,
        ;
    } else {
        assert(a >> 1 != 0 && a >> 1 < a) by (bit_vector)
            requires
                a != 0 && a & 1 != 1,
        ;
        lemma_nonzero_has_bit(a >> 1);
        let i = choose|i: u128| nth(a >> 1, i);
        broadcast use lemma_nth_shr;

        assert(nth(a, (i + 1) as u128));
    }
}

pub broadcast group group_nth {
    lemma_nth_and,
    lemma_nth_or,
    lemma_nth_xor,
    lemma_nth_not,
    lemma_nth_shl,
    lemma_nth_shr,
    lemma_nth_one,
    lemma_nth_zero,
    lemma_and_one,
}

/// The bit distance of `shift` whole rows: `shift * cols`.
pub open spec fn row_shift(shift: u32, cols: u32) -> u128 {
    (shift * cols) as u128
}

/// The index of the lowest set bit of a non-empty word.
pub open spec fn low_bit(b: u128) -> u128 {
    choose|i: u128| nth(b, i) && forall|j: u128| j < i ==> !nth(b, j)
}

/// The index of the highest set bit of a non-empty word.
pub open spec fn high_bit(b: u128) -> u128 {
    choose|i: u128| nth(b, i) && forall|j: u128| i < j ==> !nth(b, j)
}

/// A witness of the lowest set bit pins `low_bit` down.
pub proof fn lemma_low_bit(b: u128, r: u128)
    requires
        nth(b, r),
        forall|j: u128| j < r ==> !nth(b, j),
    ensures
        low_bit(b) == r,
{
    assert(nth(b, r) && forall|j: u128| j < r ==> !nth(b, j));
    let w = low_bit(b);
    if w != r {
        assert(nth(b, w));
    }
}

/// A witness of the highest set bit pins `high_bit` down.
pub proof fn lemma_high_bit(b: u128, r: u128)
    requires
        nth(b, r),
        forall|j: u128| r < j ==> !nth(b, j),
    ensures
        high_bit(b) == r,
{
    assert(nth(b, r) && forall|j: u128| r < j ==> !nth(b, j));
    let w = high_bit(b);
    if w != r {
        assert(nth(b, w));
    }
}

/// Direction of a bit scan: LEFT finds the lowest set bit, RIGHT the highest.
#[allow(non_camel_case_types)]
#[derive(Clone, Copy, PartialEq, Eq, Structural, Debug)]
pub enum Direction {
    LEFT,
    RIGHT,
}

/// The indices below `n` of the set bits of `b`, in ascending order.
pub open spec fn one_bits(b: u128, n: nat) -> Seq<u32>
    decreases n,
{
    if n == 0 {
        Seq::empty()
    } else if nth(b, (n - 1) as u128) {
        one_bits(b, (n - 1) as nat).push((n - 1) as u32)
    } else {
        one_bits(b, (n - 1) as nat)
    }
}

/// A fixed-capacity bit vector of 128 squares; the value of the board is the
/// word `bits`.
#[derive(Clone, Copy, PartialEq, Eq, Structural, Debug)]
pub struct BitSet {
    pub bits: u128,
}

/// A board's occupancy: one bit per square.
pub type BitBoard = BitSet;

impl BitSet {
    /// The empty bitboard.
    pub fn new() -> (r: BitSet)
        ensures
            r.bits == 0,
    {
        BitSet { bits: 0 }
    }

    pub fn from_element(v: u128) -> (r: BitSet)
        ensures
            r.bits == v,
    {
        BitSet { bits: v }
    }

    /// The one-hot bitboard with only bit `i` set.
    pub fn from_lsb(i: u32) -> (r: BitSet)
        requires
            i < 128,
        ensures
            r.bits == 1u128 << (i as u128),
    {
        BitSet { bits: 1u128 << i }
    }

    pub fn is_empty(&self) -> (r: bool)
        ensures
            r == (self.bits == 0),
    {
        self.bits == 0
    }

    pub fn is_set(&self) -> (r: bool)
        ensures
            r == (self.bits != 0),
    {
        self.bits != 0
    }

    pub fn and(&self, other: &BitSet) -> (r: BitSet)
        ensures
            r.bits == self.bits & other.bits,
    {
        BitSet { bits: self.bits & other.bits }
    }

    pub fn or(&self, other: &BitSet) -> (r: BitSet)
        ensures
            r.bits == self.bits | other.bits,
    {
        BitSet { bits: self.bits | other.bits }
    }

    pub fn xor(&self, other: &BitSet) -> (r: BitSet)
        ensures
            r.bits == self.bits ^ other.bits,
    {
        BitSet { bits: self.bits ^ other.bits }
    }

    /// Bitwise complement over the full 128-bit capacity.
    pub fn invert(&self) -> (r: BitSet)
        ensures
            r.bits == !self.bits,
    {
        BitSet { bits: !self.bits }
    }

    /// The bits of `self` outside `other`.
    pub fn and_not(&self, other: &BitSet) -> (r: BitSet)
        ensures
            r.bits == self.bits & !other.bits,
    {
        BitSet { bits: self.bits & !other.bits }
    }

    /// Unsigned magnitude comparison.
    pub fn ult(&self, other: &BitSet) -> (r: bool)
        ensures
            r == (self.bits < other.bits),
    {
        self.bits < other.bits
    }

    /// Total shift left: shifts of 128 or more give the empty board.
    pub fn shl(&self, k: u32) -> (r: BitSet)
        ensures
            r.bits == self.bits << (k as u128),
    {
        if k >= 128 {
            proof {
                let b = self.bits;
                assert(b << (k as u128) == 0) by (bit_vector)
                    requires
                        k >= 128,
                ;
            }
            BitSet { bits: 0 }
        } else {
            BitSet { bits: self.bits << k }
        }
    }

    /// Total shift right: shifts of 128 or more give the empty board.
    pub fn shr(&self, k: u32) -> (r: BitSet)
        ensures
            r.bits == self.bits >> (k as u128),
    {
        if k >= 128 {
            proof {
                let b = self.bits;
                assert(b >> (k as u128) == 0) by (bit_vector)
                    requires
                        k >= 128,
                ;
            }
            BitSet { bits: 0 }
        } else {
            BitSet { bits: self.bits >> k }
        }
    }

    /// One row toward the top of the board per step: a shift right by
    /// `shift * cols` bits.
    pub fn up(&self, shift: u32, cols: u32) -> (r: BitSet)
        ensures
            r.bits == self.bits >> row_shift(shift, cols),
    {
        proof {
            assert((shift as int) * (cols as int) < 0x1_0000_0000_0000_0000) by (nonlinear_arith)
                requires
                    shift < 0x1_0000_0000 && cols < 0x1_0000_0000,
            ;
        }
        let k: u64 = (shift as u64) * (cols as u64);
        if k >= 128 {
            proof {
                let b = self.bits;
                let kk = row_shift(shift, cols);
                assert(b >> kk == 0) by (bit_vector)
                    requires
                        kk >= 128,
                ;
            }
            BitSet { bits: 0 }
        } else {
            BitSet { bits: self.bits >> (k as u32) }
        }
    }

    /// One row toward the bottom of the board per step: a shift left by
    /// `shift * cols` bits.
    pub fn down(&self, shift: u32, cols: u32) -> (r: BitSet)
        ensures
            r.bits == self.bits << row_shift(shift, cols),
    {
        proof {
            assert((shift as int) * (cols as int) < 0x1_0000_0000_0000_0000) by (nonlinear_arith)
                requires
                    shift < 0x1_0000_0000 && cols < 0x1_0000_0000,
            ;
        }
        let k: u64 = (shift as u64) * (cols as u64);
        if k >= 128 {
            proof {
                let b = self.bits;
                let kk = row_shift(shift, cols);
                assert(b << kk == 0) by (bit_vector)
                    requires
                        kk >= 128,
                ;
            }
            BitSet { bits: 0 }
        } else {
            BitSet { bits: self.bits << (k as u32) }
        }
    }

    /// One column toward the right of the board per step.
    pub fn right(&self, shift: u32) -> (r: BitSet)
        ensures
            r.bits == self.bits << (shift as u128),
    {
        self.shl(shift)
    }

    /// One column toward the left of the board per step.
    pub fn left(&self, shift: u32) -> (r: BitSet)
        ensures
            r.bits == self.bits >> (shift as u128),
    {
        self.shr(shift)
    }

    pub fn up_mut(&mut self, shift: u32, cols: u32)
        ensures
            final(self).bits == old(self).bits >> row_shift(shift, cols),
    {
        *self = self.up(shift, cols);
    }

    pub fn down_mut(&mut self, shift: u32, cols: u32)
        ensures
            final(self).bits == old(self).bits << row_shift(shift, cols),
    {
        *self = self.down(shift, cols);
    }

    pub fn right_mut(&mut self, shift: u32)
        ensures
            final(self).bits == old(self).bits << (shift as u128),
    {
        *self = self.right(shift);
    }

    pub fn left_mut(&mut self, shift: u32)
        ensures
            final(self).bits == old(self).bits >> (shift as u128),
    {
        *self = self.left(shift);
    }

    /// Index of the lowest set bit. Must not be called on an empty board.
    pub fn bitscan_forward(&self) -> (r: u32)
        requires
            self.bits != 0,
        ensures
            r < 128,
            nth(self.bits, r as u128),
            forall|j: u128| j < r ==> !nth(self.bits, j),
    {
        let mut i: u32 = 0;
        while i < 128
            invariant
                i <= 128,
                self.bits != 0,
                forall|j: u128| j < i ==> !nth(self.bits, j),
            decreases 128 - i,
        {
            if (self.bits >> i) & 1 == 1 {
                return i;
            }
            i = i + 1;
        }
        proof {
            lemma_nonzero_has_bit(self.bits);
        }
        unreached()
    }

    /// Index of the highest set bit. Must not be called on an empty board.
    pub fn bitscan_reverse(&self) -> (r: u32)
        requires
            self.bits != 0,
        ensures
            r < 128,
            nth(self.bits, r as u128),
            forall|j: u128| r < j ==> !nth(self.bits, j),
    {
        let mut i: u32 = 128;
        while i > 0
            invariant
                i <= 128,
                self.bits != 0,
                forall|j: u128| i <= j ==> !nth(self.bits, j),
            decreases i,
        {
            i = i - 1;
            if (self.bits >> i) & 1 == 1 {
                return i;
            }
        }
        proof {
            lemma_nonzero_has_bit(self.bits);
        }
        unreached()
    }

    /// Directional bit scan: the lowest set bit for LEFT, the highest for
    /// RIGHT. Must not be called on an empty board.
    pub fn bitscan(&self, dir: Direction) -> (r: u32)
        requires
            self.bits != 0,
        ensures
            r < 128,
            nth(self.bits, r as u128),
            dir == Direction::LEFT ==> forall|j: u128| j < r ==> !nth(self.bits, j),
            dir == Direction::RIGHT ==> forall|j: u128| r < j ==> !nth(self.bits, j),
    {
        match dir {
            Direction::LEFT => self.bitscan_forward(),
            Direction::RIGHT => self.bitscan_reverse(),
        }
    }

    /// The indices of the set bits strictly below `limit`, ascending.
    pub fn iter_one_bits(&self, limit: u32) -> (r: Vec<u32>)
        requires
            limit <= 128,
        ensures
            r@ == one_bits(self.bits, limit as nat),
    {
        let mut r: Vec<u32> = Vec::new();
        let mut i: u32 = 0;
        while i < limit
            invariant
                i <= limit <= 128,
                r@ == one_bits(self.bits, i as nat),
            decreases limit - i,
        {
            if (self.bits >> i) & 1 == 1 {
                r.push(i);
            }
            i = i + 1;
        }
        r
    }
}

/// Every entry of `one_bits` is a set bit below `n`, and every set bit below
/// `n` is an entry; entries are strictly ascending.
pub proof fn lemma_one_bits(b: u128, n: nat)
    requires
        n <= 128,
    ensures
        forall|k: int|
            0 <= k < one_bits(b, n).len() ==> (#[trigger] one_bits(b, n)[k] < n && nth(
                b,
                one_bits(b, n)[k] as u128,
            )),
        forall|i: u128| i < n && nth(b, i) ==> one_bits(b, n).contains(i as u32),
        forall|k1: int, k2: int|
            0 <= k1 < k2 < one_bits(b, n).len() ==> #[trigger] one_bits(b, n)[k1]
                < #[trigger] one_bits(b, n)[k2],
    decreases n,
{
    if n > 0 {
        lemma_one_bits(b, (n - 1) as nat);
        let prev = one_bits(b, (n - 1) as nat);
        let cur = one_bits(b, n);
        if nth(b, (n - 1) as u128) {
            assert(cur == prev.push((n - 1) as u32));
            assert forall|k: int| 0 <= k < cur.len() implies (#[trigger] cur[k] < n && nth(
                b,
                cur[k] as u128,
            )) by {
                if k < prev.len() {
                    assert(cur[k] == prev[k]);
                    assert(prev[k] < (n - 1) as nat && nth(b, prev[k] as u128));
                } else {
                    assert(cur[k] == (n - 1) as u32);
                }
            }
            assert forall|k1: int, k2: int| 0 <= k1 < k2 < cur.len() implies #[trigger] cur[k1]
                < #[trigger] cur[k2] by {
                if k2 < prev.len() {
                    assert(cur[k1] == prev[k1] && cur[k2] == prev[k2]);
                    assert(prev[k1] < prev[k2]);
                } else {
                    assert(cur[k1] == prev[k1] && cur[k2] == (n - 1) as u32);
                    assert(prev[k1] < (n - 1) as nat);
                }
            }
        } else {
            assert(cur == prev);
        }
        assert forall|i: u128| i < n && nth(b, i) implies cur.contains(i as u32) by {
            if i < n - 1 {
                assert(prev.contains(i as u32));
                let k = choose|k: int| 0 <= k < prev.len() && prev[k] == i as u32;
                assert(cur[k] == i as u32);
            } else {
                assert(nth(b, (n - 1) as u128));
                assert(cur[cur.len() - 1] == (n - 1) as u32);
            }
        }
    }
}

} // verus!
