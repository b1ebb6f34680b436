//! Cell-level view of 64-bit board masks.
//!
//! A mask assigns one bit to each of the 64 cells of the board, in row-major
//! order: cell `i` (row `i / 8`, column `i % 8`) is the bit `UPPER_LEFT >> i`.
//! The spec function `occ` reads one cell of a mask; the broadcast lemmas
//! below let the ordinary solver reason about `occ` across the bitwise
//! operators, and `pop64` counts occupied cells.

use vstd::prelude::*;

verus! {

/// The bit of the upper-left cell (cell 0).
pub const UPPER_LEFT: u64 = 0x8000_0000_0000_0000;

/// The mask holding exactly cell `i`, or the empty mask if `i` is out of range.
pub open spec fn cell_bit(i: int) -> u64 {
    if 0 <= i < 64 {
        UPPER_LEFT >> (i as u64)
    } else {
        0u64
    }
}

/// True when cell `i` of `m` is occupied.
pub open spec fn occ(m: u64, i: int) -> bool {
    0 <= i < 64 && m & cell_bit(i) != 0
}

pub broadcast proof fn lemma_occ_and(x: u64, y: u64, i: int)
    ensures
        #[trigger] occ(x & y, i) == (occ(x, i) && occ(y, i)),
{
    if 0 <= i < 64 {
        let iu = i as u64;
        assert(((x & y) & (0x8000_0000_0000_0000u64 >> iu) != 0) == ((x & (0x8000_0000_0000_0000u64
            >> iu) != 0) && (y & (0x8000_0000_0000_0000u64 >> iu) != 0))) by (bit_vector)
            requires
                iu < 64,
        ;
    }
}

pub broadcast proof fn lemma_occ_or(x: u64, y: u64, i: int)
    ensures
        #[trigger] occ(x | y, i) == (occ(x, i) || occ(y, i)),
{
    if 0 <= i < 64 {
        let iu = i as u64;
        assert(((x | y) & (0x8000_0000_0000_0000u64 >> iu) != 0) == ((x & (0x8000_0000_0000_0000u64
            >> iu) != 0) || (y & (0x8000_0000_0000_0000u64 >> iu) != 0))) by (bit_vector)
            requires
                iu < 64,
        ;
    }
}

pub broadcast proof fn lemma_occ_xor(x: u64, y: u64, i: int)
    ensures
        #[trigger] occ(x ^ y, i) == (occ(x, i) != occ(y, i)),
{
    if 0 <= i < 64 {
        let iu = i as u64;
        assert(((x ^ y) & (0x8000_0000_0000_0000u64 >> iu) != 0) == ((x & (0x8000_0000_0000_0000u64
            >> iu) != 0) != (y & (0x8000_0000_0000_0000u64 >> iu) != 0))) by (bit_vector)
            requires
                iu < 64,
        ;
    }
}

pub broadcast proof fn lemma_occ_not(x: u64, i: int)
    ensures
        #[trigger] occ(!x, i) == (0 <= i < 64 && !occ(x, i)),
{
    if 0 <= i < 64 {
        let iu = i as u64;
        assert(((!x) & (0x8000_0000_0000_0000u64 >> iu) != 0) == !(x & (0x8000_0000_0000_0000u64
            >> iu) != 0)) by (bit_vector)
            requires
                iu < 64,
        ;
    }
}

pub broadcast proof fn lemma_occ_zero(i: int)
    ensures
        !(#[trigger] occ(0u64, i)),
{
    if 0 <= i < 64 {
        let iu = i as u64;
        assert(0u64 & (0x8000_0000_0000_0000u64 >> iu) == 0) by (bit_vector);
    }
}

/// Right shift by `s` moves each occupied cell `s` places later in row-major
/// order (wrapping across rows; the board logic masks the wraps away).
pub broadcast proof fn lemma_occ_shr(x: u64, s: u64, i: int)
    ensures
        s < 64 && 0 <= i < 64 ==> (#[trigger] occ(x >> s, i) == occ(x, i - s)),
{
    if s < 64 && 0 <= i < 64 {
        let iu = i as u64;
        if i - s >= 0 {
            let ju = (i - s) as u64;
            assert(((x >> s) & (0x8000_0000_0000_0000u64 >> iu) != 0) == (x & (
            0x8000_0000_0000_0000u64 >> ju) != 0)) by (bit_vector)
                requires
                    iu < 64,
                    s < 64,
                    ju == iu - s,
            ;
        } else {
            assert(((x >> s) & (0x8000_0000_0000_0000u64 >> iu) != 0) == false) by (bit_vector)
                requires
                    iu < 64,
                    s < 64,
                    iu < s,
            ;
        }
    }
}

/// Left shift by `s` moves each occupied cell `s` places earlier.
pub broadcast proof fn lemma_occ_shl(x: u64, s: u64, i: int)
    ensures
        s < 64 && 0 <= i < 64 ==> (#[trigger] occ(x << s, i) == occ(x, i + s)),
{
    if s < 64 && 0 <= i < 64 {
        let iu = i as u64;
        if i + s < 64 {
            let ju = (i + s) as u64;
            assert(((x << s) & (0x8000_0000_0000_0000u64 >> iu) != 0) == (x & (
            0x8000_0000_0000_0000u64 >> ju) != 0)) by (bit_vector)
                requires
                    iu < 64,
                    s < 64,
                    ju == iu + s,
            ;
        } else {
            assert(((x << s) & (0x8000_0000_0000_0000u64 >> iu) != 0) == false) by (bit_vector)
                requires
                    iu < 64,
                    s < 64,
                    iu + s >= 64,
            ;
        }
    }
}

pub broadcast proof fn lemma_occ_cell_bit(i: int, j: int)
    ensures
        #[trigger] occ(cell_bit(i), j) == (0 <= i < 64 && i == j),
{
    if 0 <= i < 64 && 0 <= j < 64 {
        let iu = i as u64;
        let ju = j as u64;
        assert(((0x8000_0000_0000_0000u64 >> iu) & (0x8000_0000_0000_0000u64 >> ju) != 0) == (iu
            == ju)) by (bit_vector)
            requires
                iu < 64,
                ju < 64,
        ;
    } else {
        broadcast use lemma_occ_zero;

    }
}

pub broadcast group group_occ_lemmas {
    lemma_occ_and,
    lemma_occ_or,
    lemma_occ_xor,
    lemma_occ_not,
    lemma_occ_zero,
    lemma_occ_shr,
    lemma_occ_shl,
    lemma_occ_cell_bit,
}

/// Two masks with the same occupied cells are the same mask.
pub proof fn lemma_cells_eq(x: u64, y: u64)
    requires
        forall|i: int| 0 <= i < 64 ==> occ(x, i) == occ(y, i),
    ensures
        x == y,
{
    broadcast use lemma_occ_xor;

    let z = x ^ y;
    if z != 0 {
        lemma_nonzero_has_cell(z);
        let i = choose|i: int| 0 <= i < 64 && occ(z, i);
        assert(occ(x, i) == occ(y, i));
        assert(false);
    }
    assert(x == y) by (bit_vector)
        requires
            x ^ y == 0,
    ;
}

/// A mask other than zero has at least one occupied cell.
pub proof fn lemma_nonzero_has_cell(x: u64)
    requires
        x != 0,
    ensures
        exists|i: int| 0 <= i < 64 && occ(x, i),
    decreases x,
{
    broadcast use group_occ_lemmas;

    if occ(x, 63) {
    } else {
        assert(x & (0x8000_0000_0000_0000u64 >> 63u64) == x & 1) by (bit_vector);
        assert(x >> 1u64 != 0 && x >> 1u64 < x) by (bit_vector)
            requires
                x != 0,
                x & 1 == 0,
        ;
        lemma_nonzero_has_cell(x >> 1);
        let i = choose|i: int| 0 <= i < 64 && occ(x >> 1u64, i);
        assert(occ(x, i - 1));
    }
}

/// Number of occupied cells among those reached within `n` right shifts.
pub open spec fn pop_n(x: u64, n: nat) -> nat
    decreases n,
{
    if n == 0 {
        0
    } else {
        (x & 1) as nat + pop_n(x >> 1u64, (n - 1) as nat)
    }
}

/// Number of occupied cells of a mask.
pub open spec fn pop64(x: u64) -> nat {
    pop_n(x, 64)
}

proof fn lemma_pop_n_or_disjoint(a: u64, b: u64, n: nat)
    requires
        a & b == 0,
    ensures
        pop_n(a | b, n) == pop_n(a, n) + pop_n(b, n),
    decreases n,
{
    if n > 0 {
        assert(((a | b) & 1) == (a & 1) + (b & 1) && ((a | b) >> 1u64) == ((a >> 1u64) | (b
            >> 1u64)) && ((a >> 1u64) & (b >> 1u64)) == 0) by (bit_vector)
            requires
                a & b == 0,
        ;
        lemma_pop_n_or_disjoint(a >> 1u64, b >> 1u64, (n - 1) as nat);
    }
}

proof fn lemma_pop_n_le(x: u64, n: nat)
    ensures
        pop_n(x, n) <= n,
    decreases n,
{
    if n > 0 {
        assert(x & 1 <= 1) by (bit_vector);
        lemma_pop_n_le(x >> 1u64, (n - 1) as nat);
    }
}

/// A mask holds at most 64 cells.
pub proof fn lemma_pop64_le(x: u64)
    ensures
        pop64(x) <= 64,
{
    lemma_pop_n_le(x, 64);
}

/// Disjoint masks have additive cell counts.
pub proof fn lemma_pop64_or_disjoint(a: u64, b: u64)
    requires
        a & b == 0,
    ensures
        pop64(a | b) == pop64(a) + pop64(b),
{
    lemma_pop_n_or_disjoint(a, b, 64);
}

proof fn lemma_pop_n_remove(a: u64, b: u64, n: nat)
    requires
        a & b == b,
    ensures
        pop_n(a & !b, n) + pop_n(b, n) == pop_n(a, n),
    decreases n,
{
    if n > 0 {
        assert(((a & !b) & 1) + (b & 1) == (a & 1) && ((a & !b) >> 1u64) == ((a >> 1u64) & !(b
            >> 1u64)) && ((a >> 1u64) & (b >> 1u64)) == (b >> 1u64)) by (bit_vector)
            requires
                a & b == b,
        ;
        lemma_pop_n_remove(a >> 1u64, b >> 1u64, (n - 1) as nat);
    }
}

/// Removing a submask `b` from `a` lowers the cell count by the count of `b`.
pub proof fn lemma_pop64_remove(a: u64, b: u64)
    requires
        a & b == b,
    ensures
        pop64(a & !b) + pop64(b) == pop64(a),
{
    lemma_pop_n_remove(a, b, 64);
}

/// Counts the occupied cells of a mask.
pub fn popcount(x: u64) -> (n: u32)
    ensures
        n == pop64(x),
{
    let mut cur: u64 = x;
    let mut n: u32 = 0;
    let mut i: u32 = 0;
    proof {
        assert(x >> 0u64 == x) by (bit_vector);
    }
    while i < 64
        invariant
            i <= 64,
            n <= i,
            cur == x >> (i as u64),
            n + pop_n(cur, (64 - i) as nat) == pop64(x),
        decreases 64 - i,
    {
        proof {
            let iu = i as u64;
            assert(cur & 1 <= 1 && (x >> iu) >> 1u64 == x >> ((iu + 1) as u64)) by (bit_vector)
                requires
                    iu < 64,
            ;
        }
        n = n + (cur & 1) as u32;
        cur = cur >> 1u64;
        i = i + 1;
    }
    n
}

} // verus!
