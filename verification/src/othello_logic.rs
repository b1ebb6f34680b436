//! Move legality and stone flipping on 64-bit board masks.
//!
//! The specification is coordinate-level: a move on an empty cell is legal
//! when, in one of the eight compass directions, a non-empty run of opponent
//! stones is followed by a mover stone (`captures_line`).  `legal_move`
//! computes the legal set with the shift-chain bitboard algorithm,
//! `legal_moves_scan` with a per-cell walk; both are proved to return
//! `legal_mask`, the mask of the specification.  `reverse` returns the
//! flipped stones of one move and `put` applies them.

use vstd::prelude::*;

use crate::bits::{cell_bit, group_occ_lemmas, lemma_cells_eq, occ, pop64, UPPER_LEFT};

verus! {

/// Column step of compass direction `d` (0..8).
pub open spec fn dir_dx(d: int) -> int {
    if d == 0 || d == 3 || d == 5 {
        -1
    } else if d == 2 || d == 4 || d == 7 {
        1
    } else {
        0
    }
}

/// Row step of compass direction `d` (0..8).
pub open spec fn dir_dy(d: int) -> int {
    if 0 <= d <= 2 {
        -1
    } else if d == 3 || d == 4 {
        0
    } else {
        1
    }
}

/// Cell reached from cell `i` after `j` steps of `(dx, dy)`, as an index.
pub open spec fn step_cell(i: int, dx: int, dy: int, j: int) -> int {
    (i / 8 + j * dy) * 8 + (i % 8 + j * dx)
}

/// Whether the cell reached from `i` after `j` steps of `(dx, dy)` is on the board.
pub open spec fn step_in_board(i: int, dx: int, dy: int, j: int) -> bool {
    0 <= i % 8 + j * dx < 8 && 0 <= i / 8 + j * dy < 8
}

/// A run of exactly `k` opponent stones next to cell `i` in direction `d`,
/// followed by a mover stone: the line a move on `i` would capture.
pub open spec fn captures_line(p: u64, o: u64, i: int, d: int, k: int) -> bool {
    &&& 1 <= k
    &&& forall|j: int|
        #![trigger step_cell(i, dir_dx(d), dir_dy(d), j)]
        #![trigger step_in_board(i, dir_dx(d), dir_dy(d), j)]
        1 <= j <= k ==> step_in_board(i, dir_dx(d), dir_dy(d), j) && occ(
            o,
            step_cell(i, dir_dx(d), dir_dy(d), j),
        )
    &&& step_in_board(i, dir_dx(d), dir_dy(d), k + 1)
    &&& occ(p, step_cell(i, dir_dx(d), dir_dy(d), k + 1))
}

/// A move on cell `i` is legal for the mover `p` against `o`.
pub open spec fn is_legal(p: u64, o: u64, i: int) -> bool {
    &&& 0 <= i < 64
    &&& !occ(p, i) && !occ(o, i)
    &&& exists|d: int, k: int| 0 <= d < 8 && #[trigger] captures_line(p, o, i, d, k)
}

/// Cell `c` lies on the line captured in direction `d` by a move on cell `i`.
pub open spec fn flips_in_dir(p: u64, o: u64, i: int, d: int, c: int) -> bool {
    exists|k: int, j: int|
        {
            &&& #[trigger] captures_line(p, o, i, d, k)
            &&& 1 <= j <= k
            &&& c == #[trigger] step_cell(i, dir_dx(d), dir_dy(d), j)
        }
}

/// Cell `c` is flipped when the mover `p` plays on cell `i`.
pub open spec fn is_flipped(p: u64, o: u64, i: int, c: int) -> bool {
    exists|d: int| 0 <= d < 8 && #[trigger] flips_in_dir(p, o, i, d, c)
}

/// The mask whose cells below `n` are exactly those satisfying `f`.
pub open spec fn mask_where_upto(f: spec_fn(int) -> bool, n: int) -> u64
    decreases n,
{
    if n <= 0 {
        0u64
    } else {
        mask_where_upto(f, n - 1) | (if f(n - 1) {
            cell_bit(n - 1)
        } else {
            0u64
        })
    }
}

/// The mask whose cells are exactly those satisfying `f`.
pub open spec fn mask_where(f: spec_fn(int) -> bool) -> u64 {
    mask_where_upto(f, 64)
}

proof fn lemma_mask_where_upto_occ(f: spec_fn(int) -> bool, n: int, c: int)
    requires
        0 <= n <= 64,
    ensures
        occ(mask_where_upto(f, n), c) == (0 <= c < n && f(c)),
    decreases n,
{
    broadcast use group_occ_lemmas;

    if n > 0 {
        lemma_mask_where_upto_occ(f, n - 1, c);
    }
}

/// Reads one cell of `mask_where(f)`.
pub proof fn lemma_mask_where_occ(f: spec_fn(int) -> bool, c: int)
    ensures
        occ(mask_where(f), c) == (0 <= c < 64 && f(c)),
{
    lemma_mask_where_upto_occ(f, 64, c);
}

/// The set of legal moves of mover `p` against `o`, as a mask.
pub open spec fn legal_mask(p: u64, o: u64) -> u64 {
    mask_where(|i: int| is_legal(p, o, i))
}

/// The set of stones flipped when the mover `p` plays on cell `i`, as a mask.
pub open spec fn flips_mask(p: u64, o: u64, i: int) -> u64 {
    mask_where(|c: int| is_flipped(p, o, i, c))
}

/// Disjoint masks never occupy the same cell.
pub proof fn lemma_disjoint_cells(p: u64, o: u64, c: int)
    requires
        p & o == 0,
    ensures
        !(occ(p, c) && occ(o, c)),
{
    broadcast use group_occ_lemmas;

    assert(occ(p & o, c) == (occ(p, c) && occ(o, c)));
}

/// Tests one cell of a mask.
pub fn test_cell(m: u64, i: usize) -> (b: bool)
    requires
        i < 64,
    ensures
        b == occ(m, i as int),
{
    m & (UPPER_LEFT >> (i as u64)) != 0
}

/// The column and row steps of compass direction `d`, as runtime values.
fn dir_delta(d: usize) -> (r: (i32, i32))
    requires
        d < 8,
    ensures
        r.0 == dir_dx(d as int),
        r.1 == dir_dy(d as int),
{
    match d {
        0 => (-1, -1),
        1 => (0, -1),
        2 => (1, -1),
        3 => (-1, 0),
        4 => (1, 0),
        5 => (-1, 1),
        6 => (0, 1),
        _ => (1, 1),
    }
}

/// Walks from cell `i` in direction `d` and reports whether the move on `i`
/// would capture a line there.
fn scan_cell_dir(p: u64, o: u64, i: usize, d: usize) -> (b: bool)
    requires
        p & o == 0,
        i < 64,
        d < 8,
    ensures
        b == exists|k: int| captures_line(p, o, i as int, d as int, k),
{
    let ghost dx = dir_dx(d as int);
    let ghost dy = dir_dy(d as int);
    let (dxv, dyv) = dir_delta(d);
    let x0: i32 = (i % 8) as i32;
    let y0: i32 = (i / 8) as i32;
    let mut cx: i32 = x0 + dxv;
    let mut cy: i32 = y0 + dyv;
    let mut j: i32 = 1;
    while 0 <= cx && cx < 8 && 0 <= cy && cy < 8 && test_cell(o, (cy * 8 + cx) as usize)
        invariant
            p & o == 0,
            i < 64,
            d < 8,
            dx == dir_dx(d as int),
            dy == dir_dy(d as int),
            dxv == dx,
            dyv == dy,
            x0 == (i as int) % 8,
            y0 == (i as int) / 8,
            1 <= j <= 8,
            cx == x0 + j * dx,
            cy == y0 + j * dy,
            forall|jj: int|
                1 <= jj < j ==> step_in_board(i as int, dx, dy, jj) && occ(
                    o,
                    #[trigger] step_cell(i as int, dx, dy, jj),
                ),
        decreases 8 - j,
    {
        proof {
            assert(step_in_board(i as int, dx, dy, j as int));
            assert(occ(o, step_cell(i as int, dx, dy, j as int)));
            assert(j < 8) by {
                assert(!(dx == 0 && dy == 0));
            }
        }
        j = j + 1;
        cx = cx + dxv;
        cy = cy + dyv;
    }
    let captured = j >= 2 && 0 <= cx && cx < 8 && 0 <= cy && cy < 8 && test_cell(
        p,
        (cy * 8 + cx) as usize,
    );
    proof {
        if captured {
            assert(captures_line(p, o, i as int, d as int, j - 1));
        } else {
            if exists|k: int| captures_line(p, o, i as int, d as int, k) {
                let k = choose|k: int| captures_line(p, o, i as int, d as int, k);
                if k < j - 1 {
                    assert(occ(o, step_cell(i as int, dx, dy, k + 1)));
                    assert(occ(p, step_cell(i as int, dx, dy, k + 1)));
                    lemma_disjoint_cells(p, o, step_cell(i as int, dx, dy, k + 1));
                    assert(false);
                } else if k > j - 1 {
                    assert(step_in_board(i as int, dx, dy, j as int) && occ(
                        o,
                        step_cell(i as int, dx, dy, j as int),
                    ));
                    assert(false);
                } else {
                    assert(false);
                }
            }
        }
    }
    captured
}

/// Per-cell legal-move computation: for each empty cell, walk the eight
/// directions and look for a captured line.
pub fn legal_moves_scan(player: u64, opponent: u64) -> (r: u64)
    requires
        player & opponent == 0,
    ensures
        r == legal_mask(player, opponent),
        forall|i: int| #[trigger] occ(r, i) == is_legal(player, opponent, i),
{
    let mut r: u64 = 0;
    let mut i: usize = 0;
    proof {
        broadcast use group_occ_lemmas;

    }
    while i < 64
        invariant
            player & opponent == 0,
            i <= 64,
            forall|c: int| #[trigger] occ(r, c) == (c < i && is_legal(player, opponent, c)),
        decreases 64 - i,
    {
        let empty = !test_cell(player, i) && !test_cell(opponent, i);
        let mut found = false;
        if empty {
            let mut d: usize = 0;
            while d < 8
                invariant
                    player & opponent == 0,
                    i < 64,
                    d <= 8,
                    found == exists|dd: int, k: int|
                        0 <= dd < d && #[trigger] captures_line(player, opponent, i as int, dd, k),
                decreases 8 - d,
            {
                let hit = scan_cell_dir(player, opponent, i, d);
                proof {
                    if hit {
                        let k = choose|k: int| captures_line(player, opponent, i as int, d as int, k);
                        assert(captures_line(player, opponent, i as int, d as int, k));
                    }
                }
                found = found || hit;
                d = d + 1;
            }
        }
        let old_r: Ghost<u64> = Ghost(r);
        if found {
            r = r | (UPPER_LEFT >> (i as u64));
            proof {
                broadcast use group_occ_lemmas;

                assert(is_legal(player, opponent, i as int));
                assert forall|c: int| #[trigger] occ(r, c) == (c < i + 1 && is_legal(
                    player,
                    opponent,
                    c,
                )) by {
                    assert(occ(r, c) == (occ(old_r@, c) || occ(cell_bit(i as int), c)));
                }
            }
        } else {
            proof {
                assert(!is_legal(player, opponent, i as int));
                assert forall|c: int| #[trigger] occ(r, c) == (c < i + 1 && is_legal(
                    player,
                    opponent,
                    c,
                )) by {}
            }
        }
        i = i + 1;
    }
    proof {
        assert forall|c: int| #[trigger] occ(r, c) == is_legal(player, opponent, c) by {}
        assert forall|c: int| #[trigger] occ(legal_mask(player, opponent), c) == occ(r, c) by {
            lemma_mask_where_occ(|i: int| is_legal(player, opponent, i), c);
        }
        lemma_cells_eq(r, legal_mask(player, opponent));
    }
    r
}

/// Cell reached from cell `i` after `j` steps of `delta` cells in row-major
/// index order.
pub open spec fn ray_cell(i: int, delta: int, j: int) -> int {
    i + j * delta
}

/// A run of `k` cells of `m` starting `delta` after `i`, then a cell of `p`:
/// the index-space form of a captured line, before wraparound is ruled out.
pub open spec fn captured_ray(p: u64, m: u64, delta: int, i: int, k: int) -> bool {
    &&& 1 <= k
    &&& forall|j: int| 1 <= j <= k ==> occ(m, #[trigger] ray_cell(i, delta, j))
    &&& occ(p, ray_cell(i, delta, k + 1))
}

/// A run of `k` cells of `m` starting at `c` itself, then a cell of `p`.
pub open spec fn run_to_player(p: u64, m: u64, delta: int, c: int, k: int) -> bool {
    &&& 1 <= k
    &&& forall|j: int| 0 <= j < k ==> occ(m, #[trigger] ray_cell(c, delta, j))
    &&& occ(p, ray_cell(c, delta, k))
}

proof fn lemma_ray_shift(i: int, delta: int, j: int)
    ensures
        ray_cell(i + delta, delta, j) == ray_cell(i, delta, j + 1),
{
    assert((j + 1) * delta == j * delta + delta) by (nonlinear_arith);
}

proof fn lemma_ray_run(p: u64, m: u64, delta: int, i: int, k: int)
    requires
        1 <= k,
    ensures
        captured_ray(p, m, delta, i, k) == run_to_player(p, m, delta, i + delta, k),
{
    if captured_ray(p, m, delta, i, k) {
        assert forall|j: int| 0 <= j < k implies occ(m, #[trigger] ray_cell(i + delta, delta, j)) by {
            lemma_ray_shift(i, delta, j);
            assert(occ(m, ray_cell(i, delta, j + 1)));
        }
        assert(occ(p, ray_cell(i + delta, delta, k))) by {
            lemma_ray_shift(i, delta, k);
            assert(occ(p, ray_cell(i, delta, k + 1)));
        }
    }
    if run_to_player(p, m, delta, i + delta, k) {
        assert forall|j: int| 1 <= j <= k implies occ(m, #[trigger] ray_cell(i, delta, j)) by {
            lemma_ray_shift(i, delta, j - 1);
            assert(occ(m, ray_cell(i + delta, delta, j - 1)));
        }
        assert(occ(p, ray_cell(i, delta, k + 1))) by {
            lemma_ray_shift(i, delta, k);
            assert(occ(p, ray_cell(i + delta, delta, k)));
        }
    }
}

proof fn lemma_run_extend(p: u64, m: u64, delta: int, c: int, k: int)
    requires
        occ(m, c),
        run_to_player(p, m, delta, c + delta, k),
    ensures
        run_to_player(p, m, delta, c, k + 1),
{
    assert forall|j: int| 0 <= j < k + 1 implies occ(m, #[trigger] ray_cell(c, delta, j)) by {
        if j == 0 {
            assert(ray_cell(c, delta, 0) == c);
        } else {
            lemma_ray_shift(c, delta, j - 1);
            assert(occ(m, ray_cell(c + delta, delta, j - 1)));
        }
    }
    assert(occ(p, ray_cell(c, delta, k + 1))) by {
        lemma_ray_shift(c, delta, k);
        assert(occ(p, ray_cell(c + delta, delta, k)));
    }
}

proof fn lemma_run_shrink(p: u64, m: u64, delta: int, c: int, k: int)
    requires
        run_to_player(p, m, delta, c, k),
        k >= 2,
    ensures
        occ(m, c),
        run_to_player(p, m, delta, c + delta, k - 1),
{
    assert(occ(m, ray_cell(c, delta, 0)));
    assert forall|j: int| 0 <= j < k - 1 implies occ(m, #[trigger] ray_cell(c + delta, delta, j)) by {
        lemma_ray_shift(c, delta, j);
        assert(occ(m, ray_cell(c, delta, j + 1)));
    }
    assert(occ(p, ray_cell(c + delta, delta, k - 1))) by {
        lemma_ray_shift(c, delta, k - 1);
        assert(occ(p, ray_cell(c, delta, k)));
    }
}

/// One direction of the shift-chain algorithm, for the four directions that
/// shift toward higher cell indices (`delta == -(s as int)` on cells).
fn chain_shr(player: u64, opponent: u64, dmask: u64, s: u64) -> (cand: u64)
    requires
        1 <= s <= 9,
    ensures
        forall|i: int|
            0 <= i < 64 ==> (#[trigger] occ(cand, i) == exists|k: int|
                1 <= k <= 6 && #[trigger] captured_ray(player, dmask & opponent, -(s as int), i, k)),
{
    let ghost delta: int = -(s as int);
    let m = dmask & opponent;
    let mut bits = m & (player >> s);
    proof {
        broadcast use group_occ_lemmas;

        assert forall|i: int| #[trigger] occ(bits, i) == exists|k: int|
            1 <= k <= 1 && #[trigger] run_to_player(player, m, delta, i, k) by {
            assert(occ(bits, i) == (occ(m, i) && occ(player, i - s)));
            if occ(m, i) && occ(player, i - s) {
                assert forall|j: int| 0 <= j < 1 implies occ(
                    m,
                    #[trigger] ray_cell(i, delta, j),
                ) by {}
                assert(occ(player, ray_cell(i, delta, 1)));
                assert(run_to_player(player, m, delta, i, 1));
            }
            if exists|k: int| 1 <= k <= 1 && #[trigger] run_to_player(player, m, delta, i, k) {
                assert(occ(m, ray_cell(i, delta, 0)));
                assert(occ(player, ray_cell(i, delta, 1)));
            }
        }
    }
    let mut t: u32 = 1;
    while t < 6
        invariant
            1 <= s <= 9,
            delta == -(s as int),
            m == dmask & opponent,
            1 <= t <= 6,
            forall|i: int|
                #[trigger] occ(bits, i) == exists|k: int|
                    1 <= k <= t && #[trigger] run_to_player(player, m, delta, i, k),
        decreases 6 - t,
    {
        let ghost old_bits = bits;
        bits = bits | (m & (bits >> s));
        proof {
            broadcast use group_occ_lemmas;

            assert forall|i: int| #[trigger] occ(bits, i) == exists|k: int|
                1 <= k <= t + 1 && #[trigger] run_to_player(player, m, delta, i, k) by {
                assert(occ(bits, i) == (occ(old_bits, i) || (occ(m, i) && occ(old_bits, i - s))));
                if occ(bits, i) {
                    if occ(old_bits, i) {
                        let k = choose|k: int|
                            1 <= k <= t && #[trigger] run_to_player(player, m, delta, i, k);
                        assert(1 <= k <= t + 1 && run_to_player(player, m, delta, i, k));
                    } else {
                        let k = choose|k: int|
                            1 <= k <= t && #[trigger] run_to_player(player, m, delta, i - s, k);
                        lemma_run_extend(player, m, delta, i, k);
                        assert(1 <= k + 1 <= t + 1 && run_to_player(player, m, delta, i, k + 1));
                    }
                }
                if exists|k: int| 1 <= k <= t + 1 && run_to_player(player, m, delta, i, k) {
                    let k = choose|k: int|
                        1 <= k <= t + 1 && #[trigger] run_to_player(player, m, delta, i, k);
                    if k <= t {
                        assert(occ(old_bits, i));
                    } else {
                        lemma_run_shrink(player, m, delta, i, k);
                        assert(run_to_player(player, m, delta, i - s, k - 1));
                        assert(occ(old_bits, i - s));
                        assert(occ(m, i));
                    }
                }
            }
        }
        t = t + 1;
    }
    let cand = bits >> s;
    proof {
        broadcast use group_occ_lemmas;

        assert forall|i: int| 0 <= i < 64 implies #[trigger] occ(cand, i) == exists|k: int|
            1 <= k <= 6 && #[trigger] captured_ray(player, dmask & opponent, delta, i, k) by {
            assert(occ(cand, i) == occ(bits, i - s));
            if occ(bits, i - s) {
                let k = choose|k: int| 1 <= k <= 6 && #[trigger] run_to_player(player, m, delta, i - s, k);
                lemma_ray_run(player, m, delta, i, k);
                assert(captured_ray(player, m, delta, i, k));
            }
            if exists|k: int| 1 <= k <= 6 && #[trigger] captured_ray(player, m, delta, i, k) {
                let k = choose|k: int| 1 <= k <= 6 && #[trigger] captured_ray(player, m, delta, i, k);
                lemma_ray_run(player, m, delta, i, k);
                assert(run_to_player(player, m, delta, i - s, k));
            }
        }
    }
    cand
}

/// One direction of the shift-chain algorithm, for the four directions that
/// shift toward lower cell indices (`delta == s as int` on cells).
fn chain_shl(player: u64, opponent: u64, dmask: u64, s: u64) -> (cand: u64)
    requires
        1 <= s <= 9,
    ensures
        forall|i: int|
            0 <= i < 64 ==> (#[trigger] occ(cand, i) == exists|k: int|
                1 <= k <= 6 && #[trigger] captured_ray(player, dmask & opponent, s as int, i, k)),
{
    let ghost delta: int = s as int;
    let m = dmask & opponent;
    let mut bits = m & (player << s);
    proof {
        broadcast use group_occ_lemmas;

        assert forall|i: int| #[trigger] occ(bits, i) == exists|k: int|
            1 <= k <= 1 && #[trigger] run_to_player(player, m, delta, i, k) by {
            assert(occ(bits, i) == (occ(m, i) && occ(player, i + s)));
            if occ(m, i) && occ(player, i + s) {
                assert forall|j: int| 0 <= j < 1 implies occ(
                    m,
                    #[trigger] ray_cell(i, delta, j),
                ) by {}
                assert(occ(player, ray_cell(i, delta, 1)));
                assert(run_to_player(player, m, delta, i, 1));
            }
            if exists|k: int| 1 <= k <= 1 && #[trigger] run_to_player(player, m, delta, i, k) {
                assert(occ(m, ray_cell(i, delta, 0)));
                assert(occ(player, ray_cell(i, delta, 1)));
            }
        }
    }
    let mut t: u32 = 1;
    while t < 6
        invariant
            1 <= s <= 9,
            delta == s as int,
            m == dmask & opponent,
            1 <= t <= 6,
            forall|i: int|
                #[trigger] occ(bits, i) == exists|k: int|
                    1 <= k <= t && #[trigger] run_to_player(player, m, delta, i, k),
        decreases 6 - t,
    {
        let ghost old_bits = bits;
        bits = bits | (m & (bits << s));
        proof {
            broadcast use group_occ_lemmas;

            assert forall|i: int| #[trigger] occ(bits, i) == exists|k: int|
                1 <= k <= t + 1 && #[trigger] run_to_player(player, m, delta, i, k) by {
                assert(occ(bits, i) == (occ(old_bits, i) || (occ(m, i) && occ(old_bits, i + s))));
                if occ(bits, i) {
                    if occ(old_bits, i) {
                        let k = choose|k: int|
                            1 <= k <= t && #[trigger] run_to_player(player, m, delta, i, k);
                        assert(1 <= k <= t + 1 && run_to_player(player, m, delta, i, k));
                    } else {
                        let k = choose|k: int|
                            1 <= k <= t && #[trigger] run_to_player(player, m, delta, i + s, k);
                        lemma_run_extend(player, m, delta, i, k);
                        assert(1 <= k + 1 <= t + 1 && run_to_player(player, m, delta, i, k + 1));
                    }
                }
                if exists|k: int| 1 <= k <= t + 1 && run_to_player(player, m, delta, i, k) {
                    let k = choose|k: int|
                        1 <= k <= t + 1 && #[trigger] run_to_player(player, m, delta, i, k);
                    if k <= t {
                        assert(occ(old_bits, i));
                    } else {
                        lemma_run_shrink(player, m, delta, i, k);
                        assert(run_to_player(player, m, delta, i + s, k - 1));
                        assert(occ(old_bits, i + s));
                        assert(occ(m, i));
                    }
                }
            }
        }
        t = t + 1;
    }
    let cand = bits << s;
    proof {
        broadcast use group_occ_lemmas;

        assert forall|i: int| 0 <= i < 64 implies #[trigger] occ(cand, i) == exists|k: int|
            1 <= k <= 6 && #[trigger] captured_ray(player, dmask & opponent, delta, i, k) by {
            assert(occ(cand, i) == occ(bits, i + s));
            if occ(bits, i + s) {
                let k = choose|k: int| 1 <= k <= 6 && #[trigger] run_to_player(player, m, delta, i + s, k);
                lemma_ray_run(player, m, delta, i, k);
                assert(captured_ray(player, m, delta, i, k));
            }
            if exists|k: int| 1 <= k <= 6 && #[trigger] captured_ray(player, m, delta, i, k) {
                let k = choose|k: int| 1 <= k <= 6 && #[trigger] captured_ray(player, m, delta, i, k);
                lemma_ray_run(player, m, delta, i, k);
                assert(run_to_player(player, m, delta, i + s, k));
            }
        }
    }
    cand
}

proof fn lemma_decomp(q: int, r: int)
    requires
        0 <= r < 8,
    ensures
        (8 * q + r) % 8 == r,
        (8 * q + r) / 8 == q,
{
    vstd::arithmetic::div_mod::lemma_fundamental_div_mod_converse(8 * q + r, 8, q, r);
}

proof fn lemma_mul_succ(j: int, d: int)
    ensures
        (j + 1) * d == j * d + d,
{
    assert((j + 1) * d == j * d + d) by (nonlinear_arith);
}

proof fn lemma_step_is_ray(i: int, dx: int, dy: int, j: int)
    ensures
        step_cell(i, dx, dy, j) == ray_cell(i, 8 * dy + dx, j),
{
    assert(j * (8 * dy + dx) == 8 * (j * dy) + j * dx) by (nonlinear_arith);
}

/// The bound on a direction mask: every cell of the mask is interior along
/// the axes the direction moves on.
pub open spec fn dir_mask_bound(mask: u64, dx: int, dy: int) -> bool {
    forall|c: int|
        0 <= c < 64 ==> (#[trigger] occ(mask, c) <==> ((dx == 0 || 1 <= c % 8 <= 6) && (dy == 0 || 1
            <= c / 8 <= 6)))
}

proof fn lemma_mask_h(c: int)
    requires
        0 <= c < 64,
    ensures
        occ(0x7e7e7e7e7e7e7e7eu64, c) == (1 <= c % 8 <= 6),
{
    let cu = c as u64;
    assert((0x7e7e7e7e7e7e7e7eu64 & (0x8000_0000_0000_0000u64 >> cu) != 0) == (1 <= cu % 8 && cu
        % 8 <= 6)) by (bit_vector)
        requires
            cu < 64,
    ;
}

proof fn lemma_mask_v(c: int)
    requires
        0 <= c < 64,
    ensures
        occ(0x00ffffffffffff00u64, c) == (1 <= c / 8 <= 6),
{
    let cu = c as u64;
    assert((0x00ffffffffffff00u64 & (0x8000_0000_0000_0000u64 >> cu) != 0) == (1 <= cu / 8 && cu
        / 8 <= 6)) by (bit_vector)
        requires
            cu < 64,
    ;
}

proof fn lemma_mask_d(c: int)
    requires
        0 <= c < 64,
    ensures
        occ(0x007e7e7e7e7e7e00u64, c) == (1 <= c % 8 <= 6 && 1 <= c / 8 <= 6),
{
    let cu = c as u64;
    assert((0x007e7e7e7e7e7e00u64 & (0x8000_0000_0000_0000u64 >> cu) != 0) == (1 <= cu % 8 && cu
        % 8 <= 6 && 1 <= cu / 8 && cu / 8 <= 6)) by (bit_vector)
        requires
            cu < 64,
    ;
}

/// The cell `j` steps along a ray sits where the direction's coordinate
/// line says, and on the board.
pub open spec fn ray_coords_ok(dx: int, dy: int, i: int, j: int) -> bool {
    &&& 0 <= i % 8 + j * dx < 8
    &&& 0 <= i / 8 + j * dy < 8
    &&& ray_cell(i, 8 * dy + dx, j) % 8 == i % 8 + j * dx
    &&& ray_cell(i, 8 * dy + dx, j) / 8 == i / 8 + j * dy
}

/// Cells of a masked ray keep to the direction's coordinate line: the mask
/// bound rules wraparound out.
proof fn lemma_ray_coords(mask: u64, dx: int, dy: int, i: int, n: int)
    requires
        -1 <= dx <= 1,
        -1 <= dy <= 1,
        !(dx == 0 && dy == 0),
        0 <= i < 64,
        0 <= n,
        dir_mask_bound(mask, dx, dy),
        forall|j: int| 1 <= j <= n ==> occ(mask, #[trigger] ray_cell(i, 8 * dy + dx, j)),
    ensures
        forall|j: int| 0 <= j <= n ==> #[trigger] ray_coords_ok(dx, dy, i, j),
    decreases n,
{
    let delta = 8 * dy + dx;
    if n == 0 {
        assert forall|j: int| 0 <= j <= n implies #[trigger] ray_coords_ok(dx, dy, i, j) by {
            assert(j * dx == 0 && j * dy == 0 && j * (8 * dy + dx) == 0) by (nonlinear_arith)
                requires
                    j == 0,
            ;
            assert(ray_cell(i, delta, 0) == i);
        }
    } else {
        lemma_ray_coords(mask, dx, dy, i, n - 1);
        assert(ray_coords_ok(dx, dy, i, n - 1));
        let cp = ray_cell(i, delta, n - 1);
        let xp = i % 8 + (n - 1) * dx;
        let yp = i / 8 + (n - 1) * dy;
        assert(cp == 8 * yp + xp);
        let cn = ray_cell(i, delta, n);
        assert(cn == cp + delta) by {
            lemma_mul_succ(n - 1, delta);
        }
        assert(occ(mask, cn));
        assert(0 <= cn < 64);
        assert(xp + dx == i % 8 + n * dx && yp + dy == i / 8 + n * dy) by {
            lemma_mul_succ(n - 1, dx);
            lemma_mul_succ(n - 1, dy);
        }
        if xp + dx == -1 {
            lemma_decomp(yp + dy - 1, 7);
            assert(cn % 8 == 7);
            assert(false);
        } else if xp + dx == 8 {
            lemma_decomp(yp + dy + 1, 0);
            assert(cn % 8 == 0);
            assert(false);
        } else {
            lemma_decomp(yp + dy, xp + dx);
            assert(cn % 8 == xp + dx && cn / 8 == yp + dy);
        }
        assert(ray_coords_ok(dx, dy, i, n));
        assert forall|j: int| 0 <= j <= n implies #[trigger] ray_coords_ok(dx, dy, i, j) by {}
    }
}

/// Builds a captured line from its parts: the opponent run and the mover
/// stone beyond it.
proof fn lemma_captures_intro(p: u64, o: u64, i: int, d: int, k: int)
    requires
        1 <= k,
        forall|j: int|
            #![trigger step_cell(i, dir_dx(d), dir_dy(d), j)]
            #![trigger step_in_board(i, dir_dx(d), dir_dy(d), j)]
            1 <= j <= k ==> step_in_board(i, dir_dx(d), dir_dy(d), j) && occ(
                o,
                step_cell(i, dir_dx(d), dir_dy(d), j),
            ),
        step_in_board(i, dir_dx(d), dir_dy(d), k + 1),
        occ(p, step_cell(i, dir_dx(d), dir_dy(d), k + 1)),
    ensures
        captures_line(p, o, i, d, k),
{
}

/// A masked index-space ray is a coordinate-space captured line.
#[verifier::rlimit(30)]
#[verifier::spinoff_prover]
proof fn lemma_ray_to_captures(p: u64, o: u64, mask: u64, d: int, i: int, k: int)
    requires
        0 <= d < 8,
        0 <= i < 64,
        dir_mask_bound(mask, dir_dx(d), dir_dy(d)),
        captured_ray(p, mask & o, 8 * dir_dy(d) + dir_dx(d), i, k),
    ensures
        captures_line(p, o, i, d, k),
{
    assert forall|j: int|
        1 <= j <= k implies occ(mask, #[trigger] ray_cell(i, 8 * dir_dy(d) + dir_dx(d), j)) && occ(
        o,
        ray_cell(i, 8 * dir_dy(d) + dir_dx(d), j),
    ) by {
        broadcast use group_occ_lemmas;

        assert(occ(mask & o, ray_cell(i, 8 * dir_dy(d) + dir_dx(d), j)));
    }
    lemma_ray_coords(mask, dir_dx(d), dir_dy(d), i, k);
    assert forall|j: int|
        #![trigger step_cell(i, dir_dx(d), dir_dy(d), j)]
        #![trigger step_in_board(i, dir_dx(d), dir_dy(d), j)]
        1 <= j <= k implies step_in_board(i, dir_dx(d), dir_dy(d), j) && occ(
        o,
        step_cell(i, dir_dx(d), dir_dy(d), j),
    ) by {
        assert(ray_coords_ok(dir_dx(d), dir_dy(d), i, j));
        lemma_step_is_ray(i, dir_dx(d), dir_dy(d), j);
        assert(occ(o, ray_cell(i, 8 * dir_dy(d) + dir_dx(d), j)));
    }
    // The mover stone one step beyond the run: the run's last cell is
    // interior along the moved axes, so the next index is its neighbour.
    let ck = ray_cell(i, 8 * dir_dy(d) + dir_dx(d), k);
    let xk = i % 8 + k * dir_dx(d);
    let yk = i / 8 + k * dir_dy(d);
    assert(ray_coords_ok(dir_dx(d), dir_dy(d), i, k));
    assert(occ(mask, ck));
    assert(ck == 8 * yk + xk);
    assert(ray_cell(i, 8 * dir_dy(d) + dir_dx(d), k + 1) == ck + 8 * dir_dy(d) + dir_dx(d)) by {
        lemma_mul_succ(k, 8 * dir_dy(d) + dir_dx(d));
    }
    assert(xk + dir_dx(d) == i % 8 + (k + 1) * dir_dx(d) && yk + dir_dy(d) == i / 8 + (k + 1)
        * dir_dy(d)) by {
        lemma_mul_succ(k, dir_dx(d));
        lemma_mul_succ(k, dir_dy(d));
    }
    assert(0 <= xk + dir_dx(d) <= 7);
    assert(0 <= yk + dir_dy(d) <= 7) by {
        if dir_dy(d) != 0 {
            assert(1 <= ck / 8 <= 6);
        }
    }
    lemma_decomp(yk + dir_dy(d), xk + dir_dx(d));
    assert(step_in_board(i, dir_dx(d), dir_dy(d), k + 1));
    assert(occ(p, step_cell(i, dir_dx(d), dir_dy(d), k + 1))) by {
        lemma_step_is_ray(i, dir_dx(d), dir_dy(d), k + 1);
    }
    lemma_captures_intro(p, o, i, d, k);
}

/// A coordinate-space captured line is a masked index-space ray, and is at
/// most six stones long.
proof fn lemma_captures_to_ray(p: u64, o: u64, mask: u64, d: int, i: int, k: int)
    requires
        0 <= d < 8,
        0 <= i < 64,
        dir_mask_bound(mask, dir_dx(d), dir_dy(d)),
        captures_line(p, o, i, d, k),
    ensures
        1 <= k <= 6,
        captured_ray(p, mask & o, 8 * dir_dy(d) + dir_dx(d), i, k),
{
    broadcast use group_occ_lemmas;

    let dx = dir_dx(d);
    let dy = dir_dy(d);
    let delta = 8 * dy + dx;
    assert(step_in_board(i, dx, dy, 1) && step_in_board(i, dx, dy, k + 1));
    assert(k <= 6) by {
        if dx == 1 {
            assert(0 <= i % 8 + (k + 1) * dx < 8);
        } else if dx == -1 {
            assert(0 <= i % 8 + (k + 1) * dx < 8);
        } else {
            assert(0 <= i / 8 + (k + 1) * dy < 8);
        }
    }
    assert forall|j: int| 1 <= j <= k implies occ(mask & o, #[trigger] ray_cell(i, delta, j)) by {
        lemma_step_is_ray(i, dx, dy, j);
        assert(step_in_board(i, dx, dy, j) && occ(o, step_cell(i, dx, dy, j)));
        let xj = i % 8 + j * dx;
        let yj = i / 8 + j * dy;
        assert(1 <= xj <= 6 || dx == 0) by {
            if dx == 1 {
                assert(i % 8 + (k + 1) * dx < 8);
                assert(xj <= i % 8 + (k + 1) - (k + 1 - j)) by {
                    assert((k + 1) * dx == k + 1 && j * dx == j);
                }
            } else if dx == -1 {
                assert(0 <= i % 8 + (k + 1) * dx);
                assert((k + 1) * dx == -(k + 1) && j * dx == -j);
            }
        }
        assert(1 <= yj <= 6 || dy == 0) by {
            if dy == 1 {
                assert((k + 1) * dy == k + 1 && j * dy == j);
            } else if dy == -1 {
                assert((k + 1) * dy == -(k + 1) && j * dy == -j);
            }
        }
        let cj = step_cell(i, dx, dy, j);
        assert(cj == 8 * yj + xj);
        assert(0 <= cj < 64);
        lemma_decomp(yj, xj);
        assert(occ(mask, cj));
    }
    assert(occ(p, ray_cell(i, delta, k + 1))) by {
        lemma_step_is_ray(i, dx, dy, k + 1);
    }
}

/// Index-space rays and coordinate-space captured lines exist together.
proof fn lemma_dir_equiv(p: u64, o: u64, mask: u64, d: int, delta: int, i: int)
    requires
        0 <= d < 8,
        0 <= i < 64,
        delta == 8 * dir_dy(d) + dir_dx(d),
        dir_mask_bound(mask, dir_dx(d), dir_dy(d)),
    ensures
        (exists|k: int| 1 <= k <= 6 && #[trigger] captured_ray(p, mask & o, delta, i, k)) <==> (
        exists|k: int| #[trigger] captures_line(p, o, i, d, k)),
{
    if exists|k: int| 1 <= k <= 6 && #[trigger] captured_ray(p, mask & o, delta, i, k) {
        let k = choose|k: int| 1 <= k <= 6 && #[trigger] captured_ray(p, mask & o, delta, i, k);
        lemma_ray_to_captures(p, o, mask, d, i, k);
        assert(captures_line(p, o, i, d, k));
    }
    if exists|k: int| #[trigger] captures_line(p, o, i, d, k) {
        let k = choose|k: int| #[trigger] captures_line(p, o, i, d, k);
        lemma_captures_to_ray(p, o, mask, d, i, k);
        assert(1 <= k <= 6 && captured_ray(p, mask & o, delta, i, k));
    }
}

proof fn lemma_bound_h()
    ensures
        dir_mask_bound(0x7e7e7e7e7e7e7e7eu64, -1, 0),
        dir_mask_bound(0x7e7e7e7e7e7e7e7eu64, 1, 0),
{
    assert forall|c: int|
        0 <= c < 64 implies (#[trigger] occ(0x7e7e7e7e7e7e7e7eu64, c) <==> 1 <= c % 8 <= 6) by {
        lemma_mask_h(c);
    }
}

proof fn lemma_bound_v()
    ensures
        dir_mask_bound(0x00ffffffffffff00u64, 0, -1),
        dir_mask_bound(0x00ffffffffffff00u64, 0, 1),
{
    assert forall|c: int|
        0 <= c < 64 implies (#[trigger] occ(0x00ffffffffffff00u64, c) <==> 1 <= c / 8 <= 6) by {
        lemma_mask_v(c);
    }
}

proof fn lemma_bound_d()
    ensures
        dir_mask_bound(0x007e7e7e7e7e7e00u64, -1, -1),
        dir_mask_bound(0x007e7e7e7e7e7e00u64, 1, -1),
        dir_mask_bound(0x007e7e7e7e7e7e00u64, -1, 1),
        dir_mask_bound(0x007e7e7e7e7e7e00u64, 1, 1),
{
    assert forall|c: int|
        0 <= c < 64 implies (#[trigger] occ(0x007e7e7e7e7e7e00u64, c) <==> (1 <= c % 8 <= 6 && 1
            <= c / 8 <= 6)) by {
        lemma_mask_d(c);
    }
}

/// A cell is legal exactly when some of the eight masked rays captures.
proof fn lemma_legal_assemble(player: u64, opponent: u64, i: int)
    requires
        player & opponent == 0,
        0 <= i < 64,
    ensures
        is_legal(player, opponent, i) <==> (!occ(player, i) && !occ(opponent, i) && (
        (exists|k: int|
            1 <= k <= 6 && #[trigger] captured_ray(
                player,
                0x007e7e7e7e7e7e00u64 & opponent,
                -9,
                i,
                k,
            )) || (exists|k: int|
            1 <= k <= 6 && #[trigger] captured_ray(
                player,
                0x00ffffffffffff00u64 & opponent,
                -8,
                i,
                k,
            )) || (exists|k: int|
            1 <= k <= 6 && #[trigger] captured_ray(
                player,
                0x007e7e7e7e7e7e00u64 & opponent,
                -7,
                i,
                k,
            )) || (exists|k: int|
            1 <= k <= 6 && #[trigger] captured_ray(
                player,
                0x7e7e7e7e7e7e7e7eu64 & opponent,
                -1,
                i,
                k,
            )) || (exists|k: int|
            1 <= k <= 6 && #[trigger] captured_ray(
                player,
                0x7e7e7e7e7e7e7e7eu64 & opponent,
                1,
                i,
                k,
            )) || (exists|k: int|
            1 <= k <= 6 && #[trigger] captured_ray(
                player,
                0x007e7e7e7e7e7e00u64 & opponent,
                7,
                i,
                k,
            )) || (exists|k: int|
            1 <= k <= 6 && #[trigger] captured_ray(
                player,
                0x00ffffffffffff00u64 & opponent,
                8,
                i,
                k,
            )) || (exists|k: int|
            1 <= k <= 6 && #[trigger] captured_ray(
                player,
                0x007e7e7e7e7e7e00u64 & opponent,
                9,
                i,
                k,
            )))),
{
    lemma_bound_h();
    lemma_bound_v();
    lemma_bound_d();
    lemma_dir_equiv(player, opponent, 0x007e7e7e7e7e7e00u64, 0, -9, i);
    lemma_dir_equiv(player, opponent, 0x00ffffffffffff00u64, 1, -8, i);
    lemma_dir_equiv(player, opponent, 0x007e7e7e7e7e7e00u64, 2, -7, i);
    lemma_dir_equiv(player, opponent, 0x7e7e7e7e7e7e7e7eu64, 3, -1, i);
    lemma_dir_equiv(player, opponent, 0x7e7e7e7e7e7e7e7eu64, 4, 1, i);
    lemma_dir_equiv(player, opponent, 0x007e7e7e7e7e7e00u64, 5, 7, i);
    lemma_dir_equiv(player, opponent, 0x00ffffffffffff00u64, 6, 8, i);
    lemma_dir_equiv(player, opponent, 0x007e7e7e7e7e7e00u64, 7, 9, i);
    if is_legal(player, opponent, i) {
        let (d, k): (int, int) = choose|d: int, k: int|
            0 <= d < 8 && #[trigger] captures_line(player, opponent, i, d, k);
        assert(exists|k2: int| #[trigger] captures_line(player, opponent, i, d, k2));
        if d == 0 {
        } else if d == 1 {
        } else if d == 2 {
        } else if d == 3 {
        } else if d == 4 {
        } else if d == 5 {
        } else if d == 6 {
        } else {
            assert(d == 7);
        }
    }
}

/// The legal-move set, computed with the shift-chain bitboard algorithm:
/// for each axis pair and shift direction, the mover's stones are shifted
/// through chains of masked opponent stones, and the cells one step past
/// each chain are collected and restricted to empty cells.
pub fn legal_move(player: u64, opponent: u64) -> (r: u64)
    requires
        player & opponent == 0,
    ensures
        r == legal_mask(player, opponent),
        forall|i: int| #[trigger] occ(r, i) == is_legal(player, opponent, i),
{
    let c0 = chain_shr(player, opponent, 0x007e7e7e7e7e7e00, 9);
    let c1 = chain_shr(player, opponent, 0x00ffffffffffff00, 8);
    let c2 = chain_shr(player, opponent, 0x007e7e7e7e7e7e00, 7);
    let c3 = chain_shr(player, opponent, 0x7e7e7e7e7e7e7e7e, 1);
    let c4 = chain_shl(player, opponent, 0x7e7e7e7e7e7e7e7e, 1);
    let c5 = chain_shl(player, opponent, 0x007e7e7e7e7e7e00, 7);
    let c6 = chain_shl(player, opponent, 0x00ffffffffffff00, 8);
    let c7 = chain_shl(player, opponent, 0x007e7e7e7e7e7e00, 9);
    let cand = c0 | c1 | c2 | c3 | c4 | c5 | c6 | c7;
    let r = cand & !(player | opponent);
    proof {
        broadcast use group_occ_lemmas;

        assert forall|i: int| #[trigger] occ(r, i) == is_legal(player, opponent, i) by {
            if 0 <= i < 64 {
                assert(occ(cand, i) == (occ(c0, i) || occ(c1, i) || occ(c2, i) || occ(c3, i)
                    || occ(c4, i) || occ(c5, i) || occ(c6, i) || occ(c7, i)));
                assert(occ(r, i) == (occ(cand, i) && !occ(player, i) && !occ(opponent, i)));
                lemma_legal_assemble(player, opponent, i);
            }
        }
        assert forall|c: int| #[trigger] occ(legal_mask(player, opponent), c) == occ(r, c) by {
            lemma_mask_where_occ(|i: int| is_legal(player, opponent, i), c);
        }
        lemma_cells_eq(r, legal_mask(player, opponent));
    }
    r
}

/// True when `m` holds exactly one cell.
pub open spec fn is_cell_mask(m: u64) -> bool {
    exists|i: int| 0 <= i < 64 && m == cell_bit(i)
}

/// The index of the one cell of a single-cell mask.
pub open spec fn cell_index(m: u64) -> int {
    choose|i: int| 0 <= i < 64 && m == cell_bit(i)
}

pub proof fn lemma_cell_index(m: u64, i: int)
    requires
        0 <= i < 64,
        m == cell_bit(i),
    ensures
        cell_index(m) == i,
{
    broadcast use group_occ_lemmas;

    let j = cell_index(m);
    assert(occ(cell_bit(j), i) == occ(cell_bit(i), i));
}

proof fn lemma_pop_n_zero(n: nat)
    ensures
        crate::bits::pop_n(0u64, n) == 0,
    decreases n,
{
    if n > 0 {
        assert(0u64 & 1 == 0 && 0u64 >> 1u64 == 0) by (bit_vector);
        lemma_pop_n_zero((n - 1) as nat);
    }
}

proof fn lemma_pop_n_single(b: u64, n: nat)
    requires
        b < n <= 64,
    ensures
        crate::bits::pop_n(1u64 << b, n) == 1,
    decreases n,
{
    if b == 0 {
        assert((1u64 << 0u64) & 1 == 1 && (1u64 << 0u64) >> 1u64 == 0) by (bit_vector);
        lemma_pop_n_zero((n - 1) as nat);
    } else {
        assert((1u64 << b) & 1 == 0 && (1u64 << b) >> 1u64 == 1u64 << ((b - 1) as u64))
            by (bit_vector)
            requires
                1 <= b < 64,
        ;
        lemma_pop_n_single((b - 1) as u64, (n - 1) as nat);
    }
}

/// A mask with an occupied cell counts at least one stone.
pub proof fn lemma_occ_pop_pos(x: u64, i: int)
    requires
        occ(x, i),
    ensures
        pop64(x) >= 1,
{
    let iu = i as u64;
    assert(x & (0x8000_0000_0000_0000u64 >> iu) != 0 ==> x & (0x8000_0000_0000_0000u64 >> iu) == (
    0x8000_0000_0000_0000u64 >> iu)) by (bit_vector)
        requires
            iu < 64,
    ;
    crate::bits::lemma_pop64_remove(x, cell_bit(i));
    lemma_pop64_cell_bit(i);
}

/// A single cell counts one stone.
pub proof fn lemma_pop64_cell_bit(i: int)
    requires
        0 <= i < 64,
    ensures
        pop64(cell_bit(i)) == 1,
{
    let iu = i as u64;
    assert(0x8000_0000_0000_0000u64 >> iu == 1u64 << ((63 - iu) as u64)) by (bit_vector)
        requires
            iu < 64,
    ;
    lemma_pop_n_single((63 - iu) as u64, 64);
}

/// Walks from cell `i` in direction `d` and returns the mask of the
/// opponent stones a move on `i` captures there (empty if the run does not
/// end on a mover stone).
fn flip_run_dir(p: u64, o: u64, i: usize, d: usize) -> (run: u64)
    requires
        p & o == 0,
        i < 64,
        d < 8,
    ensures
        forall|c: int| #[trigger] occ(run, c) == flips_in_dir(p, o, i as int, d as int, c),
{
    let ghost dx = dir_dx(d as int);
    let ghost dy = dir_dy(d as int);
    let (dxv, dyv) = dir_delta(d);
    let x0: i32 = (i % 8) as i32;
    let y0: i32 = (i / 8) as i32;
    let mut cx: i32 = x0 + dxv;
    let mut cy: i32 = y0 + dyv;
    let mut j: i32 = 1;
    let mut run: u64 = 0;
    proof {
        broadcast use group_occ_lemmas;

    }
    while 0 <= cx && cx < 8 && 0 <= cy && cy < 8 && test_cell(o, (cy * 8 + cx) as usize)
        invariant
            p & o == 0,
            i < 64,
            d < 8,
            dx == dir_dx(d as int),
            dy == dir_dy(d as int),
            dxv == dx,
            dyv == dy,
            x0 == (i as int) % 8,
            y0 == (i as int) / 8,
            1 <= j <= 8,
            cx == x0 + j * dx,
            cy == y0 + j * dy,
            forall|jj: int|
                1 <= jj < j ==> step_in_board(i as int, dx, dy, jj) && occ(
                    o,
                    #[trigger] step_cell(i as int, dx, dy, jj),
                ),
            forall|c: int|
                #[trigger] occ(run, c) == exists|jj: int|
                    1 <= jj < j && c == #[trigger] step_cell(i as int, dx, dy, jj),
        decreases 8 - j,
    {
        proof {
            assert(step_in_board(i as int, dx, dy, j as int));
            assert(occ(o, step_cell(i as int, dx, dy, j as int)));
            assert(j < 8) by {
                assert(!(dx == 0 && dy == 0));
            }
            assert(0 <= step_cell(i as int, dx, dy, j as int) < 64);
        }
        let ghost old_run = run;
        run = run | (UPPER_LEFT >> ((cy * 8 + cx) as u64));
        proof {
            broadcast use group_occ_lemmas;

            assert forall|c: int|
                #[trigger] occ(run, c) == exists|jj: int|
                    1 <= jj < j + 1 && c == #[trigger] step_cell(i as int, dx, dy, jj) by {
                assert(occ(run, c) == (occ(old_run, c) || occ(
                    cell_bit(step_cell(i as int, dx, dy, j as int)),
                    c,
                )));
                if c == step_cell(i as int, dx, dy, j as int) {
                    assert(1 <= j < j + 1 && c == step_cell(i as int, dx, dy, j as int));
                }
            }
        }
        j = j + 1;
        cx = cx + dxv;
        cy = cy + dyv;
    }
    let captured = j >= 2 && 0 <= cx && cx < 8 && 0 <= cy && cy < 8 && test_cell(
        p,
        (cy * 8 + cx) as usize,
    );
    proof {
        broadcast use group_occ_lemmas;

        if captured {
            let k = j - 1;
            assert(captures_line(p, o, i as int, d as int, k as int));
            assert forall|c: int| #[trigger] occ(run, c) == flips_in_dir(
                p,
                o,
                i as int,
                d as int,
                c,
            ) by {
                if occ(run, c) {
                    let jj = choose|jj: int|
                        1 <= jj < j && c == #[trigger] step_cell(i as int, dx, dy, jj);
                    assert(captures_line(p, o, i as int, d as int, k as int) && 1 <= jj <= k && c
                        == step_cell(i as int, dir_dx(d as int), dir_dy(d as int), jj));
                }
                if flips_in_dir(p, o, i as int, d as int, c) {
                    let (kk, jj): (int, int) = choose|kk: int, jj: int|
                        #[trigger] captures_line(p, o, i as int, d as int, kk) && 1 <= jj <= kk && c
                            == #[trigger] step_cell(i as int, dir_dx(d as int), dir_dy(d as int), jj);
                    if kk < k {
                        lemma_disjoint_cells(p, o, step_cell(i as int, dx, dy, kk + 1));
                        assert(false);
                    } else if kk > k {
                        assert(occ(o, step_cell(i as int, dx, dy, k + 1)));
                        lemma_disjoint_cells(p, o, step_cell(i as int, dx, dy, k + 1));
                        assert(false);
                    }
                    assert(occ(run, c));
                }
            }
        } else {
            assert forall|c: int| !(#[trigger] occ(0u64, c)) by {}
            assert forall|c: int| !flips_in_dir(p, o, i as int, d as int, c) by {
                if flips_in_dir(p, o, i as int, d as int, c) {
                    let (kk, jj): (int, int) = choose|kk: int, jj: int|
                        #[trigger] captures_line(p, o, i as int, d as int, kk) && 1 <= jj <= kk && c
                            == #[trigger] step_cell(i as int, dir_dx(d as int), dir_dy(d as int), jj);
                    if kk < j - 1 {
                        lemma_disjoint_cells(p, o, step_cell(i as int, dx, dy, kk + 1));
                        assert(false);
                    } else if kk > j - 1 {
                        assert(step_in_board(i as int, dx, dy, j as int) && occ(
                            o,
                            step_cell(i as int, dx, dy, j as int),
                        ));
                        assert(false);
                    } else {
                        assert(false);
                    }
                }
            }
        }
    }
    if captured {
        run
    } else {
        0
    }
}

/// The stones flipped when the mover plays `position`, computed by walking
/// the eight directions from the played cell.
pub fn reverse(player: u64, opponent: u64, position: u64) -> (rev: u64)
    requires
        player & opponent == 0,
        is_cell_mask(position),
    ensures
        rev == flips_mask(player, opponent, cell_index(position)),
        forall|c: int| #[trigger] occ(rev, c) == is_flipped(
            player,
            opponent,
            cell_index(position),
            c,
        ),
{
    let ghost ci = cell_index(position);
    let mut i: usize = 0;
    let mut idx: usize = 0;
    proof {
        broadcast use group_occ_lemmas;

        assert(occ(position, ci));
    }
    while i < 64
        invariant
            is_cell_mask(position),
            ci == cell_index(position),
            i <= 64,
            (i as int) <= ci || idx == ci,
            idx < 64,
        decreases 64 - i,
    {
        proof {
            broadcast use group_occ_lemmas;

            assert(occ(position, i as int) == (i as int == ci));
        }
        if test_cell(position, i) {
            idx = i;
        }
        i = i + 1;
    }
    proof {
        assert(idx == ci);
    }
    let mut rev: u64 = 0;
    let mut d: usize = 0;
    while d < 8
        invariant
            player & opponent == 0,
            idx < 64,
            idx == ci,
            d <= 8,
            forall|c: int|
                #[trigger] occ(rev, c) == exists|dd: int|
                    0 <= dd < d && #[trigger] flips_in_dir(player, opponent, ci, dd, c),
        decreases 8 - d,
    {
        let run = flip_run_dir(player, opponent, idx, d);
        let ghost old_rev = rev;
        rev = rev | run;
        proof {
            broadcast use group_occ_lemmas;

            assert forall|c: int|
                #[trigger] occ(rev, c) == exists|dd: int|
                    0 <= dd < d + 1 && #[trigger] flips_in_dir(player, opponent, ci, dd, c) by {
                assert(occ(rev, c) == (occ(old_rev, c) || occ(run, c)));
                assert(occ(run, c) == flips_in_dir(player, opponent, ci, d as int, c));
            }
        }
        d = d + 1;
    }
    proof {
        assert forall|c: int| #[trigger] occ(rev, c) == is_flipped(player, opponent, ci, c) by {}
        assert forall|c: int| #[trigger] occ(flips_mask(player, opponent, ci), c) == occ(
            rev,
            c,
        ) by {
            lemma_mask_where_occ(|c: int| is_flipped(player, opponent, ci, c), c);
        }
        lemma_cells_eq(rev, flips_mask(player, opponent, ci));
    }
    rev
}

/// Applies a move: the mover gains the played cell and the flipped stones,
/// the opponent loses the flipped stones.  Returns the new masks as
/// `(mover, opponent)`.
pub fn put(player: u64, opponent: u64, position: u64) -> (r: (u64, u64))
    requires
        player & opponent == 0,
        is_cell_mask(position),
        !occ(player, cell_index(position)),
        !occ(opponent, cell_index(position)),
    ensures
        r.0 & r.1 == 0,
        r.1 & r.0 == 0,
        r.0 == player ^ (position | flips_mask(player, opponent, cell_index(position))),
        r.1 == opponent ^ flips_mask(player, opponent, cell_index(position)),
        forall|c: int|
            #[trigger] occ(r.0, c) == (occ(player, c) || c == cell_index(position) || is_flipped(
                player,
                opponent,
                cell_index(position),
                c,
            )),
        forall|c: int|
            #[trigger] occ(r.1, c) == (occ(opponent, c) && !is_flipped(
                player,
                opponent,
                cell_index(position),
                c,
            )),
        pop64(r.0) == pop64(player) + 1 + pop64(
            flips_mask(player, opponent, cell_index(position)),
        ),
        pop64(r.1) + pop64(flips_mask(player, opponent, cell_index(position))) == pop64(opponent),
        pop64(r.0 | r.1) == pop64(player | opponent) + 1,
{
    let ghost ci = cell_index(position);
    let rev = reverse(player, opponent, position);
    let new_player = player ^ (position | rev);
    let new_opponent = opponent ^ rev;
    proof {
        broadcast use group_occ_lemmas;

        // Every flipped cell is an opponent stone, so `rev` is disjoint from
        // the mover and from the played cell, and is a submask of the opponent.
        assert forall|c: int| #[trigger] occ(rev, c) implies occ(opponent, c) && !occ(player, c)
            && c != ci by {
            let dd = choose|dd: int|
                0 <= dd < 8 && #[trigger] flips_in_dir(player, opponent, ci, dd, c);
            let (kk, jj): (int, int) = choose|kk: int, jj: int|
                #[trigger] captures_line(player, opponent, ci, dd, kk) && 1 <= jj <= kk && c
                    == #[trigger] step_cell(ci, dir_dx(dd), dir_dy(dd), jj);
            assert(occ(opponent, c));
            lemma_disjoint_cells(player, opponent, c);
        }
        assert(occ(position, ci));
        // The mover's new mask adds disjoint cells, so the xor is a union.
        assert forall|c: int| #[trigger] occ(new_player, c) == (occ(player, c) || c == ci || occ(
            rev,
            c,
        )) by {
            assert(occ(position | rev, c) == (occ(position, c) || occ(rev, c)));
            assert(occ(position, c) == (c == ci));
        }
        assert forall|c: int| #[trigger] occ(new_opponent, c) == (occ(opponent, c) && !occ(
            rev,
            c,
        )) by {}
        // Stone counts.
        assert forall|c: int| #[trigger] occ(player | (position | rev), c) == occ(
            new_player,
            c,
        ) by {}
        lemma_cells_eq(new_player, player | (position | rev));
        assert forall|c: int| !(#[trigger] occ(player & (position | rev), c)) by {}
        lemma_cells_eq(player & (position | rev), 0);
        crate::bits::lemma_pop64_or_disjoint(player, position | rev);
        assert forall|c: int| !(#[trigger] occ(position & rev, c)) by {}
        lemma_cells_eq(position & rev, 0);
        crate::bits::lemma_pop64_or_disjoint(position, rev);
        lemma_pop64_cell_bit(ci);
        assert forall|c: int| #[trigger] occ(opponent & !rev, c) == occ(new_opponent, c) by {}
        lemma_cells_eq(new_opponent, opponent & !rev);
        assert forall|c: int| #[trigger] occ(opponent & rev, c) == occ(rev, c) by {}
        lemma_cells_eq(opponent & rev, rev);
        crate::bits::lemma_pop64_remove(opponent, rev);
        // The occupied set gains exactly the played cell.
        assert forall|c: int| #[trigger] occ(new_player | new_opponent, c) == occ(
            (player | opponent) | position,
            c,
        ) by {}
        lemma_cells_eq(new_player | new_opponent, (player | opponent) | position);
        assert forall|c: int| !(#[trigger] occ((player | opponent) & position, c)) by {}
        lemma_cells_eq((player | opponent) & position, 0);
        crate::bits::lemma_pop64_or_disjoint(player | opponent, position);
        // Disjointness of the new masks.
        assert forall|c: int| !(#[trigger] occ(new_player & new_opponent, c)) by {}
        lemma_cells_eq(new_player & new_opponent, 0);
        assert forall|c: int| !(#[trigger] occ(new_opponent & new_player, c)) by {}
        lemma_cells_eq(new_opponent & new_player, 0);
    }
    (new_player, new_opponent)
}

} // verus!
