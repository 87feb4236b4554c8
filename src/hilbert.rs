//! The Hilbert curve over a square grid: the four base shapes, and the
//! mathematical decoding of a curve position into grid coordinates.
//!
//! A position at depth `n` is a number of `n` base-4 digits, most
//! significant first; each digit picks one of the four children of the
//! current cell, in the order that the current orientation dictates.
use vstd::arithmetic::div_mod::{
    lemma_div_denominator, lemma_div_multiples_vanish_fancy, lemma_fundamental_div_mod,
    lemma_mod_bound, lemma_mod_breakdown, lemma_mod_multiples_vanish, lemma_small_mod,
};
use vstd::arithmetic::power2::{lemma2_to64, lemma_pow2_adds, lemma_pow2_pos, pow2};
use vstd::prelude::*;

verus! {

/// Orientation bit: the axes are swapped.
pub const SWAP_MASK: i32 = 1;

/// Orientation bit: both coordinates are inverted.
pub const INVERT_MASK: i32 = 2;

/// The quadrant `2 * di + dj` that the curve visits as its `c`-th child in
/// orientation `o`:
///
/// - canonical order: (0,0), (0,1), (1,1), (1,0)
/// - axes swapped: (0,0), (1,0), (1,1), (0,1)
/// - bits inverted: (1,1), (1,0), (0,0), (0,1)
/// - swapped and inverted: (1,1), (0,1), (0,0), (1,0)
pub open spec fn pos_to_ij_spec(o: int, c: int) -> int {
    if o == 0 {
        if c == 0 { 0 } else if c == 1 { 1 } else if c == 2 { 3 } else { 2 }
    } else if o == 1 {
        if c == 0 { 0 } else if c == 1 { 2 } else if c == 2 { 3 } else { 1 }
    } else if o == 2 {
        if c == 0 { 3 } else if c == 1 { 2 } else if c == 2 { 0 } else { 1 }
    } else {
        if c == 0 { 3 } else if c == 1 { 1 } else if c == 2 { 0 } else { 2 }
    }
}

/// The child index at which the curve in orientation `o` visits quadrant `r`.
pub open spec fn ij_to_pos_spec(o: int, r: int) -> int {
    if o == 0 {
        if r == 0 { 0 } else if r == 1 { 1 } else if r == 3 { 2 } else { 3 }
    } else if o == 1 {
        if r == 0 { 0 } else if r == 2 { 1 } else if r == 3 { 2 } else { 3 }
    } else if o == 2 {
        if r == 3 { 0 } else if r == 2 { 1 } else if r == 0 { 2 } else { 3 }
    } else {
        if r == 3 { 0 } else if r == 1 { 1 } else if r == 0 { 2 } else { 3 }
    }
}

/// The orientation bits that the `c`-th child flips.
pub open spec fn pos_to_orientation_spec(c: int) -> int {
    if c == 0 {
        SWAP_MASK as int
    } else if c == 3 {
        (INVERT_MASK + SWAP_MASK) as int
    } else {
        0
    }
}

/// Orientation `o` with the swap bit flipped.
pub open spec fn swapped(o: int) -> int {
    if o % 2 == 0 { o + 1 } else { o - 1 }
}

/// The orientation of the `c`-th child of a cell in orientation `o`.
pub open spec fn next_orientation(o: int, c: int) -> int {
    if c == 0 {
        swapped(o)
    } else if c == 3 {
        3 - o
    } else {
        o
    }
}

/// `4^n`, the number of positions at depth `n`.
pub open spec fn pow4(n: nat) -> int {
    pow2(2 * n) as int
}

/// The leaf `(i, j)` that position `p` at depth `n` reaches from a cell in
/// orientation `o`, and the orientation there.
pub open spec fn hilbert_decode(o: int, n: nat, p: int) -> (int, int, int)
    decreases n,
{
    if n == 0 {
        (0, 0, o)
    } else {
        let (i, j, o1) = hilbert_decode(o, (n - 1) as nat, p / 4);
        let r = pos_to_ij_spec(o1, p % 4);
        (2 * i + r / 2, 2 * j + r % 2, next_orientation(o1, p % 4))
    }
}

/// The quadrant that the curve in `orientation` visits as its `c`-th child.
pub fn pos_to_ij(orientation: i32, c: i32) -> (r: i32)
    requires
        0 <= orientation < 4,
        0 <= c < 4,
    ensures
        r == pos_to_ij_spec(orientation as int, c as int),
{
    if orientation == 0 {
        if c == 0 { 0 } else if c == 1 { 1 } else if c == 2 { 3 } else { 2 }
    } else if orientation == SWAP_MASK {
        if c == 0 { 0 } else if c == 1 { 2 } else if c == 2 { 3 } else { 1 }
    } else if orientation == INVERT_MASK {
        if c == 0 { 3 } else if c == 1 { 2 } else if c == 2 { 0 } else { 1 }
    } else {
        if c == 0 { 3 } else if c == 1 { 1 } else if c == 2 { 0 } else { 2 }
    }
}

/// The orientation bits that the `c`-th child flips.
pub fn pos_to_orientation(c: i32) -> (r: i32)
    requires
        0 <= c < 4,
    ensures
        r == pos_to_orientation_spec(c as int),
{
    if c == 0 {
        SWAP_MASK
    } else if c == 3 {
        INVERT_MASK + SWAP_MASK
    } else {
        0
    }
}

/// Flipping orientation bits with `^` moves to the child's orientation.
pub proof fn lemma_xor_orientation(o: i32, c: int)
    requires
        0 <= o < 4,
        0 <= c < 4,
    ensures
        o ^ (pos_to_orientation_spec(c) as i32) == next_orientation(o as int, c),
{
    assert((o ^ 1i32) == (if o % 2 == 0 { o + 1 } else { o - 1 }) && (o ^ 3i32) == 3 - o && (o
        ^ 0i32) == o) by (bit_vector)
        requires
            0 <= o < 4,
    ;
}

/// One step of subdivision, taken from the outside: the child `c` of the
/// cell at position `p` is at position `4 * p + c`.
pub proof fn lemma_decode_step(o: int, n: nat, p: int, c: int)
    requires
        0 <= p,
        0 <= c < 4,
    ensures
        hilbert_decode(o, n + 1, 4 * p + c) == ({
            let (i, j, o1) = hilbert_decode(o, n, p);
            let r = pos_to_ij_spec(o1, c);
            (2 * i + r / 2, 2 * j + r % 2, next_orientation(o1, c))
        }),
{
    lemma_div_multiples_vanish_fancy(p, c, 4);
    lemma_mod_multiples_vanish(p, c, 4);
    lemma_small_mod(c as nat, 4);
}

/// The table of quadrants is a bijection for each orientation.
pub proof fn lemma_quadrants(o: int, c: int, r: int)
    requires
        0 <= o < 4,
        0 <= c < 4,
        0 <= r < 4,
    ensures
        0 <= pos_to_ij_spec(o, c) < 4,
        0 <= ij_to_pos_spec(o, r) < 4,
        pos_to_ij_spec(o, ij_to_pos_spec(o, r)) == r,
        ij_to_pos_spec(o, pos_to_ij_spec(o, c)) == c,
        0 <= next_orientation(o, c) < 4,
{
}

/// Decoded coordinates lie in the `2^n` grid, and orientations stay in range.
pub proof fn lemma_decode_bounds(o: int, n: nat, p: int)
    requires
        0 <= o < 4,
        0 <= p,
    ensures
        0 <= hilbert_decode(o, n, p).0 < pow2(n),
        0 <= hilbert_decode(o, n, p).1 < pow2(n),
        0 <= hilbert_decode(o, n, p).2 < 4,
    decreases n,
{
    lemma2_to64();
    if n > 0 {
        lemma_decode_bounds(o, (n - 1) as nat, p / 4);
        let (i, j, o1) = hilbert_decode(o, (n - 1) as nat, p / 4);
        lemma_quadrants(o1, p % 4, 0);
        lemma_pow2_adds(1, (n - 1) as nat);
    }
}

/// Decoding a position of depth `a + b` decodes its first `a` digits, then
/// its last `b` digits from the orientation reached.
pub proof fn lemma_decode_split(o: int, a: nat, b: nat, p: int)
    requires
        0 <= p,
    ensures
        hilbert_decode(o, a + b, p) == ({
            let (i1, j1, o1) = hilbert_decode(o, a, p / pow4(b));
            let (i2, j2, o2) = hilbert_decode(o1, b, p % pow4(b));
            (i1 * pow2(b) + i2, j1 * pow2(b) + j2, o2)
        }),
    decreases b,
{
    lemma2_to64();
    if b == 0 {
        assert(pow4(0) == 1);
    } else {
        let b1 = (b - 1) as nat;
        lemma_decode_split(o, a, b1, p / 4);
        lemma_pow2_adds(2, 2 * b1);
        lemma_pow2_adds(1, b1);
        lemma_pow2_pos(2 * b1);
        assert(pow4(b) == 4 * pow4(b1));
        lemma_div_denominator(p, 4, pow4(b1));
        lemma_mod_breakdown(p, 4, pow4(b1));
        let m = p % pow4(b);
        lemma_mod_bound(p / 4, pow4(b1));
        lemma_div_multiples_vanish_fancy((p / 4) % pow4(b1), p % 4, 4);
        lemma_mod_multiples_vanish((p / 4) % pow4(b1), p % 4, 4);
        lemma_small_mod((p % 4) as nat, 4);
        assert(m / 4 == (p / 4) % pow4(b1));
        assert(m % 4 == p % 4);
        let (i1, j1, o1) = hilbert_decode(o, a, p / pow4(b));
        let (i2, j2, o2) = hilbert_decode(o1, b1, (p / 4) % pow4(b1));
        assert(2 * (i1 * pow2(b1) + i2) == i1 * pow2(b) + 2 * i2) by (nonlinear_arith)
            requires
                pow2(b) == 2 * pow2(b1),
        ;
        assert(2 * (j1 * pow2(b1) + j2) == j1 * pow2(b) + 2 * j2) by (nonlinear_arith)
            requires
                pow2(b) == 2 * pow2(b1),
        ;
    }
}

/// Distinct positions of the same depth reach distinct leaves.
pub proof fn lemma_decode_injective(o: int, n: nat, pos_a: int, pos_b: int)
    requires
        0 <= o < 4,
        0 <= pos_a < pow4(n),
        0 <= pos_b < pow4(n),
        hilbert_decode(o, n, pos_a).0 == hilbert_decode(o, n, pos_b).0,
        hilbert_decode(o, n, pos_a).1 == hilbert_decode(o, n, pos_b).1,
    ensures
        pos_a == pos_b,
    decreases n,
{
    lemma2_to64();
    if n == 0 {
        assert(pow4(0) == 1);
    } else {
        let n1 = (n - 1) as nat;
        lemma_pow2_adds(2, 2 * n1);
        assert(pow4(n) == 4 * pow4(n1));
        let (a1, b1, o1) = hilbert_decode(o, n1, pos_a / 4);
        let (a2, b2, o2) = hilbert_decode(o, n1, pos_b / 4);
        lemma_decode_bounds(o, n1, pos_a / 4);
        lemma_decode_bounds(o, n1, pos_b / 4);
        lemma_quadrants(o1, pos_a % 4, 0);
        lemma_quadrants(o2, pos_b % 4, 0);
        let r1 = pos_to_ij_spec(o1, pos_a % 4);
        let r2 = pos_to_ij_spec(o2, pos_b % 4);
        assert(a1 == a2 && b1 == b2 && r1 == r2);
        lemma_decode_injective(o, n1, pos_a / 4, pos_b / 4);
        lemma_quadrants(o1, pos_b % 4, 0);
        lemma_fundamental_div_mod(pos_a, 4);
        lemma_fundamental_div_mod(pos_b, 4);
    }
}

/// The all-zero position runs along the diagonal corner of the cell: the
/// low corner for a non-inverted orientation, the high corner otherwise.
/// Each digit flips the swap bit.
pub proof fn lemma_decode_zero(o: int, n: nat)
    requires
        0 <= o < 4,
    ensures
        hilbert_decode(o, n, 0) == (
            if o < 2 { 0int } else { pow2(n) - 1 },
            if o < 2 { 0int } else { pow2(n) - 1 },
            if n % 2 == 0 { o } else { swapped(o) },
        ),
    decreases n,
{
    lemma2_to64();
    if n > 0 {
        let n1 = (n - 1) as nat;
        lemma_decode_zero(o, n1);
        lemma_pow2_adds(1, n1);
    }
}

/// The position of a cell's center, `2 * 4^(m - 1)` at depth `m`, reaches
/// the leaf just above and right of the middle for a non-inverted
/// orientation and the one just below and left otherwise, with the swap bit
/// flipped `m - 1` times.
pub proof fn lemma_decode_center(o: int, m: nat)
    requires
        0 <= o < 4,
        m >= 1,
    ensures
        hilbert_decode(o, m, 2 * pow4((m - 1) as nat)) == (
            if o < 2 { pow2((m - 1) as nat) as int } else { pow2((m - 1) as nat) - 1 },
            if o < 2 { pow2((m - 1) as nat) as int } else { pow2((m - 1) as nat) - 1 },
            if (m - 1) % 2 == 0 { o } else { swapped(o) },
        ),
{
    lemma2_to64();
    let m1 = (m - 1) as nat;
    let p = 2 * pow4(m1);
    lemma_pow2_pos(2 * m1);
    lemma_decode_split(o, 1, m1, p);
    lemma_div_multiples_vanish_fancy(2, 0, pow4(m1));
    lemma_mod_multiples_vanish(2, 0, pow4(m1));
    lemma_small_mod(0, pow4(m1) as nat);
    assert(p / pow4(m1) == 2 && p % pow4(m1) == 0);
    lemma_decode_zero(o, m1);
    assert(hilbert_decode(o, 0, 0) == (0int, 0int, o));
    assert(hilbert_decode(o, 1, 2) == (
        pos_to_ij_spec(o, 2) / 2,
        pos_to_ij_spec(o, 2) % 2,
        o,
    ));
    assert(1 + m1 == m);
    let (i1, j1, o1) = hilbert_decode(o, 1, 2);
    let (i2, j2, o2) = hilbert_decode(o1, m1, 0);
    assert(hilbert_decode(o, m, p) == (i1 * pow2(m1) + i2, j1 * pow2(m1) + j2, o2));
    assert(o1 == o);
    if o < 2 {
        assert(i1 == 1 && j1 == 1);
        assert(i2 == 0 && j2 == 0);
        assert(i1 * pow2(m1) == pow2(m1)) by (nonlinear_arith)
            requires
                i1 == 1,
        ;
        assert(j1 * pow2(m1) == pow2(m1)) by (nonlinear_arith)
            requires
                j1 == 1,
        ;
    } else {
        assert(i1 == 0 && j1 == 0);
        assert(i1 * pow2(m1) == 0 && j1 * pow2(m1) == 0) by (nonlinear_arith)
            requires
                i1 == 0,
                j1 == 0,
        ;
    }
    assert(o2 == (if m1 % 2 == 0 { o } else { swapped(o) }));
}

} // verus!
