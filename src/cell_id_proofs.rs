//! Lemmas behind the contracts of the cell identifier: how the bits of an
//! identifier relate to its face, level and path, and how the chunked
//! table lookups compose into the whole Hilbert decoding.
use vstd::arithmetic::div_mod::{
    lemma_div_by_multiple, lemma_div_denominator, lemma_div_is_ordered,
    lemma_div_multiples_vanish_fancy, lemma_fundamental_div_mod, lemma_mod_bound,
    lemma_mod_breakdown, lemma_mod_multiples_vanish, lemma_small_mod,
};
use vstd::arithmetic::power2::{
    lemma2_to64, lemma2_to64_rest, lemma_pow2_adds, lemma_pow2_pos, lemma_pow2_strictly_increases,
    pow2,
};
use vstd::bits::{lemma_u64_shl_is_mul, lemma_u64_shr_is_div};
use vstd::prelude::*;

use crate::hilbert::{
    hilbert_decode, lemma_decode_bounds, lemma_decode_center, lemma_decode_injective,
    lemma_decode_split, lemma_decode_zero, pow4, swapped,
};
use crate::lookup::pos_entry_ok;
use crate::bits::{lemma_shl_one, lemma_trailing_zeros_of};
use crate::cell_id::{
    lsb_at_level,
    cell_path, decode_cell, decode_leaf, face_of, is_valid_id, leaf_pos, lemma_make_id_valid,
    lemma_valid_id_parts, level_of, make_id, path_at,
};

verus! {

/// Clearing the bits below a level's marker bit and setting the marker gives
/// the identifier of the ancestor at that level.
pub(crate) proof fn lemma_parent_bits(x: u64, level: int)
    requires
        face_of(x) < 6,
        0 <= level <= 30,
    ensures
        ({
            let l = pow2((2 * (30 - level)) as nat) as u64;
            (x & (!l).wrapping_add(1)) | l
        }) == make_id(face_of(x), level, path_at(x, level)),
        0 <= path_at(x, level) < pow2((2 * level) as nat),
        is_valid_id(make_id(face_of(x), level, path_at(x, level)) as u64),
        face_of(make_id(face_of(x), level, path_at(x, level)) as u64) == face_of(x),
        level_of(make_id(face_of(x), level, path_at(x, level)) as u64) == level,
        cell_path(make_id(face_of(x), level, path_at(x, level)) as u64) == path_at(x, level),
{
    let s = (2 * (30 - level)) as u64;
    lemma_shl_one(s);
    let l = 1u64 << s;
    assert(!l < 0xffff_ffff_ffff_ffffu64) by (bit_vector)
        requires
            s < 64,
            l == 1u64 << s,
    ;
    let r = (x & (((!l) + 1) as u64)) | l;
    assert(r == ((x >> (s + 1) as u64) << (s + 1) as u64) + (1u64 << s)) by (bit_vector)
        requires
            s <= 60,
            l == 1u64 << s,
            r == (x & (((!l) + 1) as u64)) | l,
    ;
    let k = (s + 1) as nat;
    let l2 = (2 * level) as nat;
    lemma_u64_shr_is_div(x, k as u64);
    lemma_pow2_pos(k);
    lemma_pow2_pos(l2);
    let q = x as int / pow2(k) as int;
    lemma_fundamental_div_mod(x as int, pow2(k) as int);
    lemma_mod_bound(x as int, pow2(k) as int);
    assert(q * pow2(k) <= x) by (nonlinear_arith)
        requires
            x as int == pow2(k) * q + x as int % pow2(k) as int,
            x as int % pow2(k) as int >= 0,
    ;
    lemma_u64_shl_is_mul(q as u64, k as u64);
    lemma_pow2_adds(k, l2);
    assert(k + l2 == 61);
    lemma_div_denominator(x as int, pow2(k) as int, pow2(l2) as int);
    lemma_fundamental_div_mod(q, pow2(l2) as int);
    lemma_mod_bound(q, pow2(l2) as int);
    lemma_pow2_adds(s as nat, 1);
    lemma2_to64();
    let f = face_of(x);
    let p = path_at(x, level);
    assert(q == pow2(l2) * f + p);
    assert(r == make_id(f, level, p)) by (nonlinear_arith)
        requires
            r == q * pow2(k) + pow2(s as nat),
            q == pow2(l2) * f + p,
            pow2(k) == pow2(s as nat) * 2,
            pow2(61) == pow2(k) * pow2(l2),
            make_id(f, level, p) == f * pow2(61) + (2 * p + 1) * pow2(s as nat),
    ;
    lemma_make_id_valid(f, level, p);
}

/// Moving from a cell's marker bit to the marker two bits lower, shifted by
/// a child digit, gives the identifier of that child.
pub(crate) proof fn lemma_child_bits(x: u64, position: int)
    requires
        is_valid_id(x),
        level_of(x) < 30,
        0 <= position < 4,
    ensures
        ({
            let l = pow2((2 * (29 - level_of(x))) as nat) as int;
            &&& x - 3 * l >= 0
            &&& x - 3 * l + 2 * position * l == make_id(
                face_of(x),
                level_of(x) + 1,
                4 * cell_path(x) + position,
            )
        }),
        0 <= 4 * cell_path(x) + position < pow2((2 * (level_of(x) + 1)) as nat),
        make_id(face_of(x), level_of(x) + 1, 4 * cell_path(x) + position) <= u64::MAX,
        is_valid_id(make_id(face_of(x), level_of(x) + 1, 4 * cell_path(x) + position) as u64),
        face_of(make_id(face_of(x), level_of(x) + 1, 4 * cell_path(x) + position) as u64)
            == face_of(x),
        level_of(make_id(face_of(x), level_of(x) + 1, 4 * cell_path(x) + position) as u64)
            == level_of(x) + 1,
        cell_path(make_id(face_of(x), level_of(x) + 1, 4 * cell_path(x) + position) as u64) == 4
            * cell_path(x) + position,
{
    lemma_valid_id_parts(x);
    let k = level_of(x);
    let p = cell_path(x);
    let l = pow2((2 * (29 - k)) as nat) as int;
    lemma2_to64();
    lemma_pow2_pos(61);
    lemma_pow2_pos((2 * (29 - k)) as nat);
    lemma_pow2_adds(2, (2 * (29 - k)) as nat);
    assert(lsb_at_level(k) == 4 * l);
    assert(lsb_at_level(k + 1) == l);
    lemma_pow2_adds(2, (2 * k) as nat);
    assert(pow2((2 * (k + 1)) as nat) == 4 * pow2((2 * k) as nat));
    assert(x as int == face_of(x) * pow2(61) + (2 * p + 1) * (4 * l));
    assert(x - 3 * l + 2 * position * l == face_of(x) * pow2(61) + (2 * (4 * p + position) + 1) * l)
        by (nonlinear_arith)
        requires
            x as int == face_of(x) * pow2(61) + (2 * p + 1) * (4 * l),
    ;
    assert(x - 3 * l >= 0) by (nonlinear_arith)
        requires
            x as int == face_of(x) * pow2(61) + (2 * p + 1) * (4 * l),
            face_of(x) >= 0,
            pow2(61) >= 0,
            p >= 0,
            l > 0,
    ;
    lemma_make_id_valid(face_of(x), k + 1, 4 * p + position);
}

/// The leaf identifier `face, pos | 1` is valid, and its path at any level
/// is a prefix of `pos`.
pub(crate) proof fn lemma_leaf_from_pos(face: int, pos: u64, level: int)
    requires
        0 <= face < 6,
        pos < pow2(61),
        0 <= level <= 30,
    ensures
        0 <= face * pow2(61) + (pos | 1) <= u64::MAX,
        ({
            let x = (face * pow2(61) + (pos | 1)) as u64;
            &&& is_valid_id(x)
            &&& face_of(x) == face
            &&& level_of(x) == 30
            &&& path_at(x, level) == pos as int / pow2((61 - 2 * level) as nat) as int
        }),
{
    lemma2_to64_rest();
    lemma2_to64();
    let po = pos | 1;
    assert(po == 2 * (pos >> 1u64) + 1 && po < 0x2000_0000_0000_0000u64) by (bit_vector)
        requires
            po == pos | 1,
            pos < 0x2000_0000_0000_0000u64,
    ;
    lemma_u64_shr_is_div(pos, 1);
    let a = pos as int / 2;
    let pow61 = pow2(61) as int;
    let xi = face * pow61 + po;
    assert(xi < 6 * pow61);
    let x = xi as u64;
    assert(x == (2 * (face * pow2(60) + a) + 1) * pow2(0));
    lemma_trailing_zeros_of(x, 0, face * pow2(60) + a);
    lemma_div_multiples_vanish_fancy(face, po as int, pow61);
    let k = (61 - 2 * level) as nat;
    let l2 = (2 * level) as nat;
    lemma_pow2_adds(k, l2);
    lemma_pow2_pos(k);
    lemma_pow2_pos(l2);
    let pk = pow2(k) as int;
    let pl = pow2(l2) as int;
    // `po / 2^k == pos / 2^k`, since `k >= 1` and the two differ only in bit 0.
    lemma_pow2_adds(1, (k - 1) as nat);
    lemma_pow2_pos((k - 1) as nat);
    lemma_div_denominator(po as int, 2, pow2((k - 1) as nat) as int);
    lemma_div_denominator(pos as int, 2, pow2((k - 1) as nat) as int);
    lemma_div_multiples_vanish_fancy(a, 1, 2);
    assert(po as int / pk == pos as int / pk);
    // `x / 2^k == face * 2^(2 level) + po / 2^k`
    lemma_fundamental_div_mod(po as int, pk);
    lemma_mod_bound(po as int, pk);
    let b = po as int / pk;
    assert(xi == pk * (face * pl + b) + po as int % pk) by (nonlinear_arith)
        requires
            xi == face * pow61 + po,
            pow61 == pk * pl,
            po == pk * b + po as int % pk,
    ;
    assert(face * pl + b >= 0) by (nonlinear_arith)
        requires
            face >= 0,
            pl > 0,
            b == po as int / pk,
            po >= 0,
            pk > 0,
    ;
    lemma_div_multiples_vanish_fancy(face * pl + b, po as int % pk, pk);
    // and the prefix is below `2^(2 level)`
    lemma_div_is_ordered(po as int, pow61 - 1, pk);
    lemma_div_multiples_vanish_fancy(pl - 1, pk - 1, pk);
    assert(pow61 - 1 == pk * (pl - 1) + (pk - 1)) by (nonlinear_arith)
        requires
            pow61 == pk * pl,
    ;
    assert(face * pl + b == pl * face + b) by (nonlinear_arith);
    lemma_mod_multiples_vanish(face, b, pl);
    lemma_small_mod(b as nat, pl as nat);
}

/// The position held in a valid identifier is its cell's path followed by
/// the center pattern: one `2` digit, then zeros.
pub(crate) proof fn lemma_leaf_pos_of_valid(x: u64)
    requires
        is_valid_id(x),
    ensures
        level_of(x) == 30 ==> leaf_pos(x) == cell_path(x),
        level_of(x) < 30 ==> leaf_pos(x) == cell_path(x) * pow4((30 - level_of(x)) as nat) + 2
            * pow4((29 - level_of(x)) as nat),
{
    lemma_valid_id_parts(x);
    let l = level_of(x);
    let p = cell_path(x);
    let f = face_of(x);
    lemma2_to64();
    lemma2_to64_rest();
    lemma_pow2_adds(30, 30);
    assert(pow4(30) == pow2(60));
    let pow60 = pow2(60) as int;
    if l == 30 {
        assert(x as int == f * pow2(61) + (2 * p + 1) * 1);
        assert(x as int == 2 * (pow60 * f + p) + 1) by (nonlinear_arith)
            requires
                x as int == f * pow2(61) + (2 * p + 1) * 1,
                pow2(61) == 2 * pow60,
        ;
        lemma_div_multiples_vanish_fancy(pow60 * f + p, 1, 2);
        lemma_mod_multiples_vanish(f, p, pow60);
        lemma_small_mod(p as nat, pow60 as nat);
    } else {
        let m = (30 - l) as nat;
        let m1 = (29 - l) as nat;
        let t1 = (59 - 2 * l) as nat;
        lemma_pow2_adds(1, t1);
        lemma_pow2_adds(1, 2 * m1);
        lemma_pow2_adds(2 * m1, 2);
        lemma_pow2_adds(2 * l as nat + 1, t1);
        lemma_pow2_pos(t1);
        let pt1 = pow2(t1) as int;
        let low = (2 * p + 1) * pt1;
        assert(x as int == 2 * (pow60 * f + low)) by (nonlinear_arith)
            requires
                x as int == f * pow2(61) + (2 * p + 1) * pow2((60 - 2 * l) as nat),
                pow2((60 - 2 * l) as nat) == 2 * pt1,
                pow2(61) == 2 * pow60,
                low == (2 * p + 1) * pt1,
        ;
        assert(0 <= low < pow60) by (nonlinear_arith)
            requires
                low == (2 * p + 1) * pt1,
                0 <= p < pow2((2 * l) as nat),
                pow60 == pow2((2 * l) as nat) * 2 * pt1,
                pt1 > 0,
        ;
        lemma_div_multiples_vanish_fancy(pow60 * f + low, 0, 2);
        lemma_mod_multiples_vanish(f, low, pow60);
        lemma_small_mod(low as nat, pow60 as nat);
        assert(low == p * pow4(m) + 2 * pow4(m1)) by (nonlinear_arith)
            requires
                low == (2 * p + 1) * pt1,
                pow4(m) == 2 * pt1,
                pt1 == 2 * pow4(m1),
        ;
    }
}

/// Decoding all 30 levels of a valid identifier reaches, inside its cell,
/// the leaf just above and right of the center (non-inverted orientation) or
/// just below and left of it (inverted), with the orientation flipped once
/// per level below the cell's first.
pub(crate) proof fn lemma_decode_of_valid(x: u64)
    requires
        is_valid_id(x),
    ensures
        ({
            let (ci, cj, co) = decode_cell(x);
            let m = (30 - level_of(x)) as nat;
            let (li, lj, lo) = decode_leaf(x);
            &&& 0 <= co < 4
            &&& 0 <= ci < pow2(level_of(x) as nat)
            &&& 0 <= cj < pow2(level_of(x) as nat)
            &&& m == 0 ==> decode_leaf(x) == decode_cell(x)
            &&& m > 0 ==> {
                let h = if co < 2 {
                    pow2((m - 1) as nat) as int
                } else {
                    pow2((m - 1) as nat) - 1
                };
                &&& li == ci * pow2(m) + h
                &&& lj == cj * pow2(m) + h
                &&& lo == if (m - 1) % 2 == 0 {
                    co
                } else {
                    swapped(co)
                }
            }
        }),
{
    lemma_leaf_pos_of_valid(x);
    lemma_valid_id_parts(x);
    let l = level_of(x);
    let o0 = face_of(x) % 2;
    lemma_decode_bounds(o0, l as nat, cell_path(x));
    if l < 30 {
        let m = (30 - l) as nat;
        let m1 = (29 - l) as nat;
        let p = cell_path(x);
        lemma_pow2_adds(2 * m1, 2);
        lemma2_to64();
        lemma_pow2_pos(2 * m1);
        lemma_decode_split(o0, l as nat, m, leaf_pos(x));
        assert(l as nat + m == 30);
        assert(0 <= 2 * pow4(m1) < pow4(m));
        lemma_div_multiples_vanish_fancy(p, 2 * pow4(m1), pow4(m));
        lemma_mod_multiples_vanish(p, 2 * pow4(m1), pow4(m));
        lemma_small_mod((2 * pow4(m1)) as nat, pow4(m) as nat);
        assert(leaf_pos(x) == pow4(m) * p + 2 * pow4(m1)) by (nonlinear_arith)
            requires
                leaf_pos(x) == p * pow4(m) + 2 * pow4(m1),
        ;
        let co = decode_cell(x).2;
        lemma_decode_center(co, m);
        assert((m - 1) as nat == m1);
    }
}

/// The path at `level` is the first `level` digits of the leaf position.
pub(crate) proof fn lemma_path_at_is_prefix(x: u64, level: int)
    requires
        0 <= level <= 30,
    ensures
        path_at(x, level) == leaf_pos(x) / pow4((30 - level) as nat),
{
    let m = (30 - level) as nat;
    let a = x as int / 2;
    lemma2_to64();
    lemma_pow2_pos(2 * m);
    lemma_pow2_pos((2 * level) as nat);
    lemma_pow2_adds(2 * m, (2 * level) as nat);
    lemma_pow2_adds(1, 2 * m);
    assert(pow4(30) == pow4(m) * pow2((2 * level) as nat));
    assert((61 - 2 * level) as nat == 1 + 2 * m);
    lemma_div_denominator(x as int, 2, pow4(m));
    lemma_mod_breakdown(a, pow4(m), pow2((2 * level) as nat) as int);
    lemma_mod_bound(a, pow4(m));
    lemma_mod_bound(a / pow4(m), pow2((2 * level) as nat) as int);
    lemma_div_multiples_vanish_fancy((a / pow4(m)) % pow2((2 * level) as nat) as int, a % pow4(m), pow4(m));
}

/// The first `30 - 4 * k` levels of the position held in `id`.
pub(crate) open spec fn top_levels(id: u64, k: int) -> int {
    (id as int / pow2((8 * k + 1) as nat) as int) % pow4((30 - 4 * k) as nat)
}

/// Levels decoded once the chunks above chunk `k` are consumed.
pub(crate) open spec fn levels_done(k: int) -> nat {
    if k >= 8 {
        0
    } else {
        (30 - 4 * k) as nat
    }
}

/// The position decoded once the chunks above chunk `k` are consumed.
pub(crate) open spec fn pos_done(id: u64, k: int) -> int {
    if k >= 8 {
        0
    } else {
        top_levels(id, k)
    }
}

/// Each chunk of eight bits extends the decoded position by four levels.
pub(crate) proof fn lemma_chunk_step(id: u64, k: int)
    requires
        0 <= k < 7,
    ensures
        top_levels(id, k) / 256 == top_levels(id, k + 1),
        top_levels(id, k) % 256 == (id as int / pow2((8 * k + 1) as nat) as int) % 256,
{
    let x = id as int / pow2((8 * k + 1) as nat) as int;
    let d = pow4((26 - 4 * k) as nat);
    lemma2_to64();
    lemma_pow2_pos((8 * k + 1) as nat);
    lemma_pow2_pos(2 * (26 - 4 * k) as nat);
    lemma_pow2_adds(8, 2 * (26 - 4 * k) as nat);
    lemma_pow2_adds((8 * k + 1) as nat, 8);
    assert(pow4((30 - 4 * k) as nat) == 256 * d);
    assert((30 - 4 * (k + 1)) as nat == (26 - 4 * k) as nat);
    assert((8 * (k + 1) + 1) as nat == (8 * k + 1 + 8) as nat);
    lemma_div_denominator(id as int, pow2((8 * k + 1) as nat) as int, 256);
    lemma_mod_breakdown(x, 256, d);
    lemma_mod_bound(x / 256, d);
    lemma_mod_bound(x, 256);
    lemma_div_multiples_vanish_fancy((x / 256) % d, x % 256, 256);
    lemma_mod_multiples_vanish((x / 256) % d, x % 256, 256);
    lemma_small_mod((x % 256) as nat, 256);
}

/// The top chunk holds only two levels; from a non-inverted orientation the
/// four-level table pads them with two leading zero digits, which change
/// nothing.
pub(crate) proof fn lemma_top_chunk(o: int, c: int)
    requires
        0 <= o < 2,
        0 <= c < 16,
    ensures
        hilbert_decode(o, 4, c) == hilbert_decode(o, 2, c),
{
    lemma2_to64();
    lemma_pow2_adds(2, 2);
    assert(pow4(2) == 16);
    lemma_decode_split(o, 2, 2, c);
    lemma_decode_zero(o, 2);
    lemma_small_mod(c as nat, 16);
}

/// One step of encoding: the grid-table entry for the next four bits of `i`
/// and `j` extends the position found so far by four levels.
pub(crate) proof fn lemma_encode_step(o0: int, k: int, i: int, j: int, p: int, oo: int, e: int)
    requires
        0 <= o0 < 2,
        0 <= k < 8,
        0 <= i < pow2(30),
        0 <= j < pow2(30),
        0 <= p < pow4(levels_done(k + 1)),
        0 <= oo < 4,
        hilbert_decode(o0, levels_done(k + 1), p) == (
            i / pow2((4 * (k + 1)) as nat) as int,
            j / pow2((4 * (k + 1)) as nat) as int,
            oo,
        ),
        pos_entry_ok(
            oo,
            (i / pow2((4 * k) as nat) as int) % 16,
            (j / pow2((4 * k) as nat) as int) % 16,
            e,
        ),
    ensures
        0 <= 256 * p + e / 4 < pow4(levels_done(k)),
        hilbert_decode(o0, levels_done(k), 256 * p + e / 4) == (
            i / pow2((4 * k) as nat) as int,
            j / pow2((4 * k) as nat) as int,
            e % 4,
        ),
        p * pow2((8 * (k + 1)) as nat) + (e / 4) * pow2((8 * k) as nat) == (256 * p + e / 4)
            * pow2((8 * k) as nat),
        (256 * p + e / 4) * pow2((8 * k) as nat) < pow2(60),
        (e / 4) * pow2((8 * k) as nat) < pow2(60),
{
    lemma2_to64();
    lemma2_to64_rest();
    let q = e / 4;
    let m = levels_done(k + 1);
    let ld = levels_done(k);
    lemma_pow2_pos((4 * k) as nat);
    lemma_pow2_pos((8 * k) as nat);
    let di = i / pow2((4 * k) as nat) as int;
    let dj = j / pow2((4 * k) as nat) as int;
    let i4 = di % 16;
    let j4 = dj % 16;
    lemma_pow2_adds((4 * k) as nat, 4);
    assert((4 * (k + 1)) as nat == (4 * k + 4) as nat);
    lemma_div_denominator(i, pow2((4 * k) as nat) as int, 16);
    lemma_div_denominator(j, pow2((4 * k) as nat) as int, 16);
    lemma_fundamental_div_mod(di, 16);
    lemma_fundamental_div_mod(dj, 16);
    let ti = i / pow2((4 * (k + 1)) as nat) as int;
    let tj = j / pow2((4 * (k + 1)) as nat) as int;
    assert(di == 16 * ti + i4 && dj == 16 * tj + j4);
    lemma_decode_bounds(oo, 4, q);
    if k == 7 {
        assert(pow4(0) == 1);
        assert(p == 0);
        assert(hilbert_decode(o0, 0, 0) == (0int, 0int, o0));
        lemma_pow2_strictly_increases(30, 32);
        assert(ti == 0 && tj == 0);
        lemma_pow2_strictly_increases(28, 30);
        lemma_div_is_ordered(i, pow2(30) as int, pow2(28) as int);
        lemma_div_is_ordered(j, pow2(30) as int, pow2(28) as int);
        lemma_pow2_adds(28, 2);
        lemma_div_by_multiple(4, pow2(28) as int);
        assert(di <= 4 && dj <= 4);
        assert(di < 4 && dj < 4) by {
            if di == 4 {
                lemma_div_multiples_vanish_fancy(4, 0, pow2(28) as int);
                assert(i >= 4 * pow2(28)) by {
                    lemma_fundamental_div_mod(i, pow2(28) as int);
                    lemma_mod_bound(i, pow2(28) as int);
                }
            }
            if dj == 4 {
                assert(j >= 4 * pow2(28)) by {
                    lemma_fundamental_div_mod(j, pow2(28) as int);
                    lemma_mod_bound(j, pow2(28) as int);
                }
            }
        }
        // the entry's position fits in the two levels that remain
        lemma_pow2_adds(2, 2);
        lemma_decode_split(o0, 2, 2, q);
        let top = hilbert_decode(o0, 2, q / 16);
        lemma_decode_bounds(o0, 2, q / 16);
        lemma_decode_bounds(top.2, 2, q % 16);
        let low = hilbert_decode(top.2, 2, q % 16);
        assert(di == top.0 * 4 + low.0 && dj == top.1 * 4 + low.1);
        assert(top.0 == 0 && top.1 == 0) by (nonlinear_arith)
            requires
                di == top.0 * 4 + low.0,
                dj == top.1 * 4 + low.1,
                di < 4,
                dj < 4,
                top.0 >= 0,
                top.1 >= 0,
                low.0 >= 0,
                low.1 >= 0,
        ;
        lemma_decode_zero(o0, 2);
        lemma_decode_injective(o0, 2, q / 16, 0);
        assert(q < 16);
        lemma_top_chunk(o0, q);
        assert(pow4(2) == 16);
        assert(ld == 2);
        assert(q * pow2(56) < pow2(60));
        assert(256 * p + q == q);
        assert((8 * (k + 1)) as nat == 64);
        assert(p * pow2(64) == 0);
    } else {
        lemma_pow2_adds(4, 4);
        assert(pow4(4) == 256);
        lemma_div_multiples_vanish_fancy(p, q, 256);
        lemma_mod_multiples_vanish(p, q, 256);
        lemma_small_mod(q as nat, 256);
        lemma_decode_split(o0, m, 4, 256 * p + q);
        assert(m + 4 == ld);
        lemma_pow2_adds(2 * m, 8);
        assert(256 * p + q < pow4(ld)) by (nonlinear_arith)
            requires
                0 <= p < pow4(m),
                0 <= q < 256,
                pow4(ld) == pow4(m) * 256,
        ;
        if k < 6 {
            lemma_pow2_strictly_increases((8 * k) as nat, 48);
        }
        assert(q * pow2((8 * k) as nat) < pow2(56)) by (nonlinear_arith)
            requires
                0 <= q < 256,
                0 < pow2((8 * k) as nat) <= pow2(48),
                pow2(56) == 256 * pow2(48),
        ;
        lemma_pow2_adds((8 * k) as nat, 8);
        assert((8 * (k + 1)) as nat == (8 * k + 8) as nat);
        assert(p * pow2((8 * (k + 1)) as nat) + q * pow2((8 * k) as nat) == (256 * p + q) * pow2(
            (8 * k) as nat,
        )) by (nonlinear_arith)
            requires
                pow2((8 * (k + 1)) as nat) == pow2((8 * k) as nat) * 256,
        ;
    }
    lemma_pow2_adds(2 * ld, (8 * k) as nat);
    assert(2 * ld + 8 * k == 60);
    assert((256 * p + q) * pow2((8 * k) as nat) < pow2(60)) by (nonlinear_arith)
        requires
            0 <= 256 * p + q < pow4(ld),
            pow4(ld) * pow2((8 * k) as nat) == pow2(60),
            pow2((8 * k) as nat) > 0,
    ;
    assert(q * pow2((8 * k) as nat) <= (256 * p + q) * pow2((8 * k) as nat)) by (nonlinear_arith)
        requires
            p >= 0,
            pow2((8 * k) as nat) > 0,
    ;
}

/// Reads the leaf coordinates and orientation out of an entry of the
/// position table.
pub(crate) proof fn lemma_unpack_entry(e: u32, a: u32, b: u32, c: u32)
    requires
        a < 16,
        b < 16,
        c < 4,
        e == (a * 16 + b) * 4 + c,
    ensures
        e >> 6u32 == a,
        (e >> 2u32) & 15 == b,
        e & 3 == c,
{
    assert(e >> 6u32 == a && (e >> 2u32) & 15 == b && e & 3 == c) by (bit_vector)
        requires
            a < 16,
            b < 16,
            c < 4,
            e == (a * 16 + b) * 4 + c,
    ;
}

} // verus!
