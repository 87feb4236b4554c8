use vstd::arithmetic::div_mod::{
    lemma_div_denominator, lemma_div_multiples_vanish_fancy, lemma_fundamental_div_mod,
    lemma_mod_bound, lemma_mod_multiples_vanish, lemma_small_mod,
};
use vstd::arithmetic::power2::{
    lemma2_to64, lemma2_to64_rest, lemma_pow2_adds, lemma_pow2_pos, lemma_pow2_strictly_increases,
    pow2,
};
use vstd::bits::{
    lemma_u32_low_bits_mask_is_mod, lemma_u32_pow2_no_overflow, lemma_u32_shl_is_mul,
    lemma_u32_shr_is_div, lemma_u64_low_bits_mask_is_mod, lemma_u64_shl_is_mul,
    lemma_u64_shr_is_div, low_bits_mask,
};
use vstd::std_specs::bits::{axiom_u64_trailing_zeros, u64_trailing_zeros};
use vstd::prelude::*;

use crate::hilbert::{
    hilbert_decode, INVERT_MASK, lemma_decode_bounds, lemma_decode_injective, lemma_decode_split,
    pow4, SWAP_MASK,
};
use crate::lookup::{LOOKUP_BITS, LookupTables};
use crate::bits::{
    lemma_and_one, lemma_lowest_bit, lemma_shl_one, lemma_split_at_lowest_bit,
    lemma_trailing_zeros_of,
};
use crate::cell_id_proofs::{
    lemma_child_bits, lemma_chunk_step, lemma_decode_of_valid, lemma_encode_step, lemma_leaf_from_pos,
    lemma_leaf_pos_of_valid, lemma_parent_bits, lemma_path_at_is_prefix, lemma_top_chunk,
    lemma_unpack_entry, levels_done, pos_done, top_levels,
};

verus! {

/// Number of subdivision levels below a face cell; level 30 cells are leaves.
pub const MAX_LEVEL: i32 = 30;

/// Number of bits that hold the face number.
pub const FACE_BITS: i32 = 3;

/// Number of cube faces.
pub const NUM_FACES: i32 = 6;

/// Number of bits below the face number: two per level plus the marker bit.
pub const POS_BITS: i32 = 61;

/// Number of leaf cells along one edge of a face.
pub const MAX_SIZE: i32 = 0x4000_0000;

/// The face number held in the top three bits of an identifier.
pub open spec fn face_of(id: u64) -> int {
    id as int / pow2(61) as int
}

/// Position of the lowest set bit (64 for zero).
pub open spec fn lsb_position(id: u64) -> int {
    u64_trailing_zeros(id) as int
}

/// The lowest set bit of an identifier, as a value (zero for zero).
pub open spec fn lsb_of(id: u64) -> int {
    if id == 0 {
        0
    } else {
        pow2(u64_trailing_zeros(id) as nat) as int
    }
}

/// Subdivision level read off the position of the lowest set bit.
pub open spec fn level_of(id: u64) -> int {
    30 - lsb_position(id) / 2
}

/// An identifier is valid when its face is in range and its lowest set bit
/// sits on an even position that belongs to some level in `[0, 30]`.
pub open spec fn is_valid_id(id: u64) -> bool {
    face_of(id) < 6 && lsb_position(id) % 2 == 0 && lsb_position(id) <= 60
}

/// The lowest set bit of a cell at level `level`.
pub open spec fn lsb_at_level(level: int) -> int {
    pow2((2 * (30 - level)) as nat) as int
}

/// The identifier of the cell at `level` on `face` whose path from the face
/// cell is `path` (`level` base-4 digits, most significant first): the face,
/// then the path, then a single marker bit, then zeros.
pub open spec fn make_id(face: int, level: int, path: int) -> int {
    face * pow2(61) + (2 * path + 1) * lsb_at_level(level)
}

/// The first `level` base-4 digits of the Hilbert position held in `id`.
pub open spec fn path_at(id: u64, level: int) -> int {
    (id as int / pow2((61 - 2 * level) as nat) as int) % pow2((2 * level) as nat) as int
}

/// The path from the face cell to the cell that `id` names.
pub open spec fn cell_path(id: u64) -> int {
    path_at(id, level_of(id))
}

/// Every identifier built from a face in range, a level in `[0, 30]` and a
/// path of that many digits is valid, and its face and level are the ones
/// it was built from.
pub proof fn lemma_make_id_valid(face: int, level: int, path: int)
    requires
        0 <= face < 6,
        0 <= level <= 30,
        0 <= path < pow2((2 * level) as nat),
    ensures
        0 <= make_id(face, level, path) <= u64::MAX,
        is_valid_id(make_id(face, level, path) as u64),
        face_of(make_id(face, level, path) as u64) == face,
        level_of(make_id(face, level, path) as u64) == level,
        cell_path(make_id(face, level, path) as u64) == path,
{
    let t = (60 - 2 * level) as nat;
    let l2 = (2 * level) as nat;
    lemma_pow2_adds(t, 1);
    lemma_pow2_adds((t + 1) as nat, l2);
    lemma_pow2_pos(t);
    lemma_pow2_pos(l2);
    lemma2_to64();
    lemma2_to64_rest();
    let pt = pow2(t) as int;
    let pl = pow2(l2) as int;
    let x = make_id(face, level, path);
    let m = face * pl + path;
    assert(x == (2 * m + 1) * pt) by (nonlinear_arith)
        requires
            x == face * pow2(61) + (2 * path + 1) * pt,
            pow2(61) == pt * 2 * pl,
            m == face * pl + path,
    ;
    assert(0 <= m && 2 * m + 1 <= 2 * (5 * pl + pl - 1) + 1) by (nonlinear_arith)
        requires
            m == face * pl + path,
            0 <= face < 6,
            0 <= path < pl,
    ;
    assert(x < 6 * pow2(61)) by (nonlinear_arith)
        requires
            x == (2 * m + 1) * pt,
            2 * m + 1 <= 12 * pl - 1,
            pow2(61) == pt * 2 * pl,
            pt > 0,
    ;
    assert(0 <= x) by (nonlinear_arith)
        requires
            x == (2 * m + 1) * pt,
            m >= 0,
            pt > 0,
    ;
    assert(pow2(61) == 0x2000_0000_0000_0000);
    assert(x as u64 == x);
    lemma_trailing_zeros_of(x as u64, t, m);
    // face
    assert(pow2(61) == 2 * pt * pl);
    lemma_div_denominator(x, 2 * pt, pl);
    assert(x / (2 * pt) == m) by (nonlinear_arith)
        requires
            x == (2 * m + 1) * pt,
            pt > 0,
            m >= 0,
    {
        lemma_div_multiples_vanish_fancy(m, pt, 2 * pt);
        assert(x == (2 * pt) * m + pt);
    }
    assert(m == pl * face + path) by (nonlinear_arith)
        requires
            m == face * pl + path,
    ;
    lemma_div_multiples_vanish_fancy(face, path, pl);
    lemma_mod_multiples_vanish(face, path, pl);
    lemma_small_mod(path as nat, pl as nat);
    assert(face_of(x as u64) == x / pow2(61) as int);
    assert(x / pow2(61) as int == (x / (2 * pt)) / pl);
    assert(level_of(x as u64) == level);
    assert((61 - 2 * level) as nat == t + 1);
    assert(pow2(t + 1) == 2 * pt);
    assert(cell_path(x as u64) == (x / (2 * pt)) % pl);
}

/// The lowest set bit orders valid identifiers by level, finest first.
pub proof fn lemma_lsb_orders_levels(a: u64, b: u64)
    requires
        is_valid_id(a),
        is_valid_id(b),
    ensures
        lsb_of(a) <= lsb_of(b) <==> level_of(a) >= level_of(b),
{
    axiom_u64_trailing_zeros(a);
    axiom_u64_trailing_zeros(b);
    let ta = u64_trailing_zeros(a) as nat;
    let tb = u64_trailing_zeros(b) as nat;
    if ta < tb {
        lemma_pow2_strictly_increases(ta, tb);
    } else if tb < ta {
        lemma_pow2_strictly_increases(tb, ta);
    }
}

/// A valid identifier is the identifier built from its own face, level and path.
pub proof fn lemma_valid_id_parts(x: u64)
    requires
        is_valid_id(x),
    ensures
        x as int == make_id(face_of(x), level_of(x), cell_path(x)),
        0 <= level_of(x) <= 30,
        0 <= cell_path(x) < pow2((2 * level_of(x)) as nat),
{
    lemma_split_at_lowest_bit(x);
    let l = level_of(x);
    let t = u64_trailing_zeros(x) as nat;
    assert(t == 60 - 2 * l);
    let l2 = (2 * l) as nat;
    lemma_pow2_adds(t + 1, l2);
    lemma_pow2_pos(t + 1);
    lemma_pow2_pos(l2);
    let q = x as int / pow2(t + 1) as int;
    lemma_div_denominator(x as int, pow2(t + 1) as int, pow2(l2) as int);
    assert((t + 1 + l2) as nat == 61);
    lemma_fundamental_div_mod(q, pow2(l2) as int);
    lemma_pow2_adds(t, 1);
    lemma2_to64();
    let pt = pow2(t) as int;
    let pl = pow2(l2) as int;
    assert(make_id(face_of(x), l, cell_path(x)) == face_of(x) * pow2(61) + (2 * cell_path(x) + 1) * pt);
    assert(x as int == face_of(x) * pow2(61) + (2 * cell_path(x) + 1) * pt) by (nonlinear_arith)
        requires
            x as int == (2 * q + 1) * pt,
            q == pl * face_of(x) + cell_path(x),
            pow2(61) == pt * 2 * pl,
    ;
    lemma_mod_bound(q, pl);
}

/// The Hilbert position, 30 levels deep, held in bits 1 to 60 of `id`.
pub open spec fn leaf_pos(id: u64) -> int {
    (id as int / 2) % pow4(30)
}

/// The leaf grid square `(i, j)` that the position in `id` reaches from its
/// face's starting orientation, and the orientation there.
pub open spec fn decode_leaf(id: u64) -> (int, int, int) {
    hilbert_decode(face_of(id) % 2, 30, leaf_pos(id))
}

/// The grid square of the cell that `id` names, on the grid of its own
/// level, and the orientation of the curve within it.
pub open spec fn decode_cell(id: u64) -> (int, int, int) {
    hilbert_decode(face_of(id) % 2, level_of(id) as nat, cell_path(id))
}

/// The discrete `(si, ti)` coordinates of the center of the cell that `id`
/// names, on the grid of twice the leaf resolution, with its face.
pub open spec fn center_siti(id: u64) -> (int, int, int) {
    let size = pow2((30 - level_of(id)) as nat) as int;
    (face_of(id), (2 * decode_cell(id).0 + 1) * size, (2 * decode_cell(id).1 + 1) * size)
}

/// Round trip: the cell at any level above a leaf decodes to a leaf with the
/// same face whose grid coordinates agree with the leaf's at that level's
/// granularity. `leaf` is the leaf at `(i, j)` on `face`, as
/// `from_face_ij` returns it, and the cell is its `parent(level)`.
pub proof fn lemma_encode_decode_round_trip(face: int, i: int, j: int, level: int, leaf: u64)
    requires
        0 <= face < 6,
        0 <= i < pow2(30),
        0 <= j < pow2(30),
        0 <= level <= 30,
        is_valid_id(leaf),
        level_of(leaf) == 30,
        face_of(leaf) == face,
        decode_leaf(leaf).0 == i,
        decode_leaf(leaf).1 == j,
    ensures
        ({
            let cell = make_id(face, level, path_at(leaf, level)) as u64;
            let size = pow2((30 - level) as nat) as int;
            &&& is_valid_id(cell)
            &&& level_of(cell) == level
            &&& face_of(cell) == face
            &&& decode_leaf(cell).0 / size == i / size
            &&& decode_leaf(cell).1 / size == j / size
        }),
{
    let m = (30 - level) as nat;
    let o0 = face % 2;
    let pk = path_at(leaf, level);
    lemma_path_at_is_prefix(leaf, level);
    lemma_valid_id_parts(leaf);
    lemma_pow2_pos((2 * level) as nat);
    lemma_mod_bound(leaf as int / pow2((61 - 2 * level) as nat) as int, pow2((2 * level) as nat) as int);
    lemma_make_id_valid(face, level, pk);
    let cell = make_id(face, level, pk) as u64;
    let size = pow2(m) as int;
    lemma_pow2_pos(m);
    lemma_pow2_pos(2 * m);
    // the leaf: its first `level` digits, then the rest
    lemma_decode_split(o0, level as nat, m, leaf_pos(leaf));
    assert(level as nat + m == 30);
    let rest = hilbert_decode(hilbert_decode(o0, level as nat, pk).2, m, leaf_pos(leaf) % pow4(m));
    lemma_decode_bounds(o0, level as nat, pk);
    lemma_decode_bounds(hilbert_decode(o0, level as nat, pk).2, m, leaf_pos(leaf) % pow4(m));
    let c = hilbert_decode(o0, level as nat, pk);
    assert(i == c.0 * size + rest.0 && j == c.1 * size + rest.1);
    lemma_div_multiples_vanish_fancy(c.0, rest.0, size);
    lemma_div_multiples_vanish_fancy(c.1, rest.1, size);
    // the cell: the same first digits, then the center pattern
    lemma_decode_of_valid(cell);
    assert(decode_cell(cell) == c);
    if m > 0 {
        lemma_pow2_adds(1, (m - 1) as nat);
        lemma_pow2_pos((m - 1) as nat);
        let h = decode_leaf(cell).0 - c.0 * size;
        let half = pow2((m - 1) as nat) as int;
        lemma2_to64();
        assert((1 + (m - 1) as nat) as nat == m);
        assert(size == 2 * half);
        assert(h == (if c.2 < 2 { half } else { half - 1 }));
        assert(0 <= h < size);
        assert(decode_leaf(cell).1 == c.1 * size + h);
        assert(c.0 * size == size * c.0 && c.1 * size == size * c.1) by (nonlinear_arith);
        assert(decode_leaf(cell).0 == size * c.0 + h);
        assert(decode_leaf(cell).1 == size * c.1 + h);
        lemma_div_multiples_vanish_fancy(c.0, h, size);
        lemma_div_multiples_vanish_fancy(c.1, h, size);
    } else {
        lemma2_to64();
        assert(size == 1);
        assert(decode_leaf(cell) == c);
    }
    assert(c.0 * size == size * c.0 && c.1 * size == size * c.1) by (nonlinear_arith);
}

/// Re-encoding: a valid identifier is recovered exactly, bit for bit, from
/// its face and decoded leaf coordinates, by taking the leaf there (as
/// `from_face_ij` returns it) and its ancestor at the identifier's level.
pub proof fn lemma_decode_encode_round_trip(id: u64, leaf: u64)
    requires
        is_valid_id(id),
        is_valid_id(leaf),
        level_of(leaf) == 30,
        face_of(leaf) == face_of(id),
        decode_leaf(leaf).0 == decode_leaf(id).0,
        decode_leaf(leaf).1 == decode_leaf(id).1,
    ensures
        make_id(face_of(id), level_of(id), path_at(leaf, level_of(id))) == id as int,
{
    let o0 = face_of(id) % 2;
    lemma_valid_id_parts(id);
    lemma_valid_id_parts(leaf);
    lemma2_to64();
    lemma_pow2_pos(60);
    lemma_pow2_adds(30, 30);
    assert(pow4(30) == pow2(60));
    lemma_mod_bound(leaf as int / 2, pow4(30));
    lemma_mod_bound(id as int / 2, pow4(30));
    lemma_decode_injective(o0, 30, leaf_pos(leaf), leaf_pos(id));
    lemma_path_at_is_prefix(leaf, level_of(id));
    lemma_path_at_is_prefix(id, level_of(id));
}

/// A cell sits at the midpoint of the identifiers of its descendants: every
/// valid identifier on the same face whose path begins with the cell's path
/// lies within `lsb - 1` of the cell's own identifier.
pub proof fn lemma_descendants_surround_cell(id: u64, desc: u64)
    requires
        is_valid_id(id),
        is_valid_id(desc),
        face_of(desc) == face_of(id),
        level_of(desc) >= level_of(id),
        path_at(desc, level_of(id)) == cell_path(id),
    ensures
        id - (lsb_of(id) - 1) <= desc <= id + (lsb_of(id) - 1),
{
    let k = level_of(id);
    let t = (60 - 2 * k) as nat;
    let l2 = (2 * k) as nat;
    lemma_valid_id_parts(id);
    lemma_valid_id_parts(desc);
    lemma_split_at_lowest_bit(desc);
    lemma2_to64();
    lemma_pow2_pos(t);
    lemma_pow2_pos(t + 1);
    lemma_pow2_pos(l2);
    lemma_pow2_adds(t, 1);
    lemma_pow2_adds(t + 1, l2);
    assert(t + 1 + l2 == 61);
    let pt = pow2(t) as int;
    let pt1 = pow2(t + 1) as int;
    let pl = pow2(l2) as int;
    // `desc` splits at bit `t + 1` into the cell's face and path, then a
    // nonzero remainder below.
    let q = desc as int / pt1;
    let rem = desc as int % pt1;
    lemma_fundamental_div_mod(desc as int, pt1);
    lemma_mod_bound(desc as int, pt1);
    lemma_div_denominator(desc as int, pt1, pl);
    lemma_fundamental_div_mod(q, pl);
    assert(q == pl * face_of(id) + cell_path(id));
    // the remainder is not zero: `desc` has a set bit at or below bit `t`
    let td = u64_trailing_zeros(desc) as nat;
    assert(td <= t);
    let md = desc as int / pow2(td + 1) as int;
    if rem == 0 {
        let d = (t + 1 - td) as nat;
        lemma_pow2_adds(td, d);
        lemma_pow2_adds(1, (d - 1) as nat);
        lemma_pow2_pos(td);
        lemma_pow2_pos((d - 1) as nat);
        assert(desc as int == (2 * md + 1) * pow2(td));
        assert(desc as int == (2 * (q * pow2((d - 1) as nat))) * pow2(td)) by (nonlinear_arith)
            requires
                desc as int == pt1 * q + 0,
                pt1 == pow2(td) * pow2(d),
                pow2(d) == 2 * pow2((d - 1) as nat),
        ;
        lemma_mul_equality_converse_pos(pow2(td) as int, 2 * md + 1, 2 * (q * pow2((d - 1) as nat)));
        assert(false);
    }
    assert(id as int == face_of(id) * pow2(61) + (2 * cell_path(id) + 1) * pt);
    assert(id as int == pt1 * q + pt) by (nonlinear_arith)
        requires
            id as int == face_of(id) * pow2(61) + (2 * cell_path(id) + 1) * pt,
            q == pl * face_of(id) + cell_path(id),
            pow2(61) == pt1 * pl,
            pt1 == pt * 2,
    ;
    axiom_u64_trailing_zeros(id);
    assert(lsb_of(id) == pt);
}

/// Two products with the same positive factor are equal only when the other
/// factors are.
proof fn lemma_mul_equality_converse_pos(m: int, a: int, b: int)
    requires
        m > 0,
        a * m == b * m,
    ensures
        a == b,
{
    if a < b {
        assert(a * m < b * m) by (nonlinear_arith)
            requires
                m > 0,
                a < b,
        ;
    } else if a > b {
        assert(a * m > b * m) by (nonlinear_arith)
            requires
                m > 0,
                a > b,
        ;
    }
}

/// The parent of each child of a cell, at the cell's level, is the cell.
pub proof fn lemma_parent_of_child(id: u64, position: int)
    requires
        is_valid_id(id),
        level_of(id) < 30,
        0 <= position < 4,
    ensures
        ({
            let c = make_id(face_of(id), level_of(id) + 1, 4 * cell_path(id) + position) as u64;
            make_id(face_of(c), level_of(id), path_at(c, level_of(id))) == id as int
        }),
{
    lemma_child_bits(id, position);
    let k = level_of(id);
    let c = make_id(face_of(id), k + 1, 4 * cell_path(id) + position) as u64;
    lemma_path_at_is_prefix(c, k);
    lemma_leaf_pos_of_valid(c);
    lemma_valid_id_parts(id);
    let m = (29 - k) as nat;
    let p = 4 * cell_path(id) + position;
    lemma2_to64();
    lemma_pow2_pos(2 * m);
    lemma_pow2_adds(2, 2 * m);
    assert(pow4((30 - k) as nat) == 4 * pow4(m));
    if k + 1 == 30 {
        assert(leaf_pos(c) == p);
        assert(pow4(1) == 4);
        lemma_div_multiples_vanish_fancy(cell_path(id), position, 4);
    } else {
        lemma_pow2_pos((2 * (m - 1)) as nat);
        lemma_pow2_adds(2, (2 * (m - 1)) as nat);
        assert(leaf_pos(c) == p * pow4(m) + 2 * pow4((m - 1) as nat));
        assert(0 <= 2 * pow4((m - 1) as nat) < pow4(m));
        assert(leaf_pos(c) == (4 * pow4(m)) * cell_path(id) + (position * pow4(m) + 2 * pow4(
            (m - 1) as nat,
        ))) by (nonlinear_arith)
            requires
                leaf_pos(c) == p * pow4(m) + 2 * pow4((m - 1) as nat),
                p == 4 * cell_path(id) + position,
        ;
        assert(0 <= position * pow4(m) + 2 * pow4((m - 1) as nat) < 4 * pow4(m)) by (nonlinear_arith)
            requires
                0 <= position < 4,
                0 <= 2 * pow4((m - 1) as nat) < pow4(m),
        ;
        lemma_div_multiples_vanish_fancy(
            cell_path(id),
            position * pow4(m) + 2 * pow4((m - 1) as nat),
            4 * pow4(m),
        );
    }
}

/// The sentinel value exceeds every valid identifier.
pub proof fn lemma_sentinel_exceeds_valid(id: u64)
    requires
        is_valid_id(id),
    ensures
        id < u64::MAX,
{
    lemma2_to64_rest();
}

/// Bits `4 * k` to `4 * k + 3` of a grid coordinate.
fn grid_chunk(v: u32, k: i32) -> (r: u32)
    requires
        0 <= k < 8,
    ensures
        r == (v as int / pow2((4 * k) as nat) as int) % 16,
        r < 16,
{
    proof {
        lemma2_to64();
        lemma_u32_shr_is_div(v, (4 * k) as u32);
        lemma_u32_low_bits_mask_is_mod(v >> ((4 * k) as u32), 4);
        assert(1u32 << 4u32 == 16) by (bit_vector);
    }
    let mask: u32 = (1u32 << (LOOKUP_BITS as u32)) - 1;
    (v >> ((k * LOOKUP_BITS) as u32)) & mask
}

/// `v & -size` rounds a leaf index down to a multiple of the power of two
/// `size`.
fn lower_corner(v: i32, size: i32, level: i32) -> (r: i32)
    requires
        0 <= v < MAX_SIZE,
        0 <= level <= 30,
        size == pow2((30 - level) as nat),
    ensures
        r == v as int / size as int * size as int,
{
    let s = (30 - level) as u32;
    let r = v & (-size);
    proof {
        lemma_u32_pow2_no_overflow(s as nat);
        lemma_u32_shl_is_mul(1, s);
        lemma2_to64();
        lemma_pow2_strictly_increases(s as nat, 31);
        let vu = v as u32;
        let m = ((1u32 << s) - 1) as u32;
        assert(size == (1u32 << s) as i32);
        assert(r >= 0 && r as u32 == vu - (vu & m)) by (bit_vector)
            requires
                0 <= v,
                s <= 30,
                vu == v as u32,
                size == (1u32 << s) as i32,
                m == ((1u32 << s) - 1) as u32,
                r == v & ((-size) as i32),
        ;
        assert(pow2(s as nat) - 1 == low_bits_mask(s as nat));
        lemma_u32_low_bits_mask_is_mod(vu, s as nat);
        assert(vu & m == vu % (pow2(s as nat) as u32));
        lemma_fundamental_div_mod(v as int, size as int);
        assert(r == v - v % size);
    }
    r
}

/// A 64-bit identifier of a cell: a face number in the top three bits,
/// followed by the Hilbert-curve position of the cell's center on that face.
#[derive(Clone, Copy, PartialEq, Eq, Structural, PartialOrd, Debug)]
pub struct S2CellId {
    id: u64,
}

impl View for S2CellId {
    type V = u64;

    closed spec fn view(&self) -> u64 {
        self.id
    }
}

impl S2CellId {
    /// The identifier with the given 64-bit value.
    pub fn new(id: u64) -> (r: S2CellId)
        ensures
            r@ == id,
    {
        S2CellId { id }
    }

    /// The 64-bit value.
    pub fn id(&self) -> (r: u64)
        ensures
            r == self@,
    {
        self.id
    }

    /// The zero identifier, which is not valid.
    pub fn none() -> (r: S2CellId)
        ensures
            r@ == 0,
            !is_valid_id(r@),
    {
        proof {
            axiom_u64_trailing_zeros(0);
        }
        S2CellId::new(0)
    }

    /// The all-ones identifier, which is not valid and exceeds every valid one.
    pub fn sentinel() -> (r: S2CellId)
        ensures
            r@ == u64::MAX,
            !is_valid_id(r@),
    {
        proof {
            vstd::arithmetic::power2::lemma2_to64_rest();
            assert(face_of(u64::MAX) == 7);
        }
        S2CellId::new(u64::MAX)
    }

    /// Which cube face this cell belongs to (in `[0, 6)` for a valid cell).
    pub fn face(&self) -> (r: i32)
        ensures
            r == face_of(self@),
            0 <= r < 8,
    {
        proof {
            lemma_u64_shr_is_div(self.id, 61);
            lemma2_to64_rest();
        }
        (self.id >> (POS_BITS as u64)) as i32
    }

    /// The position of the cell center along the Hilbert curve over its face:
    /// the 61 bits below the face number.
    pub fn pos(&self) -> (r: u64)
        ensures
            r == self@ as int % pow2(61) as int,
    {
        let r = self.id & (u64::MAX >> (FACE_BITS as u64));
        proof {
            let x = self.id;
            assert(x & (0xffff_ffff_ffff_ffffu64 >> 3u64) == x & 0x1fff_ffff_ffff_ffffu64)
                by (bit_vector);
            lemma2_to64_rest();
            lemma_u64_low_bits_mask_is_mod(x, 61);
        }
        r
    }

    /// The subdivision level, read off the lowest set bit. Meaningful for
    /// valid identifiers, where it lies in `[0, 30]`.
    pub fn level(&self) -> (r: i32)
        requires
            self@ != 0,
        ensures
            r == level_of(self@),
    {
        proof {
            axiom_u64_trailing_zeros(self@);
        }
        let tz = self.id.trailing_zeros();
        proof {
            lemma_u32_shr_is_div(tz, 1);
            lemma2_to64();
        }
        MAX_LEVEL - (tz >> 1u32) as i32
    }

    /// Whether the value names a cell: the face is in range and the lowest
    /// set bit sits on an even position of some level in `[0, 30]`.
    pub fn is_valid(&self) -> (r: bool)
        ensures
            r == is_valid_id(self@),
    {
        let lsb = self.lsb();
        proof {
            if self.id != 0 {
                lemma_lowest_bit(self.id);
                let t = u64_trailing_zeros(self.id) as u64;
                lemma_shl_one(t);
                assert(((1u64 << t) & 0x1555_5555_5555_5555u64 != 0) == (t % 2 == 0 && t <= 60))
                    by (bit_vector)
                    requires
                        t < 64,
                ;
            } else {
                axiom_u64_trailing_zeros(0);
                assert(0u64 & 0x1555_5555_5555_5555u64 == 0) by (bit_vector);
            }
        }
        self.face() < NUM_FACES && (lsb & 0x1555_5555_5555_5555u64) != 0
    }

    /// Whether this is a leaf cell (level 30).
    pub fn is_leaf(&self) -> (r: bool)
        ensures
            r == (self@ % 2 == 1),
            is_valid_id(self@) ==> (r == (level_of(self@) == 30)),
    {
        proof {
            let x = self.id;
            axiom_u64_trailing_zeros(x);
            assert(x >> 0u64 == x) by (bit_vector);
            lemma_and_one(x);
            if u64_trailing_zeros(x) > 0 {
                assert((x >> 0u64) & 1 == 0);
            }
        }
        (self.id & 1) != 0
    }

    /// Whether this is a face cell (level 0).
    pub fn is_face(&self) -> (r: bool)
        ensures
            r == (self@ as int % pow2(60) as int == 0),
            is_valid_id(self@) ==> (r == (level_of(self@) == 0)),
    {
        proof {
            lemma2_to64_rest();
            lemma2_to64();
        }
        let r = (self.id & (self.lsb_for_level(0) - 1)) == 0;
        proof {
            let x = self.id;
            lemma_u64_low_bits_mask_is_mod(x, 60);
            if is_valid_id(x) {
                axiom_u64_trailing_zeros(x);
                let t = u64_trailing_zeros(x) as u64;
                if t < 60 {
                    assert(x & 0x0fff_ffff_ffff_ffffu64 != 0) by (bit_vector)
                        requires
                            t < 60,
                            (x >> t) & 1 == 1,
                    ;
                } else {
                    assert(x & 0x0fff_ffff_ffff_ffffu64 == 0) by (bit_vector)
                        requires
                            t == 60,
                            x << (64 - t) as u64 == 0,
                    ;
                }
            }
        }
        r
    }

    /// The lowest set bit of a cell at `level`.
    pub fn lsb_for_level(&self, level: i32) -> (r: u64)
        requires
            0 <= level <= 30,
        ensures
            r == lsb_at_level(level as int),
    {
        proof {
            lemma_shl_one((2 * (30 - level)) as u64);
        }
        1u64 << (2 * (MAX_LEVEL - level)) as u64
    }

    /// The edge length, in leaf cells, of a cell at `level`.
    pub fn get_size_ij_at_level(level: i32) -> (r: i32)
        requires
            0 <= level <= 30,
        ensures
            r == pow2((30 - level) as nat),
    {
        proof {
            let s = (30 - level) as u32;
            lemma_u32_pow2_no_overflow(s as nat);
            lemma_u32_shl_is_mul(1, s);
            lemma_pow2_strictly_increases(s as nat, 31);
            lemma2_to64();
            if s < 30 {
                lemma_pow2_strictly_increases(s as nat, 30);
            }
        }
        (1u32 << (MAX_LEVEL - level) as u32) as i32
    }

    /// The edge length, in leaf cells, of this cell.
    pub fn get_size_ij(&self) -> (r: i32)
        requires
            is_valid_id(self@),
        ensures
            r == pow2((30 - level_of(self@)) as nat),
    {
        S2CellId::get_size_ij_at_level(self.level())
    }

    /// The cell that covers the whole of `face`.
    pub fn from_face(face: i32) -> (r: S2CellId)
        requires
            0 <= face < 6,
        ensures
            r@ == make_id(face as int, 0, 0),
            is_valid_id(r@),
            face_of(r@) == face,
            level_of(r@) == 0,
    {
        proof {
            lemma2_to64_rest();
            lemma2_to64();
            lemma_u64_shl_is_mul(face as u64, 61);
            lemma_shl_one(60);
            lemma_make_id_valid(face as int, 0, 0);
        }
        S2CellId::new(((face as u64) << (POS_BITS as u64)) + (1u64 << 60u64))
    }

    /// The cell at `level` on `face` that contains the point at Hilbert
    /// position `pos` (61 bits): its path is the first `level` digits of `pos`.
    pub fn from_face_pos_level(face: i8, pos: u64, level: i8) -> (r: S2CellId)
        requires
            0 <= face < 6,
            pos < pow2(61),
            0 <= level <= 30,
        ensures
            r@ == make_id(face as int, level as int, pos as int / pow2((61 - 2 * level) as nat) as int),
            is_valid_id(r@),
            face_of(r@) == face,
            level_of(r@) == level,
    {
        proof {
            lemma2_to64_rest();
            lemma_u64_shl_is_mul(face as u64, 61);
            lemma_leaf_from_pos(face as int, pos, level as int);
        }
        let cell = S2CellId::new(((face as u64) << (POS_BITS as u64)) + (pos | 1));
        cell.parent(level as i32)
    }

    /// The ancestor of this cell at `level`: the same face and the first
    /// `level` digits of its path.
    pub fn parent(&self, level: i32) -> (r: S2CellId)
        requires
            is_valid_id(self@),
            0 <= level <= level_of(self@),
        ensures
            r@ == make_id(face_of(self@), level as int, path_at(self@, level as int)),
            is_valid_id(r@),
            face_of(r@) == face_of(self@),
            level_of(r@) == level,
            cell_path(r@) == path_at(self@, level as int),
    {
        let new_lsb = self.lsb_for_level(level);
        let r = (self.id & (!new_lsb).wrapping_add(1)) | new_lsb;
        proof {
            lemma_parent_bits(self.id, level as int);
        }
        S2CellId::new(r)
    }

    /// Decodes the face, the leaf grid coordinates `(i, j)` that the
    /// identifier's position reaches, and the curve orientation, consuming
    /// the position four levels at a time, most significant first.
    pub fn to_face_ij_orientation(&self, tables: &LookupTables) -> (r: (i32, i32, i32, i32))
        ensures
            r.0 == face_of(self@),
            r.1 == decode_leaf(self@).0,
            r.2 == decode_leaf(self@).1,
            0 <= r.1 < MAX_SIZE,
            0 <= r.2 < MAX_SIZE,
            is_valid_id(self@) ==> r.3 == decode_cell(self@).2,
    {
        let face = self.face();
        let mut i: u32 = 0;
        let mut j: u32 = 0;
        let mut bits: u32 = (face & SWAP_MASK) as u32;
        let ghost o0 = face_of(self@) % 2;
        proof {
            assert(face & SWAP_MASK == face % 2) by (bit_vector)
                requires
                    0 <= face < 8,
            ;
            lemma2_to64();
            assert(hilbert_decode(o0, 0, 0) == (0int, 0int, o0));
            assert(0 * pow2(32) == 0);
        }
        let mut k: i32 = 8;
        while k > 0
            invariant
                0 <= k <= 8,
                face == face_of(self@),
                o0 == face_of(self@) % 2,
                ({
                    let (ii, jj, oo) = hilbert_decode(o0, levels_done(k as int), pos_done(self@, k as int));
                    &&& i == ii * pow2((4 * k) as nat)
                    &&& j == jj * pow2((4 * k) as nat)
                    &&& bits == oo
                }),
                0 <= i < pow2((levels_done(k as int) + 4 * k) as nat),
                0 <= j < pow2((levels_done(k as int) + 4 * k) as nat),
                bits < 4,
            decreases k,
        {
            k = k - 1;
            let nbits: i32 = if k == 7 {
                MAX_LEVEL - 7 * LOOKUP_BITS
            } else {
                LOOKUP_BITS
            };
            proof {
                lemma2_to64();
                assert(pow2((2 * nbits) as nat) <= 256);
            }
            let ghost x = self@ as int / pow2((8 * k + 1) as nat) as int;
            let ghost m = levels_done(k + 1);
            let ghost (ii, jj, oo) = hilbert_decode(o0, m, pos_done(self@, k + 1));
            proof {
                lemma_u64_shr_is_div(self.id, (8 * k + 1) as u64);
                lemma_shl_one((2 * nbits) as u64);
                lemma_u64_low_bits_mask_is_mod(self.id >> ((8 * k + 1) as u64), (2 * nbits) as nat);
                lemma_pow2_pos((2 * nbits) as nat);
                lemma_pow2_pos((2 * m) as nat);
                lemma_pow2_pos((8 * k + 1) as nat);
                lemma_mod_bound(x, pow2((2 * nbits) as nat) as int);
                if k < 7 {
                    lemma_pow2_pos((2 * (30 - 4 * (k + 1))) as nat);
                    lemma_mod_bound(self@ as int / pow2((8 * (k + 1) + 1) as nat) as int, pow4(m));
                }
                lemma_decode_bounds(o0, m, pos_done(self@, k + 1));
            }
            let chunk: u64 = (self.id >> ((k * 2 * LOOKUP_BITS + 1) as u64)) & ((1u64 << ((2
                * nbits) as u64)) - 1);
            assert(chunk == x % pow2((2 * nbits) as nat) as int);
            assert(chunk < 256);
            proof {
                lemma_u32_shl_is_mul(chunk as u32, 2);
            }
            bits = bits + ((chunk as u32) << 2u32);
            bits = tables.ij_entry_at(bits as usize) as u32;
            let ghost (i4, j4, o2) = hilbert_decode(oo, 4, chunk as int);
            proof {
                lemma_decode_bounds(oo, 4, chunk as int);
                lemma_unpack_entry(bits, i4 as u32, j4 as u32, o2 as u32);
                if k == 7 {
                    lemma_top_chunk(o0, chunk as int);
                    lemma_decode_bounds(o0, 2, chunk as int);
                    assert(top_levels(self@, 7) == chunk);
                } else {
                    lemma_chunk_step(self@, k as int);
                    lemma_pow2_adds(2, 2);
                    lemma_pow2_adds(4, 4);
                    assert(pow4(4) == 256);
                    lemma_decode_split(o0, m, 4, top_levels(self@, k as int));
                    assert(m + 4 == levels_done(k as int));
                }
                lemma_pow2_adds(4 * k as nat, 4);
                lemma_pow2_adds(m, 4 * (k + 1) as nat);
                lemma_pow2_adds((m + 4) as nat, 4 * k as nat);
                lemma_pow2_pos(4 * k as nat);
                if k == 7 {
                    assert(i4 * pow2(28) < 0x4000_0000 && j4 * pow2(28) < 0x4000_0000);
                } else {
                    if k < 6 {
                        lemma_pow2_strictly_increases((4 * k) as nat, 24);
                    }
                    assert(i4 * pow2((4 * k) as nat) < 0x1000_0000) by (nonlinear_arith)
                        requires
                            0 <= i4 < 16,
                            pow2((4 * k) as nat) <= pow2(24),
                            pow2(24) == 0x100_0000,
                    ;
                    assert(j4 * pow2((4 * k) as nat) < 0x1000_0000) by (nonlinear_arith)
                        requires
                            0 <= j4 < 16,
                            pow2((4 * k) as nat) <= pow2(24),
                            pow2(24) == 0x100_0000,
                    ;
                }
                lemma_u32_shl_is_mul(i4 as u32, (k * 4) as u32);
                lemma_u32_shl_is_mul(j4 as u32, (k * 4) as u32);
                assert(1u32 << 4u32 == 16) by (bit_vector);
                assert(1i32 | 2i32 == 3i32) by (bit_vector);
            }
            let ghost i_before = i;
            let ghost j_before = j;
            i = i + ((bits >> ((LOOKUP_BITS + 2) as u32)) << ((k * LOOKUP_BITS) as u32));
            j = j + (((bits >> 2u32) & ((1u32 << (LOOKUP_BITS as u32)) - 1)) << ((k
                * LOOKUP_BITS) as u32));
            bits = bits & ((SWAP_MASK | INVERT_MASK) as u32);
            proof {
                let ld = levels_done(k as int);
                let (ni, nj, no) = hilbert_decode(o0, ld, pos_done(self@, k as int));
                let p4k = pow2((4 * k) as nat) as int;
                assert(i == i_before + i4 * p4k);
                assert(j == j_before + j4 * p4k);
                if k == 7 {
                    assert(hilbert_decode(o0, 0, 0) == (0int, 0int, o0));
                    assert(ii == 0 && jj == 0 && oo == o0);
                    assert(i_before == 0 && j_before == 0) by (nonlinear_arith)
                        requires
                            i_before == ii * pow2(32),
                            j_before == jj * pow2(32),
                            ii == 0,
                            jj == 0,
                    ;
                    assert(ni == i4 && nj == j4 && no == o2);
                    assert(ni == ii * 16 + i4 && nj == jj * 16 + j4);
                } else {
                    assert(pos_done(self@, k as int) / pow4(4) == pos_done(self@, k + 1));
                    assert(pos_done(self@, k as int) % pow4(4) == chunk);
                    assert(ni == ii * 16 + i4 && nj == jj * 16 + j4 && no == o2);
                }
                assert(pow2((4 * (k + 1)) as nat) == p4k * 16);
                assert(i == ni * p4k && j == nj * p4k) by (nonlinear_arith)
                    requires
                        i == i_before + i4 * p4k,
                        j == j_before + j4 * p4k,
                        i_before == ii * pow2((4 * (k + 1)) as nat),
                        j_before == jj * pow2((4 * (k + 1)) as nat),
                        pow2((4 * (k + 1)) as nat) == p4k * 16,
                        ni == ii * 16 + i4,
                        nj == jj * 16 + j4,
                ;
                lemma_decode_bounds(o0, ld, pos_done(self@, k as int));
                lemma_pow2_adds(ld, (4 * k) as nat);
                assert(i < pow2((ld + 4 * k) as nat) && j < pow2((ld + 4 * k) as nat))
                    by (nonlinear_arith)
                    requires
                        i == ni * p4k,
                        j == nj * p4k,
                        0 <= ni < pow2(ld),
                        0 <= nj < pow2(ld),
                        p4k > 0,
                        pow2((ld + 4 * k) as nat) == pow2(ld) * p4k,
                ;
            }
        }
        proof {
            lemma2_to64();
            assert(pow2(0) == 1);
            assert(levels_done(0) == 30);
            assert(top_levels(self@, 0) == leaf_pos(self@));
            assert(pos_done(self@, 0) == leaf_pos(self@));
            let dl = hilbert_decode(o0, 30, leaf_pos(self@));
            assert(hilbert_decode(o0, levels_done(0), pos_done(self@, 0)) == dl);
            assert(i == dl.0 * pow2(0) && j == dl.1 * pow2(0));
            assert(i == dl.0 && j == dl.1) by (nonlinear_arith)
                requires
                    i == dl.0 * pow2(0),
                    j == dl.1 * pow2(0),
                    pow2(0) == 1,
            ;
            assert(i < 0x4000_0000 && j < 0x4000_0000);
            assert(decode_leaf(self@) == hilbert_decode(o0, 30, leaf_pos(self@)));
            assert(i == decode_leaf(self@).0);
            assert(j == decode_leaf(self@).1);
        }
        // Decoding ran through the center pattern below the cell, which
        // flipped the swap bit once per level after the first; undo an odd
        // number of flips.
        let lsb = self.lsb();
        let orientation = if lsb & 0x1111_1111_1111_1110u64 != 0 {
            bits ^ (SWAP_MASK as u32)
        } else {
            bits
        };
        proof {
            assert(bits ^ 1u32 == (if bits % 2 == 0 { bits + 1 } else { bits - 1 }))
                by (bit_vector)
                requires
                    bits < 4,
            ;
            if is_valid_id(self@) {
                lemma_decode_of_valid(self@);
                lemma_lowest_bit(self@);
                let t = u64_trailing_zeros(self@) as u64;
                lemma_shl_one(t);
                assert(((1u64 << t) & 0x1111_1111_1111_1110u64 != 0) == (t % 4 == 0 && 4 <= t
                    && t <= 60)) by (bit_vector)
                    requires
                        t < 64,
                ;
            }
        }
        (face, i as i32, j as i32, orientation as i32)
    }

    /// The discrete `(si, ti)` coordinates of the cell's center, with its
    /// face. Decoding reaches one of the two leaves next to the center (the
    /// leaf itself for a leaf cell); the low bit of `i`, against bit 2 of the
    /// identifier, tells which.
    pub fn get_center_siti(&self, tables: &LookupTables) -> (r: (i32, i32, i32))
        requires
            is_valid_id(self@),
        ensures
            (r.0 as int, r.1 as int, r.2 as int) == center_siti(self@),
            level_of(self@) == 30 ==> r.1 == 2 * decode_leaf(self@).0 + 1 && r.2 == 2
                * decode_leaf(self@).1 + 1,
    {
        let (face, i, j, _) = self.to_face_ij_orientation(tables);
        let ghost m = (30 - level_of(self@)) as nat;
        let ghost (ci, cj, co) = decode_cell(self@);
        proof {
            lemma_decode_of_valid(self@);
            lemma2_to64();
            axiom_u64_trailing_zeros(self@);
            lemma_u64_shr_is_div(self@, 2);
            lemma_and_one(self@ >> 2u64);
        }
        let bit2: i32 = ((self.id >> 2u64) & 1) as i32;
        let low: i32 = i & 1;
        proof {
            assert(low == i % 2) by (bit_vector)
                requires
                    i >= 0,
                    low == i & 1,
            ;
            let t = u64_trailing_zeros(self@) as u64;
            assert(t == 2 * m);
            if t == 2 {
                assert(bit2 == 1);
            } else if t > 2 {
                assert((self@ >> 2u64) & 1 == 0);
                assert(bit2 == 0);
            }
        }
        let delta: i32 = if self.is_leaf() {
            1
        } else if (low ^ bit2) != 0 {
            2
        } else {
            0
        };
        proof {
            assert((low ^ bit2 != 0) == (low != bit2)) by (bit_vector)
                requires
                    0 <= low < 2,
                    0 <= bit2 < 2,
            ;
            let size = pow2(m) as int;
            lemma_pow2_pos(m);
            lemma_pow2_adds(level_of(self@) as nat, m);
            assert(level_of(self@) as nat + m == 30);
            assert((2 * ci + 1) * size < 0x8000_0000) by (nonlinear_arith)
                requires
                    0 <= ci < pow2(level_of(self@) as nat),
                    pow2(level_of(self@) as nat) * size == pow2(30),
                    pow2(30) == 0x4000_0000,
                    size > 0,
            ;
            assert((2 * cj + 1) * size < 0x8000_0000) by (nonlinear_arith)
                requires
                    0 <= cj < pow2(level_of(self@) as nat),
                    pow2(level_of(self@) as nat) * size == pow2(30),
                    pow2(30) == 0x4000_0000,
                    size > 0,
            ;
            if m == 0 {
                assert(size == 1);
                assert(delta == 1);
            } else {
                let half = pow2((m - 1) as nat) as int;
                lemma_pow2_adds(1, (m - 1) as nat);
                assert(size == 2 * half);
                let base_i = ci * size;
                let base_j = cj * size;
                assert(base_i == 2 * (ci * half) && base_j == 2 * (cj * half)) by (nonlinear_arith)
                    requires
                        base_i == ci * size,
                        base_j == cj * size,
                        size == 2 * half,
                ;
                if m == 1 {
                    assert(half == 1);
                } else {
                    lemma_pow2_adds(1, (m - 2) as nat);
                    lemma_pow2_pos((m - 2) as nat);
                    assert(half == 2 * pow2((m - 2) as nat));
                }
                let a = ci * half;
                let b = cj * half;
                assert(!(self@ % 2 == 1));
                if m == 1 {
                    assert(bit2 == 1);
                    if co < 2 {
                        assert(i == 2 * a + 1 && j == 2 * b + 1);
                        assert(low == 1);
                        assert(delta == 0);
                    } else {
                        assert(i == 2 * a && j == 2 * b);
                        assert(low == 0);
                        assert(delta == 2);
                    }
                } else {
                    assert(bit2 == 0);
                    let q = pow2((m - 2) as nat) as int;
                    if co < 2 {
                        assert(i == 2 * (a + q) && j == 2 * (b + q));
                        assert(low == 0);
                        assert(delta == 0);
                    } else {
                        assert(i == 2 * (a + q - 1) + 1 && j == 2 * (b + q - 1) + 1);
                        assert(low == 1);
                        assert(delta == 2);
                    }
                }
                assert((2 * ci + 1) * size == 2 * base_i + size && (2 * cj + 1) * size == 2
                    * base_j + size) by (nonlinear_arith)
                    requires
                        base_i == ci * size,
                        base_j == cj * size,
                ;
                assert(2 * i + delta == (2 * ci + 1) * size);
                assert(2 * j + delta == (2 * cj + 1) * size);
            }
        }
        (face, 2 * i + delta, 2 * j + delta)
    }

    /// The leaf cell at grid coordinates `(i, j)` on `face`, encoding its
    /// Hilbert position four levels at a time, most significant first.
    pub fn from_face_ij(face: i32, i: i32, j: i32, tables: &LookupTables) -> (r: S2CellId)
        requires
            0 <= face < 6,
            0 <= i < MAX_SIZE,
            0 <= j < MAX_SIZE,
        ensures
            is_valid_id(r@),
            face_of(r@) == face,
            level_of(r@) == 30,
            decode_leaf(r@).0 == i,
            decode_leaf(r@).1 == j,
    {
        proof {
            lemma2_to64();
            lemma2_to64_rest();
            lemma_u64_shl_is_mul(face as u64, 60);
            assert(face & SWAP_MASK == face % 2) by (bit_vector)
                requires
                    0 <= face < 8,
            ;
            lemma_pow2_strictly_increases(30, 32);
            assert(i as int / pow2(32) as int == 0 && j as int / pow2(32) as int == 0);
            assert(hilbert_decode(face as int % 2, 0, 0) == (0int, 0int, face as int % 2));
            assert(0 * pow2(64) == 0);
        }
        let ghost o0: int = face as int % 2;
        let ui = i as u32;
        let uj = j as u32;
        let mut n: u64 = (face as u64) << ((POS_BITS - 1) as u64);
        let mut bits: u32 = (face & SWAP_MASK) as u32;
        let ghost mut p: int = 0;
        let mut k: i32 = 8;
        while k > 0
            invariant
                0 <= k <= 8,
                0 <= face < 6,
                o0 == face % 2,
                ui == i,
                uj == j,
                0 <= i < MAX_SIZE,
                0 <= j < MAX_SIZE,
                0 <= p < pow4(levels_done(k as int)),
                n == face * pow2(60) + p * pow2((8 * k) as nat),
                hilbert_decode(o0, levels_done(k as int), p) == (
                    i as int / pow2((4 * k) as nat) as int,
                    j as int / pow2((4 * k) as nat) as int,
                    bits as int,
                ),
                bits < 4,
            decreases k,
        {
            k = k - 1;
            let ghost m = levels_done(k + 1);
            proof {
                lemma2_to64();
            }
            let i4 = grid_chunk(ui, k);
            let j4 = grid_chunk(uj, k);
            proof {
                lemma_u32_shl_is_mul(i4, 6);
                lemma_u32_shl_is_mul(j4, 2);
            }
            let ghost oo = bits as int;
            let index: u32 = bits + (i4 << ((LOOKUP_BITS + 2) as u32)) + (j4 << 2u32);
            assert(index as int % 4 == oo && index as int / 64 == i4 && (index as int / 4) % 16
                == j4);
            let e: u32 = tables.pos_entry_at(index as usize) as u32;
            let ghost q = e as int / 4;
            let ghost p_next = 256 * p + q;
            proof {
                lemma2_to64_rest();
                lemma_u32_shr_is_div(e, 2);
                assert(e & 3 == e % 4) by (bit_vector);
                lemma_encode_step(o0, k as int, i as int, j as int, p, oo, e as int);
                lemma_u64_shl_is_mul(q as u64, (8 * k) as u64);
            }
            n = n + (((e >> 2u32) as u64) << ((k * 2 * LOOKUP_BITS) as u64));
            bits = e & 3;
            proof {
                p = p_next;
            }
        }
        proof {
            lemma_make_id_valid(face as int, 30, p);
            lemma_pow2_adds(30, 30);
            assert(pow2(0) == 1);
            assert(p * pow2(0) == p) by (nonlinear_arith)
                requires
                    pow2(0) == 1,
            ;
            assert(n == face * pow2(60) + p);
            assert(lsb_at_level(30) == 1);
            assert(pow2(61) == 2 * pow2(60));
            assert(n * 2 + 1 == make_id(face as int, 30, p)) by (nonlinear_arith)
                requires
                    n == face * pow2(60) + p,
                    pow2(61) == 2 * pow2(60),
                    lsb_at_level(30) == 1,
                    make_id(face as int, 30, p) == face * pow2(61) + (2 * p + 1) * lsb_at_level(30),
            ;
            lemma_leaf_pos_of_valid((n * 2 + 1) as u64);
            assert(i as int / pow2(0) as int == i && j as int / pow2(0) as int == j);
        }
        S2CellId::new(n * 2 + 1)
    }

    /// The leaf-index range `[lo, hi)` along each axis of the cell at
    /// `level` that contains leaf `(i, j)`: the lower corner is found by
    /// masking with `-size`, the upper one is a cell size further.
    pub fn ij_level_to_bound_ij(i: i32, j: i32, level: i32) -> (r: ((i32, i32), (i32, i32)))
        requires
            0 <= i < MAX_SIZE,
            0 <= j < MAX_SIZE,
            0 <= level <= 30,
        ensures
            ({
                let size = pow2((30 - level) as nat) as int;
                &&& r.0.0 == i as int / size * size
                &&& r.0.1 == r.0.0 + size
                &&& r.1.0 == j as int / size * size
                &&& r.1.1 == r.1.0 + size
            }),
    {
        let cell_size = S2CellId::get_size_ij_at_level(level);
        let i_lo = lower_corner(i, cell_size, level);
        let j_lo = lower_corner(j, cell_size, level);
        proof {
            lemma_pow2_strictly_increases(30, 31);
            lemma_pow2_pos((30 - level) as nat);
            lemma_fundamental_div_mod(i as int, cell_size as int);
            lemma_mod_bound(i as int, cell_size as int);
            lemma_fundamental_div_mod(j as int, cell_size as int);
            lemma_mod_bound(j as int, cell_size as int);
            assert(i_lo <= i && j_lo <= j) by (nonlinear_arith)
                requires
                    i_lo == i as int / cell_size as int * cell_size as int,
                    j_lo == j as int / cell_size as int * cell_size as int,
                    i == cell_size * (i as int / cell_size as int) + i as int % cell_size as int,
                    j == cell_size * (j as int / cell_size as int) + j as int % cell_size as int,
                    i as int % cell_size as int >= 0,
                    j as int % cell_size as int >= 0,
            ;
            lemma2_to64();
        }
        ((i_lo, i_lo + cell_size), (j_lo, j_lo + cell_size))
    }

    /// The child of this cell at `position` (in `[0, 4)`) along the Hilbert
    /// curve: its path is this cell's path followed by the digit `position`.
    pub fn child(&self, position: i32) -> (r: S2CellId)
        requires
            is_valid_id(self@),
            level_of(self@) < 30,
            0 <= position < 4,
        ensures
            r@ == make_id(face_of(self@), level_of(self@) + 1, 4 * cell_path(self@) + position),
            is_valid_id(r@),
            face_of(r@) == face_of(self@),
            level_of(r@) == level_of(self@) + 1,
            cell_path(r@) == 4 * cell_path(self@) + position,
    {
        let level = self.level();
        let new_lsb = self.lsb_for_level(level + 1);
        proof {
            lemma_child_bits(self@, position as int);
            assert((2 * (30 - (level + 1))) as nat == (2 * (29 - level)) as nat);
            lemma_pow2_pos((2 * (29 - level)) as nat);
            assert(3 * new_lsb <= self.id);
            lemma_pow2_strictly_increases((2 * (29 - level)) as nat, 60);
            lemma2_to64_rest();
        }
        // The parent sits halfway between its second and third children.
        let step: u64 = 2 * (position as u64);
        proof {
            assert(step * new_lsb <= 6 * pow2(60)) by (nonlinear_arith)
                requires
                    step <= 6,
                    0 < new_lsb < pow2(60),
            ;
        }
        let offset: u64 = step * new_lsb;
        proof {
            assert(offset == 2 * position * new_lsb) by (nonlinear_arith)
                requires
                    offset == step * new_lsb,
                    step == 2 * position,
            ;
        }
        S2CellId::new(self.id - 3 * new_lsb + offset)
    }

    /// The lowest set bit (zero for the zero identifier).
    pub fn lsb(&self) -> (r: u64)
        ensures
            r == lsb_of(self@),
    {
        let x = self.id;
        proof {
            if x != 0 {
                lemma_lowest_bit(x);
            } else {
                assert(!0u64 == 0xffff_ffff_ffff_ffffu64 && 0u64 & 0u64 == 0) by (bit_vector);
            }
        }
        // `!x + 1` is `-x` in two's complement.
        x & (!x).wrapping_add(1)
    }
}

} // verus!
