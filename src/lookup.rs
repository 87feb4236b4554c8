//! Lookup tables that convert four levels of the Hilbert curve at a time
//! between curve positions and grid coordinates.
use vstd::arithmetic::div_mod::{
    lemma_div_denominator, lemma_fundamental_div_mod, lemma_mod_bound,
};
use vstd::arithmetic::power2::{lemma2_to64, lemma_pow2_adds, lemma_pow2_pos, pow2};
use vstd::prelude::*;

use crate::hilbert::{
    hilbert_decode, ij_to_pos_spec, lemma_decode_bounds, lemma_decode_step, lemma_quadrants,
    lemma_xor_orientation, pos_to_ij, pos_to_ij_spec, pos_to_orientation, pow4, INVERT_MASK,
    SWAP_MASK,
};

verus! {

/// Number of curve levels that one table lookup converts.
pub const LOOKUP_BITS: i32 = 4;

/// Number of entries in each table: 4 bits of `i`, 4 bits of `j` (or 8 bits
/// of position) and 2 bits of orientation.
pub const LOOKUP_TABLE_SIZE: usize = 1024;

/// The entry of the position table for orientation `o` and the position `q`
/// of four levels: the grid square `(i, j)` reached, as `i * 16 + j`, then
/// the orientation there, in the low two bits.
pub open spec fn ij_entry(o: int, q: int) -> int {
    let (i, j, o2) = hilbert_decode(o, 4, q);
    (i * 16 + j) * 4 + o2
}

/// `e` is a correct entry of the grid table for orientation `o` at the grid
/// square `(i, j)`: it holds a position of four levels that reaches `(i, j)`,
/// then the orientation there, in the low two bits.
pub open spec fn pos_entry_ok(o: int, i: int, j: int, e: int) -> bool {
    &&& 0 <= e / 4 < 256
    &&& 0 <= e
    &&& hilbert_decode(o, 4, e / 4) == (i, j, e % 4)
}

/// The two tables, built once and then only read.
pub struct LookupTables {
    lookup_pos: Vec<u16>,
    lookup_ij: Vec<u16>,
}

impl LookupTables {
    /// The entry of the position table at `index`.
    pub closed spec fn ij_at(&self, index: int) -> int {
        self.lookup_ij@[index] as int
    }

    /// The entry of the grid table at `index`.
    pub closed spec fn pos_at(&self, index: int) -> int {
        self.lookup_pos@[index] as int
    }

    /// Every entry of both tables is correct.
    pub open spec fn correct(&self) -> bool {
        &&& forall|x: int| 0 <= x < 1024 ==> #[trigger] self.ij_at(x) == ij_entry(x % 4, x / 4)
        &&& forall|x: int|
            0 <= x < 1024 ==> pos_entry_ok(x % 4, x / 64, (x / 4) % 16, #[trigger] self.pos_at(x))
    }

    #[verifier::type_invariant]
    spec fn tables_correct(self) -> bool {
        &&& self.lookup_pos@.len() == LOOKUP_TABLE_SIZE
        &&& self.lookup_ij@.len() == LOOKUP_TABLE_SIZE
        &&& forall|x: int|
            0 <= x < 1024 ==> #[trigger] self.lookup_ij@[x] as int == ij_entry(x % 4, x / 4)
        &&& forall|x: int|
            0 <= x < 1024 ==> pos_entry_ok(
                x % 4,
                x / 64,
                (x / 4) % 16,
                #[trigger] self.lookup_pos@[x] as int,
            )
    }
}

impl LookupTables {
    /// The entry of the position table at `index`: orientation in the low
    /// two bits of the index, four levels of position above them.
    pub fn ij_entry_at(&self, index: usize) -> (r: u16)
        requires
            index < LOOKUP_TABLE_SIZE,
        ensures
            r as int == self.ij_at(index as int),
            r as int == ij_entry(index as int % 4, index as int / 4),
    {
        proof {
            use_type_invariant(self);
        }
        self.lookup_ij[index]
    }

    /// The entry of the grid table at `index`: orientation in the low two
    /// bits of the index, four bits of `j` above them, four bits of `i` on top.
    pub fn pos_entry_at(&self, index: usize) -> (r: u16)
        requires
            index < LOOKUP_TABLE_SIZE,
        ensures
            r as int == self.pos_at(index as int),
            pos_entry_ok(index as int % 4, index as int / 64, (index as int / 4) % 16, r as int),
    {
        proof {
            use_type_invariant(self);
        }
        self.lookup_pos[index]
    }
}

/// A cell of the recursive construction: `level` digits of position `pos`
/// taken from orientation `orig_orientation` lead to grid square `(i, j)`
/// at that level, in orientation `orientation`.
struct LookupCell {
    level: i32,
    i: i32,
    j: i32,
    orig_orientation: i32,
    pos: i32,
    orientation: i32,
}

spec fn cell_ok(c: LookupCell) -> bool {
    &&& 0 <= c.level <= 4
    &&& 0 <= c.orig_orientation < 4
    &&& 0 <= c.pos < pow4(c.level as nat)
    &&& hilbert_decode(c.orig_orientation as int, c.level as nat, c.pos as int) == (
        c.i as int,
        c.j as int,
        c.orientation as int,
    )
}

/// Position `q` of four levels lies below the cell at `pos` on `level`.
spec fn in_pos_block(q: int, level: int, pos: int) -> bool {
    q / pow4((4 - level) as nat) == pos
}

/// Grid square `(ii, jj)` of the 16 by 16 grid lies in the square `(i, j)`
/// on `level`.
spec fn in_ij_block(ii: int, jj: int, level: int, i: int, j: int) -> bool {
    ii / pow2((4 - level) as nat) as int == i && jj / pow2((4 - level) as nat) as int == j
}

/// Which child of its cell on `level` position `q` lies below.
spec fn pos_child(q: int, level: int) -> int {
    (q / pow4((3 - level) as nat)) % 4
}

/// Which quadrant of its square on `level` grid square `(ii, jj)` lies in.
spec fn ij_quadrant(ii: int, jj: int, level: int) -> int {
    2 * ((ii / pow2((3 - level) as nat) as int) % 2) + (jj / pow2((3 - level) as nat) as int) % 2
}

proof fn lemma_pos_block_child(q: int, level: int, pos: int, c: int)
    requires
        0 <= level < 4,
        0 <= q,
        0 <= c < 4,
    ensures
        in_pos_block(q, level + 1, 4 * pos + c) <==> (in_pos_block(q, level, pos) && pos_child(
            q,
            level,
        ) == c),
{
    let d = pow4((3 - level) as nat);
    lemma_pow2_pos((2 * (3 - level)) as nat);
    lemma_pow2_adds((2 * (3 - level)) as nat, 2);
    lemma2_to64();
    assert(pow4((4 - level) as nat) == d * 4);
    assert((4 - (level + 1)) as nat == (3 - level) as nat);
    lemma_div_denominator(q, d, 4);
    lemma_fundamental_div_mod(q / d, 4);
    lemma_mod_bound(q / d, 4);
}

proof fn lemma_ij_block_child(ii: int, jj: int, level: int, i: int, j: int, r: int)
    requires
        0 <= level < 4,
        0 <= ii,
        0 <= jj,
        0 <= r < 4,
    ensures
        in_ij_block(ii, jj, level + 1, 2 * i + r / 2, 2 * j + r % 2) <==> (in_ij_block(
            ii,
            jj,
            level,
            i,
            j,
        ) && ij_quadrant(ii, jj, level) == r),
{
    let d = pow2((3 - level) as nat) as int;
    lemma_pow2_pos((3 - level) as nat);
    lemma_pow2_adds((3 - level) as nat, 1);
    lemma2_to64();
    assert(pow2((4 - level) as nat) == d * 2);
    assert((4 - (level + 1)) as nat == (3 - level) as nat);
    lemma_div_denominator(ii, d, 2);
    lemma_div_denominator(jj, d, 2);
    lemma_fundamental_div_mod(ii / d, 2);
    lemma_fundamental_div_mod(jj / d, 2);
    lemma_mod_bound(ii / d, 2);
    lemma_mod_bound(jj / d, 2);
}

/// Small shifts are multiplications and divisions by powers of two.
proof fn lemma_small_shifts(a: i32, r: i32)
    requires
        0 <= a < 256,
        0 <= r < 4,
    ensures
        a << 1 == 2 * a,
        a << 2 == 4 * a,
        a << 4 == 16 * a,
        r >> 1 == r / 2,
        r & 1 == r % 2,
{
    assert(a << 1 == 2 * a && a << 2 == 4 * a && a << 4 == 16 * a && r >> 1 == r / 2 && r & 1
        == r % 2) by (bit_vector)
        requires
            0 <= a < 256,
            0 <= r < 4,
    ;
}

/// Fills the entries of both tables below `cell`, visiting its four
/// children in curve order, and leaves every other entry as it was.
fn init_lookup_cell(cell: LookupCell, lookup_pos: &mut Vec<u16>, lookup_ij: &mut Vec<u16>)
    requires
        cell_ok(cell),
        old(lookup_pos)@.len() == LOOKUP_TABLE_SIZE,
        old(lookup_ij)@.len() == LOOKUP_TABLE_SIZE,
    ensures
        final(lookup_pos)@.len() == LOOKUP_TABLE_SIZE,
        final(lookup_ij)@.len() == LOOKUP_TABLE_SIZE,
        forall|x: int|
            0 <= x < 1024 ==> if x % 4 == cell.orig_orientation && in_pos_block(
                x / 4,
                cell.level as int,
                cell.pos as int,
            ) {
                #[trigger] final(lookup_ij)@[x] as int == ij_entry(x % 4, x / 4)
            } else {
                final(lookup_ij)@[x] == old(lookup_ij)@[x]
            },
        forall|x: int|
            0 <= x < 1024 ==> if x % 4 == cell.orig_orientation && in_ij_block(
                x / 64,
                (x / 4) % 16,
                cell.level as int,
                cell.i as int,
                cell.j as int,
            ) {
                pos_entry_ok(x % 4, x / 64, (x / 4) % 16, #[trigger] final(lookup_pos)@[x] as int)
            } else {
                final(lookup_pos)@[x] == old(lookup_pos)@[x]
            },
    decreases 4 - cell.level,
{
    proof {
        lemma2_to64();
        lemma_decode_bounds(cell.orig_orientation as int, cell.level as nat, cell.pos as int);
        lemma_pow2_adds(4, 4);
        if cell.level < 4 {
            lemma_small_powers(cell.level as nat);
        }
    }
    if cell.level == LOOKUP_BITS {
        proof {
            lemma_small_shifts(cell.i, 0);
            lemma_small_shifts(cell.pos, 0);
            lemma_small_shifts((cell.i * 16 + cell.j) as i32, 0);
            assert(pow4(0) == 1);
        }
        let ij: i32 = (cell.i << 4) + cell.j;
        let pos_index = ((ij << 2) + cell.orig_orientation) as usize;
        let ij_index = ((cell.pos << 2) + cell.orig_orientation) as usize;
        lookup_pos.set(pos_index, ((cell.pos << 2) + cell.orientation) as u16);
        lookup_ij.set(ij_index, ((ij << 2) + cell.orientation) as u16);
        proof {
            assert forall|x: int| 0 <= x < 1024 implies if x % 4 == cell.orig_orientation
                && in_pos_block(x / 4, cell.level as int, cell.pos as int) {
                #[trigger] lookup_ij@[x] as int == ij_entry(x % 4, x / 4)
            } else {
                lookup_ij@[x] == old(lookup_ij)@[x]
            } by {}
            assert forall|x: int| 0 <= x < 1024 implies if x % 4 == cell.orig_orientation
                && in_ij_block(x / 64, (x / 4) % 16, cell.level as int, cell.i as int, cell.j as int) {
                pos_entry_ok(x % 4, x / 64, (x / 4) % 16, #[trigger] lookup_pos@[x] as int)
            } else {
                lookup_pos@[x] == old(lookup_pos)@[x]
            } by {}
        }
    } else {
        let ghost pos0 = lookup_pos@;
        let ghost ij0 = lookup_ij@;
        let mut k: i32 = 0;
        while k < 4
            invariant
                cell_ok(cell),
                cell.level < 4,
                0 <= k <= 4,
                lookup_pos@.len() == LOOKUP_TABLE_SIZE,
                lookup_ij@.len() == LOOKUP_TABLE_SIZE,
                forall|x: int|
                    0 <= x < 1024 ==> if x % 4 == cell.orig_orientation && in_pos_block(
                        x / 4,
                        cell.level as int,
                        cell.pos as int,
                    ) && pos_child(x / 4, cell.level as int) < k {
                        #[trigger] lookup_ij@[x] as int == ij_entry(x % 4, x / 4)
                    } else {
                        lookup_ij@[x] == ij0[x]
                    },
                forall|x: int|
                    0 <= x < 1024 ==> if x % 4 == cell.orig_orientation && in_ij_block(
                        x / 64,
                        (x / 4) % 16,
                        cell.level as int,
                        cell.i as int,
                        cell.j as int,
                    ) && ij_to_pos_spec(
                        cell.orientation as int,
                        ij_quadrant(x / 64, (x / 4) % 16, cell.level as int),
                    ) < k {
                        pos_entry_ok(x % 4, x / 64, (x / 4) % 16, #[trigger] lookup_pos@[x] as int)
                    } else {
                        lookup_pos@[x] == pos0[x]
                    },
            decreases 4 - k,
        {
            proof {
                lemma2_to64();
                lemma_decode_bounds(cell.orig_orientation as int, cell.level as nat, cell.pos as int);
                lemma_small_powers(cell.level as nat);
            }
            let r = pos_to_ij(cell.orientation, k);
            proof {
                lemma_small_shifts(cell.i, r);
                lemma_small_shifts(cell.j, r);
                lemma_small_shifts(cell.pos, r);
                lemma_xor_orientation(cell.orientation, k as int);
                lemma_quadrants(cell.orientation as int, k as int, 0);
                lemma_decode_step(
                    cell.orig_orientation as int,
                    cell.level as nat,
                    cell.pos as int,
                    k as int,
                );
                lemma_pow2_adds(2, 2 * cell.level as nat);
                assert(pow4((cell.level + 1) as nat) == 4 * pow4(cell.level as nat));
            }
            let child = LookupCell {
                level: cell.level + 1,
                i: (cell.i << 1) + (r >> 1),
                j: (cell.j << 1) + (r & 1),
                orig_orientation: cell.orig_orientation,
                pos: (cell.pos << 2) + k,
                orientation: cell.orientation ^ pos_to_orientation(k),
            };
            let ghost before_pos = lookup_pos@;
            let ghost before_ij = lookup_ij@;
            init_lookup_cell(child, lookup_pos, lookup_ij);
            proof {
                assert forall|x: int| 0 <= x < 1024 implies if x % 4 == cell.orig_orientation
                    && in_pos_block(x / 4, cell.level as int, cell.pos as int) && pos_child(
                    x / 4,
                    cell.level as int,
                ) < k + 1 {
                    #[trigger] lookup_ij@[x] as int == ij_entry(x % 4, x / 4)
                } else {
                    lookup_ij@[x] == ij0[x]
                } by {
                    lemma_pos_block_child(x / 4, cell.level as int, cell.pos as int, k as int);
                    assert(before_ij[x] == lookup_ij@[x] || (x % 4 == cell.orig_orientation
                        && in_pos_block(x / 4, child.level as int, child.pos as int)));
                }
                assert forall|x: int| 0 <= x < 1024 implies if x % 4 == cell.orig_orientation
                    && in_ij_block(
                    x / 64,
                    (x / 4) % 16,
                    cell.level as int,
                    cell.i as int,
                    cell.j as int,
                ) && ij_to_pos_spec(
                    cell.orientation as int,
                    ij_quadrant(x / 64, (x / 4) % 16, cell.level as int),
                ) < k + 1 {
                    pos_entry_ok(x % 4, x / 64, (x / 4) % 16, #[trigger] lookup_pos@[x] as int)
                } else {
                    lookup_pos@[x] == pos0[x]
                } by {
                    let ii = x / 64;
                    let jj = (x / 4) % 16;
                    lemma_ij_block_child(ii, jj, cell.level as int, cell.i as int, cell.j as int, r as int);
                    let qd = ij_quadrant(ii, jj, cell.level as int);
                    assert(0 <= qd < 4) by {
                        lemma_mod_bound(ii / pow2((3 - cell.level) as nat) as int, 2);
                        lemma_mod_bound(jj / pow2((3 - cell.level) as nat) as int, 2);
                    }
                    lemma_quadrants(cell.orientation as int, k as int, qd);
                }
            }
            k = k + 1;
        }
    }
}

/// Builds both tables, walking the curve once from each of the four
/// starting orientations.
pub fn init_lookup_tables() -> (r: LookupTables)
    ensures
        r.correct(),
{
    let mut lookup_pos: Vec<u16> = Vec::new();
    let mut lookup_ij: Vec<u16> = Vec::new();
    let mut n: usize = 0;
    while n < LOOKUP_TABLE_SIZE
        invariant
            n <= LOOKUP_TABLE_SIZE,
            lookup_pos@.len() == n,
            lookup_ij@.len() == n,
        decreases LOOKUP_TABLE_SIZE - n,
    {
        lookup_pos.push(0);
        lookup_ij.push(0);
        n = n + 1;
    }
    let orientations: [i32; 4] = [0, SWAP_MASK, INVERT_MASK, SWAP_MASK | INVERT_MASK];
    proof {
        assert(SWAP_MASK | INVERT_MASK == 3) by (bit_vector);
    }
    let mut k: usize = 0;
    while k < 4
        invariant
            0 <= k <= 4,
            orientations@ == seq![0i32, 1, 2, 3],
            lookup_pos@.len() == LOOKUP_TABLE_SIZE,
            lookup_ij@.len() == LOOKUP_TABLE_SIZE,
            forall|x: int|
                0 <= x < 1024 && x % 4 < k ==> #[trigger] lookup_ij@[x] as int == ij_entry(
                    x % 4,
                    x / 4,
                ),
            forall|x: int|
                0 <= x < 1024 && x % 4 < k ==> pos_entry_ok(
                    x % 4,
                    x / 64,
                    (x / 4) % 16,
                    #[trigger] lookup_pos@[x] as int,
                ),
        decreases 4 - k,
    {
        let orientation = orientations[k];
        proof {
            lemma2_to64();
            lemma_pow2_adds(4, 4);
            assert(pow4(4) == 256);
            assert(pow2(4) == 16);
            assert((4 - 0int) as nat == 4);
            assert(pow4((4 - 0int) as nat) == 256);
            assert(pow2((4 - 0int) as nat) == 16);
        }
        let start = LookupCell {
            level: 0,
            i: 0,
            j: 0,
            orig_orientation: orientation,
            pos: 0,
            orientation,
        };
        init_lookup_cell(start, &mut lookup_pos, &mut lookup_ij);
        proof {
            assert forall|x: int| 0 <= x < 1024 && x % 4 < k + 1 implies #[trigger] lookup_ij@[x]
                as int == ij_entry(x % 4, x / 4) && pos_entry_ok(
                x % 4,
                x / 64,
                (x / 4) % 16,
                lookup_pos@[x] as int,
            ) by {
                assert(pow4(4) == 256);
                assert(in_pos_block(x / 4, 0, 0));
                assert(in_ij_block(x / 64, (x / 4) % 16, 0, 0, 0));
            }
            assert forall|x: int| 0 <= x < 1024 && x % 4 < k + 1 implies pos_entry_ok(
                x % 4,
                x / 64,
                (x / 4) % 16,
                #[trigger] lookup_pos@[x] as int,
            ) by {
                assert(in_ij_block(x / 64, (x / 4) % 16, 0, 0, 0));
            }
        }
        k = k + 1;
    }
    let r = LookupTables { lookup_pos, lookup_ij };
    assert(forall|x: int| 0 <= x < 1024 ==> #[trigger] r.ij_at(x) == r.lookup_ij@[x] as int);
    assert(forall|x: int| 0 <= x < 1024 ==> #[trigger] r.pos_at(x) == r.lookup_pos@[x] as int);
    r
}

/// Above the last level of the construction, `2^level < 16` and
/// `4^level < 256`.
proof fn lemma_small_powers(level: nat)
    requires
        level < 4,
    ensures
        pow2(level) < 16,
        pow4(level) < 256,
{
    lemma2_to64();
    if level == 0 {
    } else if level == 1 {
    } else if level == 2 {
    } else {
    }
}

} // verus!
