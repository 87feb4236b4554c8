use s2shell::hilbert::{pos_to_ij, pos_to_orientation, INVERT_MASK, SWAP_MASK};
use s2shell::init_lookup_tables;

#[test]
fn tables_are_inverse() {
    let t = init_lookup_tables();
    for orientation in 0..4usize {
        for pos in 0..256usize {
            let e = t.ij_entry_at((pos << 2) + orientation) as usize;
            let ij = e >> 2;
            let back = t.pos_entry_at((ij << 2) + orientation) as usize;
            assert_eq!(back >> 2, pos);
            assert_eq!(back & 3, e & 3);
        }
    }
}

#[test]
fn first_entries() {
    let t = init_lookup_tables();
    // Four leading zero digits from orientation 0 stay at the origin and
    // flip the swap bit four times.
    assert_eq!(t.ij_entry_at(0), 0);
    // Digits 0, 0, 0, 1: the last step is taken in the swapped orientation,
    // whose second child is the quadrant (1, 0).
    assert_eq!(t.ij_entry_at(4), (16 << 2) + 1);
    // From the inverted orientation the curve starts in the far corner.
    assert_eq!(t.ij_entry_at(2) >> 2, (15 << 4) + 15);
}

#[test]
fn consecutive_positions_are_adjacent() {
    let t = init_lookup_tables();
    for orientation in 0..4usize {
        for pos in 0..255usize {
            let a = t.ij_entry_at((pos << 2) + orientation) as i32 >> 2;
            let b = t.ij_entry_at(((pos + 1) << 2) + orientation) as i32 >> 2;
            let d = ((a >> 4) - (b >> 4)).abs() + ((a & 15) - (b & 15)).abs();
            assert_eq!(d, 1);
        }
    }
}

#[test]
fn base_shapes() {
    assert_eq!(SWAP_MASK, 1);
    assert_eq!(INVERT_MASK, 2);
    let expected = [[0, 1, 3, 2], [0, 2, 3, 1], [3, 2, 0, 1], [3, 1, 0, 2]];
    for o in 0..4 {
        for c in 0..4 {
            assert_eq!(pos_to_ij(o, c), expected[o as usize][c as usize]);
        }
    }
    assert_eq!(
        [0, 1, 2, 3].map(pos_to_orientation),
        [SWAP_MASK, 0, 0, SWAP_MASK | INVERT_MASK]
    );
}
