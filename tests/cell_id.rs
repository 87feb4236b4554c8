use s2shell::cell_id::{MAX_LEVEL, MAX_SIZE};
use s2shell::{init_lookup_tables, LookupTables, S2CellId};

/// The quadrant visited as each child, per orientation.
const QUADRANTS: [[u64; 4]; 4] = [[0, 1, 3, 2], [0, 2, 3, 1], [3, 2, 0, 1], [3, 1, 0, 2]];
/// The orientation bits each child flips.
const FLIPS: [u64; 4] = [1, 0, 0, 3];

/// Decodes a 30-level position digit by digit, independently of the tables.
fn slow_decode(orientation: u64, pos: u64) -> (u64, u64, u64) {
    let mut o = orientation;
    let (mut i, mut j) = (0u64, 0u64);
    for level in (0..30).rev() {
        let c = (pos >> (2 * level)) & 3;
        let r = QUADRANTS[o as usize][c as usize];
        i = (i << 1) | (r >> 1);
        j = (j << 1) | (r & 1);
        o ^= FLIPS[c as usize];
    }
    (i, j, o)
}

fn sample_coordinates() -> Vec<(i32, i32)> {
    let mut v = vec![
        (0, 0),
        (MAX_SIZE - 1, MAX_SIZE - 1),
        (0, MAX_SIZE - 1),
        (MAX_SIZE - 1, 0),
        (1 << 29, 1 << 29),
        ((1 << 29) - 1, (1 << 29) - 1),
        (12345, 67890),
        (987_654_321, 123_456_789),
    ];
    let mut x: u64 = 0x9e37_79b9_7f4a_7c15;
    for _ in 0..40 {
        x ^= x << 13;
        x ^= x >> 7;
        x ^= x << 17;
        v.push(((x & 0x3fff_ffff) as i32, ((x >> 30) & 0x3fff_ffff) as i32));
    }
    v
}

fn tables() -> LookupTables {
    init_lookup_tables()
}

#[test]
fn new_keeps_the_value() {
    let cell_id = S2CellId::new(123456789);
    assert_eq!(cell_id.id(), 123456789);
}

#[test]
fn none_is_not_valid() {
    assert_eq!(S2CellId::none().id(), 0);
    assert!(!S2CellId::none().is_valid());
}

#[test]
fn sentinel_exceeds_every_valid_cell() {
    let t = tables();
    let sentinel = S2CellId::sentinel();
    assert_eq!(sentinel.id(), u64::MAX);
    assert!(!sentinel.is_valid());
    for face in 0..6 {
        for &(i, j) in sample_coordinates().iter().take(10) {
            let leaf = S2CellId::from_face_ij(face, i, j, &t);
            for level in [0, 1, 7, 15, 29, 30] {
                let cell = leaf.parent(level);
                assert!(cell.is_valid());
                assert!(sentinel > cell);
                assert!(sentinel.id() > cell.id());
            }
        }
    }
}

#[test]
fn face_cells() {
    for face in 0..6 {
        let cell = S2CellId::from_face(face);
        assert_eq!(cell.id(), ((face as u64) << 61) + (1u64 << 60));
        assert!(cell.is_valid());
        assert_eq!(cell.face(), face);
        assert_eq!(cell.level(), 0);
        assert!(cell.is_face());
        assert!(!cell.is_leaf());
        assert_eq!(cell.lsb(), 1u64 << 60);
        assert_eq!(cell.get_size_ij(), 1 << 30);
    }
    assert_eq!(S2CellId::from_face(0).id(), 0x1000_0000_0000_0000);
}

#[test]
fn face_zero_decodes_to_grid_center() {
    let t = tables();
    let cell = S2CellId::from_face(0);
    assert_eq!(cell.face(), 0);
    assert_eq!(cell.level(), 0);
    let (face, i, j, orientation) = cell.to_face_ij_orientation(&t);
    assert_eq!(face, 0);
    assert_eq!((i, j), (1 << 29, 1 << 29));
    assert_eq!(orientation, 0);
    assert_eq!(cell.get_center_siti(&t), (0, 1 << 30, 1 << 30));
}

#[test]
fn face_cells_have_centered_centers() {
    let t = tables();
    for face in 0..6 {
        let cell = S2CellId::from_face(face);
        assert_eq!(cell.get_center_siti(&t), (face, 1 << 30, 1 << 30));
        let (_, _, _, orientation) = cell.to_face_ij_orientation(&t);
        assert_eq!(orientation, face & 1);
    }
}

#[test]
fn leaf_center_is_odd_siti() {
    let t = tables();
    for face in 0..6 {
        for &(i, j) in sample_coordinates().iter() {
            let leaf = S2CellId::from_face_ij(face, i, j, &t);
            assert!(leaf.is_leaf());
            assert_eq!(leaf.level(), MAX_LEVEL);
            assert_eq!(leaf.get_center_siti(&t), (face, 2 * i + 1, 2 * j + 1));
        }
    }
}

#[test]
fn centers_at_every_level() {
    let t = tables();
    for face in 0..6 {
        for &(i, j) in sample_coordinates().iter().take(12) {
            let leaf = S2CellId::from_face_ij(face, i, j, &t);
            for level in 0..=30 {
                let cell = leaf.parent(level);
                let size = S2CellId::get_size_ij_at_level(level);
                let i_lo = i & -size;
                let j_lo = j & -size;
                assert_eq!(
                    cell.get_center_siti(&t),
                    (face, 2 * i_lo + size, 2 * j_lo + size),
                    "face {face} level {level} ({i}, {j})"
                );
            }
        }
    }
}

#[test]
fn first_leaf_of_face_zero() {
    let t = tables();
    let leaf = S2CellId::from_face_ij(0, 0, 0, &t);
    assert_eq!(leaf.id(), 1);
    assert_eq!(leaf.to_face_ij_orientation(&t).0, 0);
    assert_eq!(leaf.to_face_ij_orientation(&t).1, 0);
    assert_eq!(leaf.to_face_ij_orientation(&t).2, 0);
}

#[test]
fn decode_matches_digit_by_digit_decoding() {
    let t = tables();
    let mut x: u64 = 0x0123_4567_89ab_cdef;
    for _ in 0..200 {
        x ^= x << 13;
        x ^= x >> 7;
        x ^= x << 17;
        let face = (x >> 61) % 6;
        let id = (face << 61) | (x & ((1u64 << 61) - 1)) | 1;
        let cell = S2CellId::new(id);
        let pos = (id >> 1) & ((1u64 << 60) - 1);
        let (ei, ej, eo) = slow_decode(face & 1, pos);
        let (f, i, j, o) = cell.to_face_ij_orientation(&t);
        assert_eq!((f as u64, i as u64, j as u64, o as u64), (face, ei, ej, eo));
    }
}

#[test]
fn documented_decode_example() {
    let t = tables();
    let cell_id = S2CellId::new(0x1234567890ABCDEF);
    let (face, _i, _j, orientation) = cell_id.to_face_ij_orientation(&t);
    assert!(face >= 0 && face < 6);
    assert!(orientation >= 0 && orientation < 4);
}

#[test]
fn consecutive_leaves_are_adjacent() {
    let t = tables();
    for face in 0..6u64 {
        let mut x: u64 = 0x51_7cc1_b727_220a + face;
        for _ in 0..50 {
            x ^= x << 13;
            x ^= x >> 7;
            x ^= x << 17;
            let pos = x & ((1u64 << 60) - 2);
            let a = S2CellId::new((face << 61) | (pos << 1) | 1);
            let b = S2CellId::new((face << 61) | ((pos + 1) << 1) | 1);
            let (_, ai, aj, _) = a.to_face_ij_orientation(&t);
            let (_, bi, bj, _) = b.to_face_ij_orientation(&t);
            assert_eq!((ai - bi).abs() + (aj - bj).abs(), 1);
        }
    }
}

#[test]
fn encode_then_decode_round_trip() {
    let t = tables();
    for face in 0..6 {
        for &(i, j) in sample_coordinates().iter() {
            let leaf = S2CellId::from_face_ij(face, i, j, &t);
            assert_eq!(leaf.to_face_ij_orientation(&t).0, face);
            assert_eq!(leaf.to_face_ij_orientation(&t).1, i);
            assert_eq!(leaf.to_face_ij_orientation(&t).2, j);
            for level in 0..=30 {
                let cell = leaf.parent(level);
                assert_eq!(cell.level(), level);
                assert_eq!(cell.face(), face);
                let (f, ci, cj, _) = cell.to_face_ij_orientation(&t);
                let shift = 30 - level;
                assert_eq!(f, face);
                assert_eq!(ci >> shift, i >> shift);
                assert_eq!(cj >> shift, j >> shift);
            }
        }
    }
}

#[test]
fn decode_then_encode_is_identity() {
    let t = tables();
    for face in 0..6 {
        for &(i, j) in sample_coordinates().iter().take(16) {
            for level in 0..=30 {
                let cell = S2CellId::from_face_ij(face, i, j, &t).parent(level);
                let (f, ci, cj, _) = cell.to_face_ij_orientation(&t);
                let again = S2CellId::from_face_ij(f, ci, cj, &t).parent(cell.level());
                assert_eq!(again.id(), cell.id());
            }
        }
    }
}

#[test]
fn orientation_of_children_follows_the_curve() {
    let t = tables();
    // The first child of a face cell in orientation 0 is swapped, the
    // middle two keep the orientation and the last is swapped and inverted.
    let face = S2CellId::from_face(0);
    let lsb = 1u64 << 58;
    let base = face.id() - (1u64 << 60);
    let expected = [1, 0, 0, 3];
    for c in 0..4u64 {
        let child = S2CellId::new(base + c * (lsb << 1) + lsb);
        assert!(child.is_valid());
        assert_eq!(child.level(), 1);
        assert_eq!(child.to_face_ij_orientation(&t).3, expected[c as usize]);
    }
}

#[test]
fn validity_and_levels() {
    assert!(S2CellId::new(1).is_valid());
    assert_eq!(S2CellId::new(1).level(), 30);
    assert!(!S2CellId::new(2).is_valid());
    assert!(S2CellId::new(4).is_valid());
    assert_eq!(S2CellId::new(4).level(), 29);
    assert!(!S2CellId::new(6u64 << 61 | 1).is_valid());
    assert!(!S2CellId::new(7u64 << 61 | 1).is_valid());
    assert!(S2CellId::new(5u64 << 61 | 1).is_valid());
    assert!(!S2CellId::new(1u64 << 62).is_valid());
    for level in 0..=30 {
        let lsb = 1u64 << (2 * (30 - level));
        let cell = S2CellId::new((3u64 << 61) | lsb);
        assert!(cell.is_valid());
        assert_eq!(cell.level(), level);
        assert_eq!(cell.lsb(), lsb);
        assert_eq!(cell.lsb_for_level(level), lsb);
        assert_eq!(cell.is_leaf(), level == 30);
        assert_eq!(cell.is_face(), level == 0);
        assert_eq!(cell.get_size_ij(), 1 << (30 - level));
    }
}

#[test]
fn lsb_orders_levels() {
    let cells: Vec<S2CellId> = (0..=30)
        .map(|level| S2CellId::new((2u64 << 61) | (0x5555u64 << 44) | (1u64 << (2 * (30 - level)))))
        .collect();
    for a in cells.iter() {
        for b in cells.iter() {
            assert!(a.is_valid() && b.is_valid());
            assert_eq!(a.lsb() <= b.lsb(), a.level() >= b.level());
        }
    }
}

#[test]
fn lsb_of_arbitrary_values() {
    assert_eq!(S2CellId::new(0).lsb(), 0);
    assert_eq!(S2CellId::new(12).lsb(), 4);
    assert_eq!(S2CellId::new(u64::MAX).lsb(), 1);
    assert_eq!(S2CellId::new(1u64 << 63).lsb(), 1u64 << 63);
}

#[test]
fn face_and_pos_split_the_value() {
    let cell = S2CellId::new(0xb234_5678_9abc_def1);
    assert_eq!(cell.face(), 5);
    assert_eq!(cell.pos(), 0x1234_5678_9abc_def1);
    assert_eq!(S2CellId::sentinel().face(), 7);
}

#[test]
fn cell_sizes() {
    assert_eq!(S2CellId::get_size_ij_at_level(0), 1 << 30);
    assert_eq!(S2CellId::get_size_ij_at_level(10), 1 << 20);
    assert_eq!(S2CellId::get_size_ij_at_level(30), 1);
}

#[test]
fn cell_from_face_pos_level() {
    let pos: u64 = 0x0fed_cba9_8765_4321;
    for face in 0..6i8 {
        for level in 0..=30i8 {
            let cell = S2CellId::from_face_pos_level(face, pos, level);
            let k = level as u32;
            let prefix = (pos >> (61 - 2 * k)) << (61 - 2 * k);
            let expected = ((face as u64) << 61) + prefix + (1u64 << (60 - 2 * k));
            assert_eq!(cell.id(), expected);
            assert!(cell.is_valid());
            assert_eq!(cell.level(), level as i32);
            assert_eq!(cell.face(), face as i32);
        }
    }
}

#[test]
fn parents_keep_the_path_prefix() {
    let t = tables();
    let leaf = S2CellId::from_face_ij(4, 987_654_321, 123_456_789, &t);
    for level in 0..=30 {
        let cell = leaf.parent(level);
        let lsb = 1u64 << (2 * (30 - level));
        assert_eq!(cell.id(), (leaf.id() & !((lsb << 1) - 1)) | lsb);
        assert_eq!(cell.parent(level).id(), cell.id());
        if level > 0 {
            assert_eq!(cell.parent(level - 1).id(), leaf.parent(level - 1).id());
        }
    }
}

#[test]
fn bounds_in_leaf_indices() {
    assert_eq!(
        S2CellId::ij_level_to_bound_ij(12345, 67890, 20),
        ((12288, 13312), (67584, 68608))
    );
    assert_eq!(S2CellId::ij_level_to_bound_ij(12345, 67890, 30), ((12345, 12346), (67890, 67891)));
    assert_eq!(
        S2CellId::ij_level_to_bound_ij(MAX_SIZE - 1, 0, 0),
        ((0, MAX_SIZE), (0, MAX_SIZE))
    );
    assert_eq!(
        S2CellId::ij_level_to_bound_ij(MAX_SIZE - 1, 1 << 29, 1),
        ((1 << 29, MAX_SIZE), (1 << 29, MAX_SIZE))
    );
}

#[test]
fn cells_sit_at_the_middle_of_their_descendants() {
    let t = tables();
    for face in 0..6 {
        for &(i, j) in sample_coordinates().iter().take(12) {
            let leaf = S2CellId::from_face_ij(face, i, j, &t);
            for level in 0..=30 {
                let cell = leaf.parent(level);
                let reach = cell.lsb() - 1;
                for deeper in level..=30 {
                    let desc = leaf.parent(deeper).id();
                    assert!(cell.id() - reach <= desc && desc <= cell.id() + reach);
                }
            }
        }
    }
}

#[test]
fn children_of_a_face_cell() {
    let face = S2CellId::from_face(0);
    let expected = [
        0x0400_0000_0000_0000u64,
        0x0c00_0000_0000_0000,
        0x1400_0000_0000_0000,
        0x1c00_0000_0000_0000,
    ];
    for position in 0..4 {
        let child = face.child(position);
        assert_eq!(child.id(), expected[position as usize]);
        assert_eq!(child.level(), 1);
        assert_eq!(child.parent(0).id(), face.id());
    }
}

#[test]
fn children_reverse_parent() {
    let t = tables();
    for face in 0..6 {
        for &(i, j) in sample_coordinates().iter().take(8) {
            let leaf = S2CellId::from_face_ij(face, i, j, &t);
            for level in 0..30 {
                let cell = leaf.parent(level);
                let mut previous = 0u64;
                for position in 0..4 {
                    let child = cell.child(position);
                    assert!(child.is_valid());
                    assert_eq!(child.level(), level + 1);
                    assert_eq!(child.parent(level).id(), cell.id());
                    assert!(child.id() > previous);
                    previous = child.id();
                }
                // the leaf's own ancestor is one of the four children
                let next = leaf.parent(level + 1).id();
                assert!((0..4).any(|p| cell.child(p).id() == next));
            }
        }
    }
}
