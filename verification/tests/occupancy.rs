use snakube::geometry::Position;
use snakube::occupancy::Bitmask;

#[test]
fn bitmask_indices() {
    let size: usize = 5;
    let bitmask = Bitmask::new(size);
    let mut indices = Vec::new();

    for x in 0..size {
        for y in 0..size {
            for z in 0..size {
                let pos = Position { x: (x as i8 - 2), y: y as i8, z: (z as i8 - 1) };
                let idx = bitmask.get_index(pos);
                assert!(!indices.contains(&idx));
                indices.push(idx);
            }
        }
    }
}

#[test]
fn bitmask_indices_cover_whole_padded_space() {
    // every coordinate the search can produce in a cube of side 3 gets its
    // own bit: the padded space has side 5, hence 125 distinct indices
    let size: usize = 3;
    let bitmask = Bitmask::new(size);
    let mut indices = Vec::new();
    for x in -2i8..=2 {
        for y in -2i8..=2 {
            for z in -2i8..=2 {
                let idx = bitmask.get_index(Position { x, y, z });
                assert!(!indices.contains(&idx));
                indices.push(idx);
            }
        }
    }
    assert_eq!(indices.len(), 125);
}

#[test]
fn get_index_exact_value() {
    // side 2 pads by 1 into a side-3 space: (0, 0, 0) becomes the padded
    // coordinate (1, 1, 1), linearised as 1 * 9 + 1 * 3 + 1 = 13
    let bitmask = Bitmask::new(2);
    let (word, mask) = bitmask.get_index(Position { x: 0, y: 0, z: 0 });
    assert_eq!(word, 0);
    assert_eq!(mask, 1u64 << 13);
}

#[test]
fn mark_and_query() {
    let mut b = Bitmask::new(4);
    let p = Position { x: 1, y: -2, z: 3 };
    let q = Position { x: -3, y: 0, z: 0 };
    assert!(!b.is_visited(p));
    assert!(!b.is_visited(q));
    b.mark_visited(p);
    assert!(b.is_visited(p));
    assert!(!b.is_visited(q));
    // marking is idempotent
    b.mark_visited(p);
    assert!(b.is_visited(p));
}

#[test]
fn snapshot_restore_roundtrip() {
    let mut b = Bitmask::new(3);
    b.mark_visited(Position { x: 1, y: 0, z: 0 });
    b.mark_visited(Position { x: 1, y: 1, z: 0 });

    let restore_point = b.snapshot();
    let reference = b.snapshot();

    b.mark_visited(Position { x: -1, y: 2, z: -2 });
    b.mark_visited(Position { x: 0, y: 0, z: 1 });
    assert!(b.is_visited(Position { x: -1, y: 2, z: -2 }));

    b.backtrack(restore_point);

    // bit-identical to the state just before the extra marks
    assert_eq!(b.snapshot(), reference);
    assert!(b.is_visited(Position { x: 1, y: 0, z: 0 }));
    assert!(b.is_visited(Position { x: 1, y: 1, z: 0 }));
    assert!(!b.is_visited(Position { x: -1, y: 2, z: -2 }));
    assert!(!b.is_visited(Position { x: 0, y: 0, z: 1 }));
}

#[test]
fn remark_leaves_storage_identical() {
    let mut b = Bitmask::new(3);
    let p = Position { x: 1, y: -1, z: 2 };
    b.mark_visited(p);
    let words_after_first = b.snapshot();
    b.mark_visited(p);
    assert_eq!(b.snapshot(), words_after_first);
    assert!(b.is_visited(p));
}
