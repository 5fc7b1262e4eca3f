use cpu_sparse::strip::Tile;
use cpu_sparse::tiling::{Footprint, Loc, PackedPoint, TileIndex, Tiler};

fn scale_up(z: f32) -> u16 {
    (z * 8192.0 * 4.0).round() as u16
}

#[test]
fn footprint_empty() {
    let fp1 = Footprint::empty();
    // Not optimal behavior, but currently how it is.
    assert_eq!(fp1.x0(), 32);
    assert_eq!(fp1.x1(), 0);
}

#[test]
fn footprint_from_index() {
    let fp1 = Footprint::from_index(0);
    assert_eq!(fp1.x0(), 0);
    assert_eq!(fp1.x1(), 1);

    let fp2 = Footprint::from_index(3);
    assert_eq!(fp2.x0(), 3);
    assert_eq!(fp2.x1(), 4);

    let fp3 = Footprint::from_index(6);
    assert_eq!(fp3.x0(), 6);
    assert_eq!(fp3.x1(), 7);
}

#[test]
fn footprint_from_range() {
    let fp1 = Footprint::from_range(1, 3);
    assert_eq!(fp1.x0(), 1);
    assert_eq!(fp1.x1(), 3);

    // Same comment as for empty.
    let fp2 = Footprint::from_range(2, 2);
    assert_eq!(fp2.x0(), 32);
    assert_eq!(fp2.x1(), 0);

    let fp3 = Footprint::from_range(3, 7);
    assert_eq!(fp3.x0(), 3);
    assert_eq!(fp3.x1(), 7);
}

#[test]
fn footprint_extend() {
    let mut fp = Footprint::empty();
    fp.extend(5);
    assert_eq!(fp.x0(), 5);
    assert_eq!(fp.x1(), 6);

    fp.extend(3);
    assert_eq!(fp.x0(), 3);
    assert_eq!(fp.x1(), 6);

    fp.extend(8);
    assert_eq!(fp.x0(), 3);
    assert_eq!(fp.x1(), 9);

    fp.extend(0);
    assert_eq!(fp.x0(), 0);
    assert_eq!(fp.x1(), 9);

    fp.extend(9);
    assert_eq!(fp.x0(), 0);
    assert_eq!(fp.x1(), 10);
}

#[test]
fn footprint_merge() {
    let mut fp1 = Footprint::from_range(2, 4);
    let fp2 = Footprint::from_range(5, 6);
    fp1.merge(&fp2);

    assert_eq!(fp1.x0(), 2);
    assert_eq!(fp1.x1(), 6);

    let mut fp3 = Footprint::from_range(5, 9);
    let fp4 = Footprint::from_range(7, 10);
    fp3.merge(&fp4);

    assert_eq!(fp3.x0(), 5);
    assert_eq!(fp3.x1(), 10);
}

#[test]
fn footprint_at_edge() {
    let tile = Tile {
        x: 0,
        y: 0,
        p0: PackedPoint::new(scale_up(1.0), scale_up(0.0)),
        p1: PackedPoint::new(scale_up(1.0), scale_up(1.0)),
    };

    assert_eq!(tile.footprint().0, 0);
}

#[test]
fn footprint_is_empty_and_bits() {
    assert!(Footprint::empty().is_empty());
    assert!(!Footprint::from_index(2).is_empty());
    assert_eq!(Footprint::from_index(2).0, 0b100);
    assert_eq!(Footprint::from_range(1, 4).0, 0b1110);
    let mut fp = Footprint::from_index(1);
    fp.merge(&Footprint::from_index(3));
    assert_eq!(fp.0, 0b1010);
    assert_eq!(fp.x0(), 1);
    assert_eq!(fp.x1(), 4);
}

#[test]
fn packed_point_keeps_coordinates() {
    let p = PackedPoint::new(1234, 40000);
    assert_eq!(p.packed_x(), 1234);
    assert_eq!(p.packed_y(), 40000);
}

#[test]
fn tile_footprint_in_tile() {
    // A line from a quarter of the tile to three quarters of it covers pixel columns 1 and 2.
    let tile = Tile {
        x: 0,
        y: 0,
        p0: PackedPoint::new(scale_up(0.3), scale_up(0.0)),
        p1: PackedPoint::new(scale_up(0.6), scale_up(1.0)),
    };
    assert_eq!(tile.footprint().x0(), 1);
    assert_eq!(tile.footprint().x1(), 3);

    // A vertical line in the middle of the tile covers column 2.
    let tile = Tile {
        x: 0,
        y: 0,
        p0: PackedPoint::new(scale_up(0.5), scale_up(0.0)),
        p1: PackedPoint::new(scale_up(0.5), scale_up(1.0)),
    };
    assert_eq!(tile.footprint().x0(), 2);
    assert_eq!(tile.footprint().x1(), 3);
}

#[test]
fn sparse_loc_ordering() {
    let a = Loc { x: 3, y: 1 };
    let b = Loc { x: -1, y: 2 };
    let c = Loc { x: 4, y: 1 };
    assert_eq!(a.cmp(&b), std::cmp::Ordering::Less);
    assert_eq!(b.cmp(&a), std::cmp::Ordering::Greater);
    assert_eq!(a.cmp(&a), std::cmp::Ordering::Equal);
    assert!(a.same_strip(&c));
    assert!(c.same_strip(&a));
    assert!(!a.same_strip(&b));
    assert!(!Loc { x: i32::MIN, y: 1 }.same_strip(&Loc { x: i32::MAX, y: 1 }));
    assert!(!Loc { x: i32::MAX, y: 1 }.same_strip(&Loc { x: i32::MIN, y: 1 }));
    assert!(a.same_row(&c));
    assert_eq!(Loc::zero(), Loc { x: 0, y: 0 });
}

#[test]
fn tile_index_orders_rows_first() {
    let a = TileIndex::from_tile(0, 10, 1);
    let b = TileIndex::from_tile(1, 0, 2);
    // Every negative column maps to the same key as column -1.
    let c = TileIndex::from_tile(2, -1, 1);
    let d = TileIndex::from_tile(3, -1, 1);
    assert_eq!(a.cmp(&b), std::cmp::Ordering::Less);
    assert_eq!(c.cmp(&a), std::cmp::Ordering::Less);
    assert_eq!(c.cmp(&d), std::cmp::Ordering::Equal);
    assert_eq!(a.key(), (1 << 16) + 11);
    assert_eq!(c.key(), 1 << 16);
    assert_eq!(b.index(), 1);
}

#[test]
fn tiler_sorts_tiles_by_location() {
    let mut tiler: Tiler<&str> = Tiler::new();
    assert_eq!(tiler.len(), 0);
    tiler.push("c", 5, 1);
    tiler.push("a", 2, 0);
    tiler.push("d", 0, 2);
    tiler.push("b", 7, 0);
    assert_eq!(tiler.len(), 4);
    tiler.sort_tiles();
    let order: Vec<&str> = (0..4).map(|i| *tiler.get_tile(i)).collect();
    assert_eq!(order, vec!["a", "b", "c", "d"]);
    tiler.reset();
    assert_eq!(tiler.len(), 0);
}

#[test]
fn tiler_reads_every_tile_once_left_columns_first() {
    let mut tiler: Tiler<u32> = Tiler::new();
    tiler.push(1, 4, 0);
    tiler.push(2, -3, 0);
    tiler.push(3, 4, 0);
    tiler.push(4, -1, 0);
    tiler.push(5, 0, 0);
    tiler.sort_tiles();
    let mut order: Vec<u32> = (0..5).map(|i| *tiler.get_tile(i)).collect();
    // Both tiles left of the viewport come first, then column 0, then column 4.
    assert!(order[..2].contains(&2) && order[..2].contains(&4));
    assert_eq!(order[2], 5);
    assert!(order[3..].contains(&1) && order[3..].contains(&3));
    order.sort();
    assert_eq!(order, vec![1, 2, 3, 4, 5]);
}
