use cpu_sparse::bench::{Params, RectType, ShapeKind};
use cpu_sparse::dispatcher::{Dispatcher, ExecutionMode};
use cpu_sparse::ffi::{sp_color, sp_fill_rule, sp_paint, sp_pixmap};
use cpu_sparse::pattern::FilterQuality;
use cpu_sparse::strip::{sort_tiles, Loc, Strip, Tile};
use cpu_sparse::tiling::PackedPoint;
use cpu_sparse::{FillRule, Pixmap};

#[test]
fn fill_rules_decide_insideness() {
    assert!(FillRule::NonZero.active_fill(-2));
    assert!(!FillRule::NonZero.active_fill(0));
    assert!(FillRule::EvenOdd.active_fill(-3));
    assert!(!FillRule::EvenOdd.active_fill(2));
    assert!(!FillRule::EvenOdd.active_fill(0));
}

#[test]
fn c_fill_rules_convert() {
    assert_eq!(FillRule::from(sp_fill_rule::Winding), FillRule::NonZero);
    assert_eq!(FillRule::from(sp_fill_rule::EvenOdd), FillRule::EvenOdd);
    let c = sp_color { r: 1, g: 2, b: 3, a: 4 };
    let sp_paint::Color(d) = sp_paint::Color(c);
    assert_eq!((d.r, d.g, d.b, d.a), (1, 2, 3, 4));
    let p = sp_pixmap(Pixmap::new(2, 3));
    assert_eq!(p.0.data().len(), 24);
}

#[test]
fn bench_parameters() {
    assert_eq!(ShapeKind::Butterfly.name(), "butterfly");
    assert_eq!(ShapeKind::Dragon.name(), "dragon");
    assert_eq!(ShapeKind::Fish.name(), "fish");
    assert_eq!(ShapeKind::World.name(), "world");
    assert!(RectType::Rotated.is_rotated() && RectType::RoundRotated.is_rotated());
    assert!(!RectType::Aligned.is_rotated());
    assert!(RectType::Unaligned.is_unaligned() && RectType::RoundUnaligned.is_unaligned());
    assert!(!RectType::Rotated.is_unaligned());
    assert!(RectType::RoundRotated.is_rounded() && RectType::RoundUnaligned.is_rounded());
    assert!(!RectType::Unaligned.is_rounded());
    let p = Params { width: 10, height: 20, stroke: true, size: 5 };
    assert_eq!((p.width, p.height, p.stroke, p.size), (10, 20, true, 5));
    assert_eq!(FilterQuality::Nearest, FilterQuality::Nearest);
}

#[test]
fn dispatcher_runs_the_scalar_kernel() {
    let hits = std::cell::Cell::new(0);
    let d = Dispatcher { scalar: |n: u32| hits.set(hits.get() + n), execution_mode: ExecutionMode::default() };
    d.dispatch(3);
    d.dispatch(4);
    assert_eq!(hits.get(), 7);
}

#[test]
fn tiles_sort_by_row_then_column() {
    let p = PackedPoint::new(0, 0);
    let mut tiles = vec![
        Tile { x: 3, y: 1, p0: p, p1: p },
        Tile { x: 9, y: 0, p0: p, p1: p },
        Tile { x: 0, y: 2, p0: p, p1: p },
        Tile { x: 1, y: 1, p0: p, p1: p },
    ];
    sort_tiles(&mut tiles);
    let locs: Vec<(u16, u16)> = tiles.iter().map(|t| (t.x, t.y)).collect();
    assert_eq!(locs, vec![(9, 0), (1, 1), (3, 1), (0, 2)]);
    assert_eq!(tiles[0].cmp(&tiles[1]), std::cmp::Ordering::Less);
    assert_eq!(tiles[1].sort_key(), (1 << 16) + 1);
}

#[test]
fn tile_winding_delta_and_location() {
    let top = PackedPoint::new(100, 0);
    let inside = PackedPoint::new(100, 500);
    let t = Tile { x: 2, y: 5, p0: inside, p1: top };
    assert_eq!(t.delta(), 1);
    let t = Tile { x: 2, y: 5, p0: top, p1: inside };
    assert_eq!(t.delta(), -1);
    let t = Tile { x: 2, y: 5, p0: top, p1: top };
    assert_eq!(t.delta(), 0);
    let l = t.loc();
    assert_eq!(l, Loc { x: 2, y: 5 });
    assert!(l.same_strip(&Loc { x: 3, y: 5 }));
    assert!(Loc { x: 3, y: 5 }.same_strip(&l));
    assert!(Loc { x: 1, y: 5 }.same_strip(&l));
    assert!(!Loc { x: 0, y: 5 }.same_strip(&l));
    assert!(!Loc { x: 2, y: 4 }.same_strip(&l));
    assert!(!l.same_strip(&Loc { x: 4, y: 5 }));
    assert!(!l.same_row(&Loc { x: 2, y: 6 }));
}

#[test]
fn strip_accessors() {
    let s = Strip { x: 12, y: 9, col: 3, winding: -1 };
    assert_eq!(s.x(), 12);
    assert_eq!(s.y(), 9);
    assert_eq!(s.strip_y(), 2);
}

#[test]
fn pixmap_buffers() {
    let mut p = Pixmap::new(3, 2);
    assert_eq!(p.data(), &[0u8; 24][..]);
    p.data_mut()[5] = 8;
    assert_eq!(p.data()[5], 8);
    assert_eq!((p.width, p.height), (3, 2));
}

#[test]
fn decoded_pixels_are_multiplied_by_alpha() {
    let p = Pixmap::from_decoded(2, 1, vec![200, 100, 255, 128, 10, 20, 30, 255]);
    assert_eq!((p.width, p.height), (2, 1));
    assert_eq!(p.data(), &[100, 50, 128, 128, 10, 20, 30, 255]);
    let p = Pixmap::from_decoded(2, 1, vec![1, 0, 2, 100, 3, 4, 5, 1]);
    assert_eq!(p.data(), &[0, 0, 0, 100, 0, 0, 0, 1]);
    // A trailing partial pixel is not looked at.
    let p = Pixmap::from_decoded(1, 1, vec![90, 90, 90, 0, 200, 200]);
    assert_eq!(p.data(), &[0, 0, 0, 0, 200, 200]);
}

fn crc32(bytes: &[u8]) -> u32 {
    let mut crc = 0xffff_ffffu32;
    for b in bytes {
        crc ^= *b as u32;
        for _ in 0..8 {
            crc = if crc & 1 != 0 { (crc >> 1) ^ 0xedb8_8320 } else { crc >> 1 };
        }
    }
    !crc
}

fn adler32(bytes: &[u8]) -> u32 {
    let (mut a, mut b) = (1u32, 0u32);
    for x in bytes {
        a = (a + *x as u32) % 65521;
        b = (b + a) % 65521;
    }
    (b << 16) | a
}

fn chunk(out: &mut Vec<u8>, kind: &[u8], data: &[u8]) {
    out.extend_from_slice(&(data.len() as u32).to_be_bytes());
    let mut body = kind.to_vec();
    body.extend_from_slice(data);
    out.extend_from_slice(&body);
    out.extend_from_slice(&crc32(&body).to_be_bytes());
}

/// A PNG of one row of pixels, stored without compression.
fn png(width: u32, color_type: u8, row: &[u8]) -> Vec<u8> {
    let mut out = vec![0x89, b'P', b'N', b'G', 0x0d, 0x0a, 0x1a, 0x0a];
    let mut ihdr = Vec::new();
    ihdr.extend_from_slice(&width.to_be_bytes());
    ihdr.extend_from_slice(&1u32.to_be_bytes());
    ihdr.extend_from_slice(&[8, color_type, 0, 0, 0]);
    chunk(&mut out, b"IHDR", &ihdr);
    let mut raw = vec![0u8];
    raw.extend_from_slice(row);
    let mut z = vec![0x78, 0x01, 0x01];
    z.extend_from_slice(&(raw.len() as u16).to_le_bytes());
    z.extend_from_slice(&(!(raw.len() as u16)).to_le_bytes());
    z.extend_from_slice(&raw);
    z.extend_from_slice(&adler32(&raw).to_be_bytes());
    chunk(&mut out, b"IDAT", &z);
    chunk(&mut out, b"IEND", &[]);
    out
}

#[test]
fn png_decoding() {
    let p = Pixmap::from_png(&png(1, 6, &[200, 100, 255, 128])).unwrap();
    assert_eq!((p.width, p.height), (1, 1));
    assert_eq!(p.data(), &[100, 50, 128, 128]);

    let p = Pixmap::from_png(&png(1, 6, &[2, 0, 0, 255])).unwrap();
    assert_eq!(p.data(), &[2, 0, 0, 255]);

    // An RGB image gets an opaque alpha channel.
    let p = Pixmap::from_png(&png(2, 2, &[0, 1, 0, 0, 0, 0])).unwrap();
    assert_eq!((p.width, p.height), (2, 1));
    assert_eq!(p.data(), &[0, 1, 0, 255, 0, 0, 0, 255]);

    // Bytes that are no PNG give no pixmap.
    assert!(Pixmap::from_png(&[1, 2, 3, 4, 5]).is_none());
    assert!(Pixmap::from_png(&[]).is_none());
}
