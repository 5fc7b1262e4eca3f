use cpu_sparse::strip::{render_strips, strip_pass_ok, Strip, Tile};
use cpu_sparse::paint::{Paint, SolidColor};
use cpu_sparse::tiling::PackedPoint;
use cpu_sparse::wide_tile::commands_can_generate;
use cpu_sparse::{FillRule, Pixmap, RenderContext};

fn tile(x: u16, y: u16, p0: (u16, u16), p1: (u16, u16)) -> Tile {
    Tile { x, y, p0: PackedPoint::new(p0.0, p0.1), p1: PackedPoint::new(p1.0, p1.1) }
}

fn describe(s: &Strip) -> (u32, u32, u32, i32) {
    (s.x, s.y, s.col, s.winding)
}

#[test]
fn tiles_merge_into_strips_and_mask_columns() {
    let tiles = vec![
        // Columns 1..3 of location (1, 0), leaving through the top edge.
        tile(1, 0, (8192, 0), (20000, 32768)),
        // Column 0 of location (2, 0), which continues the strip.
        tile(2, 0, (0, 32768), (8192, 0)),
        // Column 2 of location (5, 0), a new strip.
        tile(5, 0, (16384, 100), (16384, 200)),
        // The last tile only ends the location before it.
        tile(0, 1, (0, 100), (0, 100)),
    ];
    let mut strips = vec![Strip { x: 99, y: 99, col: 99, winding: 99 }];
    let mut alphas = vec![7u32];
    render_strips(&tiles, &mut strips, &mut alphas, |t: &[Tile], a: usize, b: usize, d: i32, x: u32| {
        assert_eq!(t.len(), 4);
        (a * 1000 + b * 100) as u32 + ((d + 10) * 10) as u32 + x
    });
    let got: Vec<_> = strips.iter().map(describe).collect();
    // The first strip covers pixels 5..9 with masks 1..5; the second starts at pixel 22.
    assert_eq!(got, vec![(5, 0, 1, 0), (22, 0, 5, 0)]);
    assert_eq!(alphas, vec![7, 201, 202, 203, 1290, 2402]);
}

#[test]
fn a_single_tile_makes_no_strip() {
    let tiles = vec![tile(0, 0, (0, 0), (100, 100))];
    let mut strips = Vec::new();
    let mut alphas = Vec::new();
    render_strips(&tiles, &mut strips, &mut alphas, |_: &[Tile], _: usize, _: usize, _: i32, _: u32| 1);
    assert!(strips.is_empty());
    assert!(alphas.is_empty());
}

#[test]
fn strip_pass_conditions() {
    let good = vec![
        tile(1, 0, (8192, 0), (20000, 32768)),
        tile(2, 0, (0, 32768), (8192, 0)),
        tile(5, 0, (16384, 100), (16384, 200)),
        tile(0, 1, (0, 100), (0, 100)),
    ];
    assert!(strip_pass_ok(&good, 0));
    assert!(!strip_pass_ok(&[], 0));
    // A location whose footprint is empty cannot be closed.
    let edge = vec![tile(0, 0, (32768, 0), (32768, 32768)), tile(5, 0, (0, 0), (0, 0))];
    assert!(!strip_pass_ok(&edge, 0));
    // Tiles of a row must come in order of column.
    let unsorted = vec![tile(5, 0, (0, 0), (100, 0)), tile(1, 0, (0, 0), (100, 0))];
    assert!(!strip_pass_ok(&unsorted, 0));
    // The mask columns must stay countable.
    assert!(!strip_pass_ok(&good, u32::MAX as usize));
}

#[test]
fn strips_from_tiles_generate_commands_that_render() {
    // A location at tile column 1 whose segment leaves through the top edge, then the
    // next location of the row at column 3: the pixels in between are filled.
    let tiles = vec![
        tile(1, 0, (8192, 0), (8192, 32768)),
        tile(3, 0, (8192, 32768), (8192, 0)),
        tile(0, 1, (0, 100), (0, 100)),
    ];
    let mut ctx = RenderContext::new(16, 4);
    let mut strips = Vec::new();
    assert!(strip_pass_ok(&tiles, ctx.alphas.len()));
    render_strips(&tiles, &mut strips, &mut ctx.alphas, |_: &[Tile], _: usize, _: usize, _: i32, _: u32| {
        0xffff_ffff
    });
    let got: Vec<_> = strips.iter().map(describe).collect();
    assert_eq!(got, vec![(5, 0, 0, 0), (13, 0, 1, -1)]);
    ctx.strip_buf = strips;
    let red = Paint::Solid(SolidColor { premul: [255, 0, 0, 255], opaque: true });
    assert!(commands_can_generate(&ctx.strip_buf, FillRule::NonZero, 16, 4, ctx.tiles.len()));
    ctx.generate_commands(FillRule::NonZero, red);
    let mut pixmap = Pixmap::new(16, 4);
    assert!(ctx.can_render_to(&pixmap));
    ctx.render_to_pixmap(&mut pixmap);
    let data = pixmap.data();
    for col in 0..16 {
        let expected = if (5..13).contains(&col) { 255 } else { 0 };
        assert_eq!(data[col * 4], expected, "column {}", col);
    }
}
