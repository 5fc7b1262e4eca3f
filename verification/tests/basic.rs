use cpu_sparse::dispatcher::ExecutionMode;
use cpu_sparse::paint::{Paint, SolidColor};
use cpu_sparse::{Pixmap, RenderContext};

const WHITE: SolidColor = SolidColor { premul: [255, 255, 255, 255], opaque: true };

fn get_ctx(width: usize, height: usize, transparent: bool) -> RenderContext {
    let mut ctx = RenderContext::new_with_execution_mode(width, height, ExecutionMode::Scalar);
    if !transparent {
        for tile in ctx.tiles.iter_mut() {
            tile.fill(0, 256, Paint::Solid(WHITE));
        }
    }
    ctx
}

fn render_pixmap(ctx: &RenderContext) -> Pixmap {
    let mut pixmap = Pixmap::new(ctx.width(), ctx.height());
    ctx.render_to_pixmap(&mut pixmap);

    pixmap
}

fn assert_transparent(pixmap: &Pixmap) {
    assert_eq!(pixmap.data().len(), pixmap.width * pixmap.height * 4);
    assert!(pixmap.data().iter().all(|b| *b == 0));
}

#[test]
fn empty_1x1() {
    let ctx = get_ctx(1, 1, true);
    let pixmap = render_pixmap(&ctx);
    assert_transparent(&pixmap);
}

#[test]
fn empty_5x1() {
    let ctx = get_ctx(5, 1, true);
    let pixmap = render_pixmap(&ctx);
    assert_transparent(&pixmap);
}

#[test]
fn empty_1x5() {
    let ctx = get_ctx(1, 5, true);
    let pixmap = render_pixmap(&ctx);
    assert_transparent(&pixmap);
}

#[test]
fn empty_3x10() {
    let ctx = get_ctx(3, 10, true);
    let pixmap = render_pixmap(&ctx);
    assert_transparent(&pixmap);
}

#[test]
fn empty_23x45() {
    let ctx = get_ctx(23, 45, true);
    let pixmap = render_pixmap(&ctx);
    assert_transparent(&pixmap);
}

#[test]
fn empty_50x50() {
    let ctx = get_ctx(50, 50, true);
    let pixmap = render_pixmap(&ctx);
    assert_transparent(&pixmap);
}

#[test]
fn empty_463x450() {
    let ctx = get_ctx(463, 450, true);
    let pixmap = render_pixmap(&ctx);
    assert_transparent(&pixmap);
}

#[test]
fn empty_1134x1376() {
    let ctx = get_ctx(1134, 1376, true);
    let pixmap = render_pixmap(&ctx);
    assert_transparent(&pixmap);
}

#[test]
fn opaque_background_covers_every_pixel() {
    let ctx = get_ctx(300, 9, false);
    let pixmap = render_pixmap(&ctx);
    assert!(pixmap.data().iter().all(|b| *b == 255));
}

#[test]
fn reset_makes_the_context_render_transparent() {
    let mut ctx = get_ctx(40, 12, false);
    ctx.reset();
    let pixmap = render_pixmap(&ctx);
    assert_transparent(&pixmap);
}

#[test]
fn context_layout() {
    let ctx = RenderContext::new(300, 9);
    // Two wide tiles per row, three rows.
    assert_eq!(ctx.wide_tiles_per_row(), 2);
    assert_eq!(ctx.wide_tiles().len(), 6);
    // Tiles are created column by column.
    assert_eq!((ctx.wide_tiles()[1].x, ctx.wide_tiles()[1].y), (0, 4));
    assert_eq!((ctx.wide_tiles()[3].x, ctx.wide_tiles()[3].y), (256, 0));
    assert!(ctx.alphas().is_empty());
    assert!(ctx.tiles().is_empty());
    assert!(ctx.strip_buf().is_empty());
    assert_eq!(ctx.width(), 300);
    assert_eq!(ctx.height(), 9);
}

#[test]
fn rendering_keeps_pixels_below_the_context() {
    // The context's single row of wide tiles covers the first four pixel rows of the
    // pixmap; the rows below keep their value.
    let ctx = get_ctx(2, 2, false);
    let mut pixmap = Pixmap::new(4, 6);
    for b in pixmap.data_mut().iter_mut() {
        *b = 7;
    }
    ctx.render_to_pixmap(&mut pixmap);
    let data = pixmap.data();
    for row in 0..6 {
        for col in 0..4 {
            let p = (row * 4 + col) * 4;
            let expected = if row < 4 { 255 } else { 7 };
            assert_eq!(data[p], expected, "pixel ({}, {})", col, row);
        }
    }
}
