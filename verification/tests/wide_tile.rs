use cpu_sparse::paint::{Paint, SolidColor};
use cpu_sparse::strip::Strip;
use cpu_sparse::render::{cmd_fits_exec, pack_fits_exec};
use cpu_sparse::wide_tile::{commands_can_generate, generate_commands, strip_fits_exec, Cmd, CmdFill, CmdStrip, WideTile};
use cpu_sparse::{FillRule, Pixmap, RenderContext};

const RED: SolidColor = SolidColor { premul: [255, 0, 0, 255], opaque: true };
const HALF_BLUE: SolidColor = SolidColor { premul: [0, 0, 128, 128], opaque: false };

fn strip(x: u32, y: u32, col: u32, winding: i32) -> Strip {
    Strip { x, y, col, winding }
}

/// (x, width, alpha index) of a strip command, (x, width) of a fill.
fn describe(cmd: &Cmd) -> (char, u32, u32, usize) {
    match cmd {
        Cmd::Fill(f) => ('f', f.x, f.width, 0),
        Cmd::Strip(s) => ('s', s.x, s.width, s.alpha_ix),
    }
}

fn two_by_two_tiles() -> Vec<WideTile> {
    (0..4).map(|i| WideTile::new((i % 2) * 256, (i / 2) * 4)).collect()
}

#[test]
fn strips_and_fills_go_to_their_wide_tiles() {
    let strips = vec![
        strip(4, 0, 0, 0),
        strip(260, 0, 2, 1),
        strip(264, 0, 3, 0),
        strip(0, 4, 4, 0),
    ];
    let mut tiles = two_by_two_tiles();
    generate_commands(&strips, &mut tiles, FillRule::NonZero, Paint::Solid(HALF_BLUE), 300, 8);

    let t0: Vec<_> = tiles[0].cmds.iter().map(describe).collect();
    let t1: Vec<_> = tiles[1].cmds.iter().map(describe).collect();
    assert_eq!(t0, vec![('s', 4, 2, 0), ('f', 6, 250, 0)]);
    assert_eq!(t1, vec![('f', 0, 4, 0), ('s', 4, 1, 2), ('s', 8, 1, 3)]);
    assert!(tiles[2].cmds.is_empty());
    assert!(tiles[3].cmds.is_empty());
}

#[test]
fn even_odd_rule_skips_even_windings() {
    let strips = vec![strip(4, 0, 0, 0), strip(100, 0, 2, 2), strip(0, 4, 3, 0)];
    let mut tiles = two_by_two_tiles();
    generate_commands(&strips, &mut tiles, FillRule::EvenOdd, Paint::Solid(HALF_BLUE), 300, 8);
    let t0: Vec<_> = tiles[0].cmds.iter().map(describe).collect();
    assert_eq!(t0, vec![('s', 4, 2, 0), ('s', 100, 1, 2)]);

    let mut tiles = two_by_two_tiles();
    generate_commands(&strips, &mut tiles, FillRule::NonZero, Paint::Solid(HALF_BLUE), 300, 8);
    let t0: Vec<_> = tiles[0].cmds.iter().map(describe).collect();
    assert_eq!(t0, vec![('s', 4, 2, 0), ('f', 6, 94, 0), ('s', 100, 1, 2)]);
}

#[test]
fn strips_right_of_the_viewport_are_skipped_and_strips_below_stop() {
    let strips = vec![
        strip(400, 0, 0, 0),
        strip(8, 0, 1, 0),
        strip(0, 8, 2, 0),
        strip(12, 0, 3, 0),
        strip(0, 12, 4, 0),
    ];
    let mut tiles = two_by_two_tiles();
    generate_commands(&strips, &mut tiles, FillRule::NonZero, Paint::Solid(HALF_BLUE), 300, 8);
    let t0: Vec<_> = tiles[0].cmds.iter().map(describe).collect();
    // Only the second strip is drawn: the first is right of the viewport, the third is
    // below it and ends the generation.
    assert_eq!(t0, vec![('s', 8, 1, 1)]);
    assert!(tiles[1].cmds.is_empty());
    assert!(tiles[2].cmds.is_empty());
}

#[test]
fn opaque_full_fill_replaces_the_tile() {
    let mut tile = WideTile::new(0, 0);
    tile.fill(3, 10, Paint::Solid(HALF_BLUE));
    assert_eq!(tile.cmds.len(), 1);
    tile.fill(0, 256, Paint::Solid(RED));
    assert!(tile.cmds.is_empty());
    assert_eq!(tile.bg.premul, [255, 0, 0, 255]);

    // A full fill that is not opaque is a command.
    tile.fill(0, 256, Paint::Solid(HALF_BLUE));
    assert_eq!(tile.cmds.len(), 1);
    let d = WideTile::default();
    assert_eq!((d.x, d.y, d.bg.premul, d.cmds.len()), (0, 0, [0, 0, 0, 0], 0));
}

#[test]
fn generated_commands_render_into_the_pixmap() {
    // One strip with a full-coverage mask at column 2 of row 0, then a fill up to the
    // next strip at column 5.
    let mut ctx = RenderContext::new(8, 4);
    ctx.alphas = vec![0xffff_ffff, 0];
    ctx.strip_buf = vec![strip(2, 0, 0, 0), strip(5, 0, 1, 1), strip(0, 4, 2, 0)];
    ctx.generate_commands(FillRule::NonZero, Paint::Solid(RED));
    let mut pixmap = Pixmap::new(8, 4);
    ctx.render_to_pixmap(&mut pixmap);
    let data = pixmap.data();
    for row in 0..4 {
        for col in 0..8 {
            let p = (row * 8 + col) * 4;
            let red = col >= 2 && col < 5;
            let expected: [u8; 4] = if red { [255, 0, 0, 255] } else { [0, 0, 0, 0] };
            assert_eq!(&data[p..p + 4], &expected, "pixel ({}, {})", col, row);
        }
    }
}

#[test]
fn command_generation_conditions() {
    let strips = vec![strip(4, 0, 0, 0), strip(260, 0, 2, 1), strip(264, 0, 3, 0), strip(0, 4, 4, 0)];
    assert!(commands_can_generate(&strips, FillRule::NonZero, 300, 8, 4));
    // A strip in the second row of wide tiles needs four of them.
    let low = vec![strip(4, 4, 0, 0), strip(0, 8, 1, 0)];
    assert!(commands_can_generate(&low, FillRule::NonZero, 300, 8, 4));
    assert!(!commands_can_generate(&low, FillRule::NonZero, 300, 8, 2));
    // A gap to fill that ends before the strip's own columns end cannot be filled.
    let back = vec![strip(10, 0, 0, 0), strip(5, 0, 20, 1)];
    assert!(!strip_fits_exec(&back[0], &back[1], FillRule::NonZero, 300, 4));
    let back_even = vec![strip(10, 0, 0, 0), strip(5, 0, 20, 2)];
    assert!(!strip_fits_exec(&back_even[0], &back_even[1], FillRule::NonZero, 300, 4));
    assert!(strip_fits_exec(&back_even[0], &back_even[1], FillRule::EvenOdd, 300, 4));
    assert!(commands_can_generate(&[], FillRule::NonZero, 300, 8, 0));
}

#[test]
fn command_and_pack_conditions() {
    let red = Paint::Solid(RED);
    let not_premul = Paint::Solid(SolidColor { premul: [200, 0, 0, 100], opaque: false });
    assert!(cmd_fits_exec(&Cmd::Fill(CmdFill { x: 250, width: 6, paint: red }), 0));
    assert!(!cmd_fits_exec(&Cmd::Fill(CmdFill { x: 250, width: 7, paint: red }), 0));
    assert!(!cmd_fits_exec(&Cmd::Fill(CmdFill { x: 0, width: 1, paint: not_premul }), 0));
    assert!(cmd_fits_exec(&Cmd::Strip(CmdStrip { x: 0, width: 2, alpha_ix: 1, paint: red }), 3));
    assert!(!cmd_fits_exec(&Cmd::Strip(CmdStrip { x: 0, width: 2, alpha_ix: 2, paint: red }), 3));
    // A 300 x 5 pixmap has wide tiles (0, 0), (1, 0), (0, 1) and (1, 1).
    assert!(pack_fits_exec(300 * 5 * 4, 300, 5, 1, 1));
    assert!(!pack_fits_exec(300 * 5 * 4 - 1, 300, 5, 1, 1));
    assert!(!pack_fits_exec(300 * 5 * 4, 300, 5, 2, 0));
    assert!(!pack_fits_exec(300 * 5 * 4, 300, 5, 0, 2));
}

#[test]
fn render_conditions() {
    let mut ctx = RenderContext::new(8, 4);
    let pixmap = Pixmap::new(8, 4);
    assert!(ctx.can_render_to(&pixmap));
    // Packing clips to the pixmap, but its buffer must hold its pixels.
    assert!(ctx.can_render_to(&Pixmap::new(3, 2)));
    assert!(!ctx.can_render_to(&Pixmap { width: 8, height: 4, buf: vec![0; 10] }));
    ctx.tiles[0].push(Cmd::Strip(CmdStrip { x: 0, width: 1, alpha_ix: 0, paint: Paint::Solid(RED) }));
    assert!(!ctx.can_render_to(&pixmap));
    ctx.alphas.push(0);
    assert!(ctx.can_render_to(&pixmap));
}

#[test]
fn opaque_full_fill_renders_like_the_fill_command() {
    let render = |replace: bool| {
        let mut ctx = RenderContext::new(256, 4);
        ctx.alphas = vec![0x8040_20ff];
        ctx.tiles[0].fill(3, 10, Paint::Solid(HALF_BLUE));
        ctx.tiles[0].push(Cmd::Strip(CmdStrip { x: 20, width: 1, alpha_ix: 0, paint: Paint::Solid(HALF_BLUE) }));
        if replace {
            ctx.tiles[0].fill(0, 256, Paint::Solid(RED));
            assert!(ctx.tiles[0].cmds.is_empty());
        } else {
            ctx.tiles[0].push(Cmd::Fill(CmdFill { x: 0, width: 256, paint: Paint::Solid(RED) }));
        }
        let mut pixmap = Pixmap::new(256, 4);
        ctx.render_to_pixmap(&mut pixmap);
        pixmap.data().to_vec()
    };
    let replaced = render(true);
    assert_eq!(replaced, render(false));
    assert!(replaced.chunks(4).all(|p| p == [255, 0, 0, 255]));
}

#[test]
fn rendering_keeps_pixels_premultiplied() {
    let mut ctx = RenderContext::new(300, 8);
    ctx.alphas = vec![0x10ff_8040, 0xffff_ffff, 0x0102_0304];
    let green = Paint::Solid(SolidColor { premul: [0, 90, 10, 100], opaque: false });
    for i in 0..ctx.tiles.len() {
        ctx.tiles[i].bg = SolidColor { premul: [20, 30, 40, 50], opaque: false };
        ctx.tiles[i].fill(10, 200, Paint::Solid(HALF_BLUE));
        ctx.tiles[i].push(Cmd::Strip(CmdStrip { x: 100, width: 3, alpha_ix: 0, paint: green }));
        ctx.tiles[i].fill(150, 20, green);
    }
    let mut pixmap = Pixmap::new(300, 8);
    ctx.render_to_pixmap(&mut pixmap);
    for px in pixmap.data().chunks(4) {
        assert!(px[0] <= px[3] && px[1] <= px[3] && px[2] <= px[3], "{:?}", px);
    }
}

#[test]
fn fills_stop_at_the_last_wide_tile_of_the_row() {
    // A 256 x 8 viewport has one wide tile per row; the gap up to a strip right of the
    // viewport is filled to the end of the row only.
    let strips = vec![strip(0, 0, 0, 0), strip(300, 0, 1, 1), strip(0, 8, 2, 0)];
    let mut tiles = vec![WideTile::new(0, 0), WideTile::new(0, 4)];
    assert!(commands_can_generate(&strips, FillRule::NonZero, 256, 8, 2));
    generate_commands(&strips, &mut tiles, FillRule::NonZero, Paint::Solid(HALF_BLUE), 256, 8);
    let t0: Vec<_> = tiles[0].cmds.iter().map(describe).collect();
    assert_eq!(t0, vec![('s', 0, 1, 0), ('f', 1, 255, 0)]);
    assert!(tiles[1].cmds.is_empty());
}
