//! Wide tiles: 256x4 pixel areas of the viewport with the list of commands to draw in
//! them, and the generation of those commands from strips.

use vstd::prelude::*;
use crate::paint::{Paint, SolidColor};
use crate::strip::Strip;
use crate::FillRule;

verus! {

/// Width of a wide tile in pixels.
pub const WIDE_TILE_WIDTH: usize = 256;

/// Height of a strip (and of a wide tile) in pixels.
pub const STRIP_HEIGHT: usize = 4;

/// Paint the pixel columns [x, x + width) of the wide tile.
#[derive(Debug, Clone, Copy)]
pub struct CmdFill {
    pub x: u32,
    pub width: u32,
    pub paint: Paint,
}

/// Paint the pixel columns [x, x + width) of the wide tile through the coverage masks
/// that start at `alpha_ix` in the alpha buffer.
#[derive(Debug, Clone, Copy)]
pub struct CmdStrip {
    pub x: u32,
    pub width: u32,
    pub alpha_ix: usize,
    pub paint: Paint,
}

#[derive(Debug, Clone, Copy)]
pub enum Cmd {
    Fill(CmdFill),
    Strip(CmdStrip),
}

/// A wide tile: its position in pixels, its background and the commands drawn over it.
#[derive(Debug)]
pub struct WideTile {
    pub x: usize,
    pub y: usize,
    pub bg: SolidColor,
    pub cmds: Vec<Cmd>,
}

/// What a wide tile holds, with its commands as a sequence.
pub struct WideTileView {
    pub x: usize,
    pub y: usize,
    pub bg: SolidColor,
    pub cmds: Seq<Cmd>,
}

impl View for WideTile {
    type V = WideTileView;

    open spec fn view(&self) -> WideTileView {
        WideTileView { x: self.x, y: self.y, bg: self.bg, cmds: self.cmds@ }
    }
}

/// The views of a sequence of wide tiles.
pub open spec fn tile_views(s: Seq<WideTile>) -> Seq<WideTileView> {
    s.map_values(|t: WideTile| t@)
}

/// A fill that covers the whole tile with an opaque color replaces everything drawn
/// before it.
pub open spec fn fill_replaces_tile(x: u32, width: u32, paint: Paint) -> bool {
    x == 0 && width == 256 && match paint {
        Paint::Solid(s) => s.opaque,
    }
}

/// The color of a solid paint.
pub open spec fn solid_color(paint: Paint) -> SolidColor {
    match paint {
        Paint::Solid(s) => s,
    }
}

/// A tile after a fill of the columns [x, x + width) with `paint`.
pub open spec fn tile_after_fill(t: WideTileView, x: u32, width: u32, paint: Paint) -> WideTileView {
    if fill_replaces_tile(x, width, paint) {
        WideTileView { bg: solid_color(paint), cmds: Seq::empty(), ..t }
    } else {
        WideTileView { cmds: t.cmds.push(Cmd::Fill(CmdFill { x, width, paint })), ..t }
    }
}

impl WideTile {
    pub fn new(x: usize, y: usize) -> (r: WideTile)
        ensures
            r.x == x,
            r.y == y,
            r.bg == SolidColor::spec_transparent(),
            r.cmds@ == Seq::<Cmd>::empty(),
    {
        WideTile { x, y, bg: SolidColor::transparent(), cmds: Vec::new() }
    }

    /// Paint the columns [x, x + width) with `paint`. An opaque fill of the whole tile
    /// drops the commands drawn so far and becomes the tile's background.
    pub fn fill(&mut self, x: u32, width: u32, paint: Paint)
        ensures
            final(self)@ == tile_after_fill(old(self)@, x, width, paint),
    {
        let Paint::Solid(s) = paint;
        let can_override = x == 0 && width == WIDE_TILE_WIDTH as u32 && s.opaque;
        if can_override {
            self.cmds.clear();
            self.bg = s;
        } else {
            self.cmds.push(Cmd::Fill(CmdFill { x, width, paint }));
        }
        assert(final(self)@.cmds =~= tile_after_fill(old(self)@, x, width, paint).cmds);
    }

    pub fn push(&mut self, cmd: Cmd)
        ensures
            final(self)@ == (WideTileView { cmds: old(self)@.cmds.push(cmd), ..old(self)@ }),
    {
        self.cmds.push(cmd);
    }
}

impl Default for WideTile {
    fn default() -> (r: WideTile)
        ensures
            r.x == 0,
            r.y == 0,
            r.bg == SolidColor::spec_transparent(),
            r.cmds@ == Seq::<Cmd>::empty(),
    {
        WideTile::new(0, 0)
    }
}

/// `a / b` rounded up.
pub open spec fn div_ceil(a: int, b: int) -> int {
    (a + b - 1) / b
}

pub open spec fn min(a: int, b: int) -> int {
    if a < b { a } else { b }
}

pub open spec fn max(a: int, b: int) -> int {
    if a > b { a } else { b }
}

/// `a / b` rounded up, for `b > 0`.
pub fn div_ceil_usize(a: usize, b: usize) -> (r: usize)
    requires
        b > 0,
    ensures
        r == div_ceil(a as int, b as int),
{
    let q = a / b;
    proof {
        assert(a % b != 0 ==> q < usize::MAX) by (nonlinear_arith)
            requires q == a / b, b > 0, a <= usize::MAX;
    }
    let r = if a % b != 0 { q + 1 } else { q };
    proof {
        assert(a as int == q * b + a % b) by (nonlinear_arith)
            requires q == a / b, b > 0;
        assert(r as int == (a + b - 1) / (b as int)) by (nonlinear_arith)
            requires a as int == q * b + a % b, b > 0, 0 <= a % b < b,
                r == (if a % b != 0 { q + 1 } else { q as int });
    }
    r
}

/// The number of wide tiles in a row of a viewport `width` pixels wide.
pub open spec fn tiles_per_row(width: int) -> int {
    div_ceil(width, 256)
}

/// The end (exclusive) of the pixel columns that a strip covers: it has one column
/// per coverage mask up to the masks of the strip after it.
pub open spec fn strip_end(s: Strip, n: Strip) -> int {
    s.x + (if n.col > s.col { n.col - s.col } else { 0int })
}

/// The first index of the row of wide tiles that a strip falls into.
pub open spec fn tile_row_start(s: Strip, wt: int) -> int {
    (s.y / 4) as int * wt
}

/// The wide tiles [strip_tile0, strip_tile1) of the row that get a strip command; the
/// strip is cut at the right side of the viewport.
pub open spec fn strip_tile0(s: Strip) -> int {
    (s.x / 256) as int
}

pub open spec fn strip_tile1(s: Strip, n: Strip, wt: int) -> int {
    min(div_ceil(strip_end(s, n), 256), wt)
}

/// The strip command that wide tile `xtile` of the row gets: the part of the strip's
/// columns inside the tile, with the masks of those columns.
pub open spec fn strip_cmd(s: Strip, n: Strip, xtile: int, paint: Paint) -> CmdStrip {
    let x = max(s.x as int, xtile * 256);
    CmdStrip {
        x: (x % 256) as u32,
        width: (min(strip_end(s, n), (xtile + 1) * 256) - x) as u32,
        alpha_ix: (s.col + (x - s.x)) as usize,
        paint,
    }
}

/// Whether the pixels between the end of a strip and the start of the next one are
/// inside the path: the next strip is in the same row and its winding number counts
/// as inside.
pub open spec fn fills_gap(s: Strip, n: Strip, fill_rule: FillRule) -> bool {
    fill_rule.is_inside(n.winding as int) && s.y / 4 == n.y / 4
}

/// The wide tiles [fill_tile0, fill_tile1) of the row that get a fill of the gap; the
/// gap is cut at the right side of the viewport, so the fill stays in the row.
pub open spec fn fill_tile0(s: Strip, n: Strip) -> int {
    strip_end(s, n) / 256
}

pub open spec fn fill_tile1(n: Strip, wt: int) -> int {
    min(div_ceil(n.x as int, 256), wt)
}

/// The start of the part of the gap inside wide tile `xtile`.
pub open spec fn fill_start(s: Strip, n: Strip, xtile: int) -> int {
    max(strip_end(s, n), xtile * 256)
}

/// The width of the part of the gap inside wide tile `xtile`.
pub open spec fn fill_width(s: Strip, n: Strip, xtile: int) -> int {
    min(n.x as int, (xtile + 1) * 256) - fill_start(s, n, xtile)
}

/// Wide tile number `idx` after the commands of strip `s` (followed by `n`): a strip
/// command if the strip covers it, then a fill if the gap after the strip covers it.
pub open spec fn tile_step(
    t: WideTileView,
    idx: int,
    s: Strip,
    n: Strip,
    fill_rule: FillRule,
    paint: Paint,
    wt: int,
) -> WideTileView {
    let xtile = idx - tile_row_start(s, wt);
    let t1 = if strip_tile0(s) <= xtile < strip_tile1(s, n, wt) {
        WideTileView { cmds: t.cmds.push(Cmd::Strip(strip_cmd(s, n, xtile, paint))), ..t }
    } else {
        t
    };
    if fills_gap(s, n, fill_rule) && fill_tile0(s, n) <= xtile < fill_tile1(n, wt) {
        tile_after_fill(
            t1,
            (fill_start(s, n, xtile) % 256) as u32,
            fill_width(s, n, xtile) as u32,
            paint,
        )
    } else {
        t1
    }
}

/// The wide tiles after the commands of strip `s`, followed by `n`; strips that start
/// right of the viewport add nothing.
pub open spec fn strip_step(
    tiles: Seq<WideTileView>,
    s: Strip,
    n: Strip,
    fill_rule: FillRule,
    paint: Paint,
    width: int,
    wt: int,
) -> Seq<WideTileView> {
    if s.x >= width {
        tiles
    } else {
        Seq::new(tiles.len(), |idx: int| tile_step(tiles[idx], idx, s, n, fill_rule, paint, wt))
    }
}

/// The wide tiles after the commands of the first `i` strips.
pub open spec fn commands_upto(
    tiles: Seq<WideTileView>,
    strips: Seq<Strip>,
    i: int,
    fill_rule: FillRule,
    paint: Paint,
    width: int,
) -> Seq<WideTileView>
    decreases i,
{
    if i <= 0 {
        tiles
    } else {
        strip_step(
            commands_upto(tiles, strips, i - 1, fill_rule, paint, width),
            strips[i - 1],
            strips[i],
            fill_rule,
            paint,
            width,
            tiles_per_row(width),
        )
    }
}

/// Whether the strip stops the generation: strips are sorted by row, so the first strip
/// below the viewport (and not right of it) ends it.
pub open spec fn stops(s: Strip, width: int, height: int) -> bool {
    s.x < width && s.y >= height
}

/// The number of strips, from `i` on, whose commands are generated before a strip stops
/// the generation; the last strip only serves as the successor of the one before it.
pub open spec fn run_end(strips: Seq<Strip>, width: int, height: int, i: int) -> int
    decreases strips.len() - i,
{
    if i >= strips.len() - 1 {
        i
    } else if stops(strips[i], width, height) {
        i
    } else {
        run_end(strips, width, height, i + 1)
    }
}

/// The number of strips whose commands are generated.
pub open spec fn generated_count(strips: Seq<Strip>, width: int, height: int) -> int {
    if strips.len() == 0 {
        0
    } else {
        run_end(strips, width, height, 0)
    }
}

/// Strip `s` (followed by `n`) can generate its commands: every wide tile it writes to
/// exists, the gap to fill does not end left of the strip's end, and pixel columns
/// stay in the range of `u32`.
pub open spec fn strip_fits(
    s: Strip,
    n: Strip,
    fill_rule: FillRule,
    width: int,
    n_tiles: int,
) -> bool {
    let wt = tiles_per_row(width);
    &&& strip_end(s, n) <= u32::MAX
    &&& tile_row_start(s, wt) <= usize::MAX
    &&& strip_tile1(s, n, wt) * 256 <= u32::MAX
    &&& (strip_tile0(s) < strip_tile1(s, n, wt) ==> tile_row_start(s, wt) + strip_tile1(s, n, wt) <= n_tiles)
    &&& (fills_gap(s, n, fill_rule) && fill_tile0(s, n) < fill_tile1(n, wt) ==> {
        &&& strip_end(s, n) <= n.x
        &&& fill_tile1(n, wt) * 256 <= u32::MAX
        &&& tile_row_start(s, wt) + fill_tile1(n, wt) <= n_tiles
    })
}

/// A strip that does not stop the generation passes it on to the next one.
pub proof fn lemma_run_end_skip(strips: Seq<Strip>, width: int, height: int, i: int)
    requires
        0 <= i < strips.len() - 1,
        !stops(strips[i], width, height),
    ensures
        run_end(strips, width, height, i) == run_end(strips, width, height, i + 1),
{
}

/// The generation from strip `i` on ends at a strip that stops it, or before the last
/// strip, and no strip before that end stops it.
pub proof fn lemma_run_end_bounds(strips: Seq<Strip>, width: int, height: int, i: int)
    requires
        0 <= i <= strips.len() - 1,
    ensures
        i <= run_end(strips, width, height, i) <= strips.len() - 1,
        run_end(strips, width, height, i) < strips.len() - 1 ==> stops(
            strips[run_end(strips, width, height, i)],
            width,
            height,
        ),
        forall|j: int| i <= j < run_end(strips, width, height, i) ==> !stops(#[trigger] strips[j], width, height),
    decreases strips.len() - i,
{
    if i < strips.len() - 1 && !stops(strips[i], width, height) {
        lemma_run_end_bounds(strips, width, height, i + 1);
    }
}

/// Generate the strip and fill commands for each wide tile from the strips in
/// `strip_buf` (sorted by row; the last one only ends the one before it).
///
/// For each strip that starts inside the viewport, every wide tile of its row that it
/// covers gets a strip command for the part of the strip inside the tile; when the pixels
/// up to the next strip in the row are inside the path, the wide tiles that gap covers
/// get a fill. The first strip below the viewport ends the generation.
pub fn generate_commands(
    strip_buf: &[Strip],
    wide_tiles: &mut [WideTile],
    fill_rule: FillRule,
    paint: Paint,
    width: usize,
    height: usize,
)
    requires
        forall|i: int|
            0 <= i < generated_count(strip_buf@, width as int, height as int) && strip_buf@[i].x < width
                ==> strip_fits(
                #[trigger] strip_buf@[i],
                strip_buf@[i + 1],
                fill_rule,
                width as int,
                old(wide_tiles)@.len() as int,
            ),
    ensures
        tile_views(final(wide_tiles)@) == commands_upto(
            tile_views(old(wide_tiles)@),
            strip_buf@,
            generated_count(strip_buf@, width as int, height as int),
            fill_rule,
            paint,
            width as int,
        ),
{
    let width_tiles = div_ceil_usize(width, WIDE_TILE_WIDTH);
    let n_len = wide_tiles.len();
    let ghost wt = tiles_per_row(width as int);
    let ghost t0 = tile_views(wide_tiles@);
    let ghost n_tiles = wide_tiles@.len() as int;
    assert(n_tiles == n_len);

    if strip_buf.len() == 0 {
        assert(tile_views(wide_tiles@) =~= t0);
        return;
    }
    proof {
        lemma_run_end_bounds(strip_buf@, width as int, height as int, 0);
    }
    let ghost count = generated_count(strip_buf@, width as int, height as int);

    let mut i: usize = 0;
    while i < strip_buf.len() - 1
        invariant
            width_tiles == wt,
            wt == tiles_per_row(width as int),
            n_tiles == wide_tiles@.len(),
            n_tiles <= usize::MAX,
            n_tiles == old(wide_tiles)@.len(),
            t0 == tile_views(old(wide_tiles)@),
            strip_buf@.len() > 0,
            count == generated_count(strip_buf@, width as int, height as int),
            count == run_end(strip_buf@, width as int, height as int, i as int),
            0 <= i <= count,
            count <= strip_buf@.len() - 1,
            forall|j: int|
                0 <= j < count && strip_buf@[j].x < width ==> strip_fits(
                    #[trigger] strip_buf@[j],
                    strip_buf@[j + 1],
                    fill_rule,
                    width as int,
                    n_tiles,
                ),
            tile_views(wide_tiles@) == commands_upto(t0, strip_buf@, i as int, fill_rule, paint, width as int),
        ensures
            tile_views(wide_tiles@) == commands_upto(t0, strip_buf@, count, fill_rule, paint, width as int),
        decreases strip_buf@.len() - i,
    {
        let strip = strip_buf[i];
        assert(strip == strip_buf@[i as int]);

        if strip.x as usize >= width {
            // Don't render strips that are outside the viewport.
            proof {
                lemma_run_end_skip(strip_buf@, width as int, height as int, i as int);
                lemma_run_end_bounds(strip_buf@, width as int, height as int, i + 1);
                let prev = commands_upto(t0, strip_buf@, i as int, fill_rule, paint, width as int);
                assert(commands_upto(t0, strip_buf@, i + 1, fill_rule, paint, width as int) == prev);
            }
            i += 1;
            continue;
        }

        if strip.y as usize >= height {
            // Since strips are sorted by location, any subsequent strips will also be
            // outside the viewport, so we can abort entirely.
            assert(count == i);
            break;
        }

        proof {
            lemma_run_end_skip(strip_buf@, width as int, height as int, i as int);
            lemma_run_end_bounds(strip_buf@, width as int, height as int, (i + 1) as int);
            assert(i < count);
            assert(strip_fits(strip, strip_buf@[i + 1], fill_rule, width as int, n_tiles));
            assert(tile_row_start(strip, wt) <= usize::MAX);
        }
        let next_strip = strip_buf[i + 1];
        let ghost prev = tile_views(wide_tiles@);
        let ghost t_strips = Seq::new(prev.len(), |idx: int| {
            let xtile = idx - tile_row_start(strip, wt);
            if strip_tile0(strip) <= xtile < strip_tile1(strip, next_strip, wt) {
                WideTileView { cmds: prev[idx].cmds.push(Cmd::Strip(strip_cmd(strip, next_strip, xtile, paint))), ..prev[idx] }
            } else {
                prev[idx]
            }
        });

        let x0 = strip.x;
        let y = strip.strip_y();
        assert(y as int * width_tiles as int == tile_row_start(strip, wt));
        let row_start = y as usize * width_tiles;
        let mut col = strip.col;
        // Can potentially be 0, if the next strip's mask index is not larger.
        let strip_width = next_strip.col.saturating_sub(col);
        let x1 = x0 + strip_width;
        let xtile0 = x0 as usize / WIDE_TILE_WIDTH;
        let xtile1 = {
            let c = div_ceil_usize(x1 as usize, WIDE_TILE_WIDTH);
            if c < width_tiles { c } else { width_tiles }
        };
        let mut x = x0;
        let mut xtile = xtile0;

        while xtile < xtile1
            invariant
                wt == tiles_per_row(width as int),
                n_tiles == wide_tiles@.len(),
                n_tiles <= usize::MAX,
                prev.len() == n_tiles,
                t_strips.len() == n_tiles,
                forall|idx: int| 0 <= idx < n_tiles ==> #[trigger] t_strips[idx] == (if strip_tile0(strip)
                    <= idx - tile_row_start(strip, wt) < strip_tile1(strip, next_strip, wt) {
                    WideTileView {
                        cmds: prev[idx].cmds.push(Cmd::Strip(strip_cmd(strip, next_strip, idx - tile_row_start(strip, wt), paint))),
                        ..prev[idx]
                    }
                } else {
                    prev[idx]
                }),
                strip_fits(strip, next_strip, fill_rule, width as int, n_tiles),
                row_start == tile_row_start(strip, wt),
                x1 == strip_end(strip, next_strip),
                xtile0 == strip_tile0(strip),
                xtile1 == strip_tile1(strip, next_strip, wt),
                x0 == strip.x,
                xtile0 <= xtile <= xtile1 || xtile == xtile0,
                xtile < xtile1 ==> x == max(strip.x as int, xtile * 256),
                xtile < xtile1 ==> col == strip.col + (x - strip.x),
                forall|idx: int| 0 <= idx < n_tiles ==> #[trigger] tile_views(wide_tiles@)[idx] == (
                    if row_start + xtile0 <= idx < row_start + xtile { t_strips[idx] } else { prev[idx] }),
            decreases xtile1 - xtile,
        {
            let x_tile_rel = x % WIDE_TILE_WIDTH as u32;
            assert((xtile + 1) * 256 <= xtile1 * 256);
            let bound = ((xtile + 1) * WIDE_TILE_WIDTH) as u32;
            let end = if x1 < bound { x1 } else { bound };
            let width = end - x;
            let cmd = CmdStrip { x: x_tile_rel, width, alpha_ix: col as usize, paint };
            proof {
                assert(cmd == strip_cmd(strip, next_strip, xtile as int, paint));
            }
            x += width;
            col += width;
            let ghost before_raw = wide_tiles@;
            let ghost before = tile_views(wide_tiles@);
            let ix = row_start + xtile;
            wide_tiles[ix].push(Cmd::Strip(cmd));
            proof {
                assert forall|j: int| 0 <= j < n_tiles implies #[trigger] tile_views(wide_tiles@)[j] == (
                    if j == ix { t_strips[j] } else { before[j] }) by {
                    assert(tile_views(wide_tiles@)[j] == wide_tiles@[j]@);
                    assert(before[j] == before_raw[j]@);
                    if j != ix {
                        assert(wide_tiles@[j] == before_raw[j]);
                    }
                }
            }
            xtile += 1;
        }
        proof {
            assert(tile_views(wide_tiles@) =~= t_strips);
        }

        let ghost t_fill = Seq::new(prev.len(), |idx: int| tile_step(prev[idx], idx, strip, next_strip, fill_rule, paint, wt));
        if fill_rule.active_fill(next_strip.winding) && y == next_strip.strip_y() {
            x = x1;
            let x2 = next_strip.x;
            let fxt0 = x1 as usize / WIDE_TILE_WIDTH;
            let fxt1_raw = div_ceil_usize(x2 as usize, WIDE_TILE_WIDTH);
            // Like strips, fills stop at the last wide tile of the row.
            let fxt1 = if fxt1_raw < width_tiles { fxt1_raw } else { width_tiles };
            let mut xtile = fxt0;
            while xtile < fxt1
                invariant
                    wt == tiles_per_row(width as int),
                    n_tiles == wide_tiles@.len(),
                    n_tiles <= usize::MAX,
                    prev.len() == n_tiles,
                    t_strips.len() == n_tiles,
                    t_fill.len() == n_tiles,
                    forall|idx: int| 0 <= idx < n_tiles ==> #[trigger] t_strips[idx] == (if strip_tile0(strip)
                        <= idx - tile_row_start(strip, wt) < strip_tile1(strip, next_strip, wt) {
                        WideTileView {
                            cmds: prev[idx].cmds.push(Cmd::Strip(strip_cmd(strip, next_strip, idx - tile_row_start(strip, wt), paint))),
                            ..prev[idx]
                        }
                    } else {
                        prev[idx]
                    }),
                    forall|idx: int| 0 <= idx < n_tiles ==> #[trigger] t_fill[idx] == tile_step(prev[idx], idx, strip, next_strip, fill_rule, paint, wt),
                    forall|idx: int| 0 <= idx < n_tiles && !(fill_tile0(strip, next_strip) <= idx - tile_row_start(strip, wt) < fill_tile1(next_strip, wt)) ==> #[trigger] t_fill[idx] == t_strips[idx],
                    strip_fits(strip, next_strip, fill_rule, width as int, n_tiles),
                    fills_gap(strip, next_strip, fill_rule),
                    row_start == tile_row_start(strip, wt),
                    x1 == strip_end(strip, next_strip),
                    x2 == next_strip.x,
                    fxt0 == fill_tile0(strip, next_strip),
                    fxt1 == fill_tile1(next_strip, wt),
                    fxt0 <= xtile <= fxt1 || xtile == fxt0,
                    xtile < fxt1 ==> x == fill_start(strip, next_strip, xtile as int),
                    forall|idx: int| 0 <= idx < n_tiles ==> #[trigger] tile_views(wide_tiles@)[idx] == (
                        if row_start + fxt0 <= idx < row_start + xtile { t_fill[idx] } else { t_strips[idx] }),
                decreases fxt1 - xtile,
            {
                let x_tile_rel = x % WIDE_TILE_WIDTH as u32;
                assert((xtile + 1) * 256 <= fxt1 * 256);
                assert(row_start + fxt1 <= n_tiles);
                let bound = ((xtile + 1) * WIDE_TILE_WIDTH) as u32;
                let end = if x2 < bound { x2 } else { bound };
                let width = end - x;
                x += width;
                let ghost before_raw = wide_tiles@;
                let ghost before = tile_views(wide_tiles@);
                let ix = row_start + xtile;
                proof {
                    assert(before[ix as int] == t_strips[ix as int]);
                    assert(width as int == fill_width(strip, next_strip, xtile as int));
                    assert(x_tile_rel as int == fill_start(strip, next_strip, xtile as int) % 256);
                    assert(t_fill[ix as int] == tile_after_fill(t_strips[ix as int], x_tile_rel, width, paint));
                }
                wide_tiles[ix].fill(x_tile_rel, width, paint);
                proof {
                    assert forall|j: int| 0 <= j < n_tiles implies #[trigger] tile_views(wide_tiles@)[j] == (
                        if j == ix { t_fill[j] } else { before[j] }) by {
                        assert(tile_views(wide_tiles@)[j] == wide_tiles@[j]@);
                        assert(before[j] == before_raw[j]@);
                        if j != ix {
                            assert(wide_tiles@[j] == before_raw[j]);
                        }
                    }
                }
                xtile += 1;
            }
            proof {
                assert(tile_views(wide_tiles@) =~= t_fill);
            }
        } else {
            proof {
                assert(t_fill =~= t_strips);
            }
        }
        proof {
            assert(t_fill =~= strip_step(prev, strip, next_strip, fill_rule, paint, width as int, wt));
            assert(commands_upto(t0, strip_buf@, i + 1, fill_rule, paint, width as int) == strip_step(
                commands_upto(t0, strip_buf@, i as int, fill_rule, paint, width as int),
                strip_buf@[i as int],
                strip_buf@[i + 1],
                fill_rule,
                paint,
                width as int,
                wt,
            ));
        }
        i += 1;
    }
}


/// Whether strip `s`, followed by `n`, can generate its commands (see `strip_fits`).
pub fn strip_fits_exec(s: &Strip, n: &Strip, fill_rule: FillRule, width: usize, n_tiles: usize) -> (r: bool)
    ensures
        r == strip_fits(*s, *n, fill_rule, width as int, n_tiles as int),
{
    let wt: u128 = div_ceil_usize(width, WIDE_TILE_WIDTH) as u128;
    let gap: u128 = if n.col > s.col { (n.col - s.col) as u128 } else { 0 };
    let end: u128 = s.x as u128 + gap;
    let row: u128 = (s.y / 4) as u128;
    proof {
        assert(row * wt <= 0x4000_0000 * 0x1_0000_0000_0000_0000) by (nonlinear_arith)
            requires row <= 0x4000_0000, wt <= 0x1_0000_0000_0000_0000;
    }
    let row_start: u128 = row * wt;
    let t1_raw: u128 = (end + 255) / 256;
    let t1: u128 = if t1_raw < wt { t1_raw } else { wt };
    let t0: u128 = (s.x / 256) as u128;
    let base_ok = end <= 0xffff_ffff && row_start <= usize::MAX as u128 && t1 * 256 <= 0xffff_ffff
        && (!(t0 < t1) || row_start + t1 <= n_tiles as u128);
    let fills = fill_rule.active_fill(n.winding) && s.y / 4 == n.y / 4;
    let f0: u128 = end / 256;
    let f1_raw: u128 = (n.x as u128 + 255) / 256;
    let f1: u128 = if f1_raw < wt { f1_raw } else { wt };
    let fill_ok = end <= n.x as u128 && f1 * 256 <= 0xffff_ffff && row_start + f1 <= n_tiles as u128;
    base_ok && (!(fills && f0 < f1) || fill_ok)
}

/// Whether `generate_commands` can run on these strips, for a viewport of `width` x
/// `height` pixels with `n_tiles` wide tiles: every strip whose commands are generated
/// fits (see `strip_fits`).
pub fn commands_can_generate(
    strip_buf: &[Strip],
    fill_rule: FillRule,
    width: usize,
    height: usize,
    n_tiles: usize,
) -> (r: bool)
    ensures
        r == (forall|i: int|
            0 <= i < generated_count(strip_buf@, width as int, height as int) && strip_buf@[i].x < width
                ==> strip_fits(
                #[trigger] strip_buf@[i],
                strip_buf@[i + 1],
                fill_rule,
                width as int,
                n_tiles as int,
            )),
{
    if strip_buf.len() == 0 {
        return true;
    }
    proof {
        lemma_run_end_bounds(strip_buf@, width as int, height as int, 0);
    }
    let ghost count = generated_count(strip_buf@, width as int, height as int);
    let mut i: usize = 0;
    while i < strip_buf.len() - 1
        invariant
            strip_buf@.len() > 0,
            count == generated_count(strip_buf@, width as int, height as int),
            count == run_end(strip_buf@, width as int, height as int, i as int),
            0 <= i <= count,
            count <= strip_buf@.len() - 1,
            forall|j: int|
                0 <= j < i && strip_buf@[j].x < width ==> strip_fits(
                    #[trigger] strip_buf@[j],
                    strip_buf@[j + 1],
                    fill_rule,
                    width as int,
                    n_tiles as int,
                ),
        ensures
            forall|j: int|
                0 <= j < count && strip_buf@[j].x < width ==> strip_fits(
                    #[trigger] strip_buf@[j],
                    strip_buf@[j + 1],
                    fill_rule,
                    width as int,
                    n_tiles as int,
                ),
        decreases strip_buf@.len() - i,
    {
        let strip = &strip_buf[i];
        if (strip.x as usize) < width && strip.y as usize >= height {
            assert(count == i);
            break;
        }
        proof {
            lemma_run_end_skip(strip_buf@, width as int, height as int, i as int);
            lemma_run_end_bounds(strip_buf@, width as int, height as int, (i + 1) as int);
        }
        if (strip.x as usize) < width && !strip_fits_exec(strip, &strip_buf[i + 1], fill_rule, width, n_tiles) {
            return false;
        }
        i += 1;
    }
    true
}
/// Generating commands keeps the number of wide tiles.
pub proof fn lemma_commands_upto_len(
    tiles: Seq<WideTileView>,
    strips: Seq<Strip>,
    i: int,
    fill_rule: FillRule,
    paint: Paint,
    width: int,
)
    ensures
        commands_upto(tiles, strips, i, fill_rule, paint, width).len() == tiles.len(),
    decreases i,
{
    if i > 0 {
        lemma_commands_upto_len(tiles, strips, i - 1, fill_rule, paint, width);
    }
}

/// A strip whose row of wide tiles lies past the last wide tile changes nothing.
proof fn lemma_strip_step_past_tiles(
    tiles: Seq<WideTileView>,
    s: Strip,
    n: Strip,
    fill_rule: FillRule,
    paint: Paint,
    width: int,
)
    requires
        tile_row_start(s, tiles_per_row(width)) >= tiles.len(),
    ensures
        strip_step(tiles, s, n, fill_rule, paint, width, tiles_per_row(width)) == tiles,
{
    let wt = tiles_per_row(width);
    if s.x < width {
        let r = strip_step(tiles, s, n, fill_rule, paint, width, wt);
        assert forall|idx: int| 0 <= idx < tiles.len() implies r[idx] == tiles[idx] by {
            let xtile = idx - tile_row_start(s, wt);
            assert(xtile < 0);
            assert(strip_tile0(s) >= 0);
            assert(strip_end(s, n) >= 0);
            assert(fill_tile0(s, n) >= 0);
        }
        assert(r =~= tiles);
    }
}

/// Stopping at the first strip below the viewport loses nothing: when the strips are in
/// order of row and start on rows of strips (multiples of 4), and there are no more wide
/// tiles than the viewport has, generating the commands of the strips up to the stop
/// gives the same wide tiles as generating those of all strips.
pub proof fn lemma_stop_below_viewport_is_exact(
    tiles: Seq<WideTileView>,
    strips: Seq<Strip>,
    fill_rule: FillRule,
    paint: Paint,
    width: int,
    height: int,
)
    requires
        strips.len() > 0,
        0 <= width,
        0 <= height,
        tiles.len() <= tiles_per_row(width) * div_ceil(height, 4),
        forall|i: int, j: int| 0 <= i <= j < strips.len() ==> strips[i].y <= strips[j].y,
        forall|i: int| 0 <= i < strips.len() ==> (#[trigger] strips[i]).y % 4 == 0,
    ensures
        commands_upto(tiles, strips, generated_count(strips, width, height), fill_rule, paint, width)
            == commands_upto(tiles, strips, strips.len() - 1, fill_rule, paint, width),
{
    lemma_run_end_bounds(strips, width, height, 0);
    let count = generated_count(strips, width, height);
    let last = strips.len() - 1;
    if count < last {
        let stop = strips[count];
        assert(stop.y >= height);
        lemma_stop_tail(tiles, strips, fill_rule, paint, width, height, count, last);
    }
}

/// The strips from `count` to `k` change nothing (induction for the law above).
proof fn lemma_stop_tail(
    tiles: Seq<WideTileView>,
    strips: Seq<Strip>,
    fill_rule: FillRule,
    paint: Paint,
    width: int,
    height: int,
    count: int,
    k: int,
)
    requires
        0 <= count <= k <= strips.len() - 1,
        0 <= width,
        0 <= height,
        tiles.len() <= tiles_per_row(width) * div_ceil(height, 4),
        forall|i: int, j: int| 0 <= i <= j < strips.len() ==> strips[i].y <= strips[j].y,
        forall|i: int| 0 <= i < strips.len() ==> (#[trigger] strips[i]).y % 4 == 0,
        strips[count].y >= height,
    ensures
        commands_upto(tiles, strips, k, fill_rule, paint, width) == commands_upto(
            tiles,
            strips,
            count,
            fill_rule,
            paint,
            width,
        ),
    decreases k - count,
{
    if k > count {
        lemma_stop_tail(tiles, strips, fill_rule, paint, width, height, count, k - 1);
        let prev = commands_upto(tiles, strips, k - 1, fill_rule, paint, width);
        lemma_commands_upto_len(tiles, strips, k - 1, fill_rule, paint, width);
        let s = strips[k - 1];
        let wt = tiles_per_row(width);
        assert(s.y >= strips[count].y);
        assert(s.y % 4 == 0);
        let q = (s.y / 4) as int;
        assert(q * 4 == s.y);
        assert(q >= div_ceil(height, 4)) by (nonlinear_arith)
            requires q * 4 >= height, height >= 0;
        assert(q * wt >= div_ceil(height, 4) * wt) by (nonlinear_arith)
            requires q >= div_ceil(height, 4), wt >= 0;
        assert(div_ceil(height, 4) * wt == wt * div_ceil(height, 4)) by (nonlinear_arith);
        assert(tile_row_start(s, wt) == q * wt);
        assert(prev.len() == tiles.len());
        lemma_strip_step_past_tiles(prev, s, strips[k], fill_rule, paint, width);
    }
}


/// Strip command `c` of wide tile `idx` draws pixel columns of strip `s` (followed by
/// `n`) with their own masks: the tile lies in the strip's row of wide tiles, the
/// command's columns (pixel `p` on for `c.width` columns) lie inside the strip, and its
/// first mask is the strip's mask of pixel `p`, that is `s.col + (p - s.x)`.
pub open spec fn draws_strip_columns(c: CmdStrip, idx: int, s: Strip, n: Strip, wt: int) -> bool {
    let xtile = idx - tile_row_start(s, wt);
    let p = xtile * 256 + c.x;
    &&& 0 <= xtile < wt
    &&& c.x < 256
    &&& s.x <= p
    &&& p + c.width <= strip_end(s, n)
    &&& c.alpha_ix == s.col + (p - s.x)
}

/// Command `c` of wide tile `idx` comes from one of the first `i` strips that start
/// inside the viewport, and draws its columns with their own masks.
pub open spec fn traced_to_strip(c: CmdStrip, idx: int, strips: Seq<Strip>, i: int, width: int) -> bool {
    exists|j: int|
        0 <= j < i && strips[j].x < width && #[trigger] draws_strip_columns(
            c,
            idx,
            strips[j],
            strips[j + 1],
            tiles_per_row(width),
        )
}

proof fn lemma_strip_cmd_draws_its_columns(s: Strip, n: Strip, idx: int, paint: Paint, wt: int)
    requires
        strip_tile0(s) <= idx - tile_row_start(s, wt) < strip_tile1(s, n, wt),
    ensures
        draws_strip_columns(strip_cmd(s, n, idx - tile_row_start(s, wt), paint), idx, s, n, wt),
{
    let xtile = idx - tile_row_start(s, wt);
    let end = strip_end(s, n);
    let x = max(s.x as int, xtile * 256);
    assert(xtile * 256 <= s.x < xtile * 256 + 256 || s.x < xtile * 256);
    assert(end > xtile * 256);
    assert(x % 256 == x - xtile * 256);
    assert(min(end, (xtile + 1) * 256) - x <= 256);
    assert(s.col + (x - s.x) <= u32::MAX);
}

/// Every strip command that command generation adds draws pixel columns of a strip with
/// the masks of those columns: pixel column `p` of strip `s` always uses mask
/// `s.col + (p - s.x)`, whichever wide tile of the row the column falls into. Any other
/// strip command of a tile was there before.
pub proof fn lemma_strip_commands_use_their_columns_masks(
    t0: Seq<WideTileView>,
    strips: Seq<Strip>,
    i: int,
    fill_rule: FillRule,
    paint: Paint,
    width: int,
)
    requires
        0 <= i,
        i == 0 || i < strips.len(),
    ensures
        ({
            let r = commands_upto(t0, strips, i, fill_rule, paint, width);
            &&& r.len() == t0.len()
            &&& forall|idx: int, k: int|
                0 <= idx < r.len() && 0 <= k < r[idx].cmds.len() && #[trigger] r[idx].cmds[k] is Strip ==> t0[idx].cmds.contains(
                    r[idx].cmds[k],
                ) || traced_to_strip(r[idx].cmds[k]->Strip_0, idx, strips, i, width)
        }),
    decreases i,
{
    if i > 0 {
        lemma_strip_commands_use_their_columns_masks(t0, strips, i - 1, fill_rule, paint, width);
        let prev = commands_upto(t0, strips, i - 1, fill_rule, paint, width);
        let r = commands_upto(t0, strips, i, fill_rule, paint, width);
        let s = strips[i - 1];
        let n = strips[i];
        let wt = tiles_per_row(width);
        assert forall|idx: int, k: int|
            0 <= idx < r.len() && 0 <= k < r[idx].cmds.len() && #[trigger] r[idx].cmds[k] is Strip implies t0[idx].cmds.contains(
                r[idx].cmds[k],
            ) || traced_to_strip(r[idx].cmds[k]->Strip_0, idx, strips, i, width) by {
            let c = r[idx].cmds[k];
            let from_prev = k < prev[idx].cmds.len() && c == prev[idx].cmds[k];
            if s.x >= width {
                assert(from_prev);
            } else {
                let xtile = idx - tile_row_start(s, wt);
                let pushed = strip_tile0(s) <= xtile < strip_tile1(s, n, wt);
                assert(r[idx] == tile_step(prev[idx], idx, s, n, fill_rule, paint, wt));
                if !from_prev {
                    assert(pushed && c == Cmd::Strip(strip_cmd(s, n, xtile, paint)));
                    lemma_strip_cmd_draws_its_columns(s, n, idx, paint, wt);
                    assert(draws_strip_columns(c->Strip_0, idx, strips[i - 1], strips[i - 1 + 1], wt));
                }
            }
            if from_prev && !t0[idx].cmds.contains(c) {
                assert(prev[idx].cmds[k] is Strip);
                let j = choose|j: int|
                    0 <= j < i - 1 && strips[j].x < width && #[trigger] draws_strip_columns(
                        c->Strip_0,
                        idx,
                        strips[j],
                        strips[j + 1],
                        wt,
                    );
                assert(draws_strip_columns(c->Strip_0, idx, strips[j], strips[j + 1], wt));
            }
        }
    }
}


/// Every pixel column of a strip that starts inside the viewport, up to the right side of
/// the viewport, is drawn: the commands of the strip add to the wide tile of the column
/// a strip command that covers it and draws the strip's columns with their own masks
/// (so the column's mask is `s.col + (p - s.x)`).
pub proof fn lemma_strip_columns_all_drawn(
    tiles: Seq<WideTileView>,
    s: Strip,
    n: Strip,
    fill_rule: FillRule,
    paint: Paint,
    width: int,
    p: int,
)
    requires
        s.x < width,
        s.x <= p < strip_end(s, n),
        p < tiles_per_row(width) * 256,
        tile_row_start(s, tiles_per_row(width)) + p / 256 < tiles.len(),
    ensures
        ({
            let wt = tiles_per_row(width);
            let idx = tile_row_start(s, wt) + p / 256;
            let r = strip_step(tiles, s, n, fill_rule, paint, width, wt)[idx];
            exists|k: int|
                tiles[idx].cmds.len() <= k < r.cmds.len() && #[trigger] r.cmds[k] is Strip && ({
                    let c = r.cmds[k]->Strip_0;
                    &&& c.x <= p % 256 < c.x + c.width
                    &&& draws_strip_columns(c, idx, s, n, wt)
                })
        }),
{
    let wt = tiles_per_row(width);
    let xtile = p / 256;
    let idx = tile_row_start(s, wt) + xtile;
    let end = strip_end(s, n);
    assert(wt >= 1);
    assert(tile_row_start(s, wt) >= 0) by (nonlinear_arith)
        requires wt >= 1, tile_row_start(s, wt) == (s.y / 4) as int * wt;
    assert(xtile < div_ceil(end, 256));
    assert(xtile < wt);
    assert(strip_tile0(s) <= xtile);
    let prev = tiles[idx];
    let r = strip_step(tiles, s, n, fill_rule, paint, width, wt)[idx];
    assert(r == tile_step(prev, idx, s, n, fill_rule, paint, wt));
    let c = strip_cmd(s, n, xtile, paint);
    lemma_strip_cmd_draws_its_columns(s, n, idx, paint, wt);
    let k = prev.cmds.len() as int;
    if fills_gap(s, n, fill_rule) && fill_tile0(s, n) <= xtile < fill_tile1(n, wt) {
        assert(fill_start(s, n, xtile) == end);
        assert(end % 256 != 0);
    }
    assert(r.cmds[k] == Cmd::Strip(c));
    assert(c.x <= p % 256 < c.x + c.width);
}


/// The commands of strip `s` (followed by `n`) fill only the gap between them, and only
/// when the gap is inside the path: each fill they add to wide tile `idx` lies in the
/// strip's row of wide tiles, covers pixel columns from the end of the strip's columns
/// to the start of the next strip's, the next strip is in the same row of strips, and
/// its winding number counts as inside. When a fill replaces the tile, the gap covers
/// the whole tile and the paint is opaque; otherwise the tile keeps its commands and
/// gets new ones after them.
pub proof fn lemma_gap_fills_stay_in_the_gap(
    tiles: Seq<WideTileView>,
    s: Strip,
    n: Strip,
    fill_rule: FillRule,
    paint: Paint,
    width: int,
    idx: int,
)
    requires
        0 <= idx < tiles.len(),
        s.x < width ==> strip_fits(s, n, fill_rule, width, tiles.len() as int),
    ensures
        ({
            let wt = tiles_per_row(width);
            let xtile = idx - tile_row_start(s, wt);
            let t = tiles[idx];
            let r = strip_step(tiles, s, n, fill_rule, paint, width, wt)[idx];
            &&& r.x == t.x && r.y == t.y
            &&& forall|k: int|
                t.cmds.len() <= k < r.cmds.len() && #[trigger] r.cmds[k] is Fill ==> {
                    let f = r.cmds[k]->Fill_0;
                    let p = xtile * 256 + f.x;
                    &&& fill_rule.is_inside(n.winding as int) && s.y / 4 == n.y / 4
                    &&& 0 <= xtile < wt && f.x < 256
                    &&& strip_end(s, n) <= p && p + f.width <= n.x
                    &&& f.paint == paint
                }
            &&& (r.cmds.len() >= t.cmds.len() && r.bg == t.bg && r.cmds.subrange(0, t.cmds.len() as int) == t.cmds) || {
                &&& r.cmds.len() == 0
                &&& r.bg == solid_color(paint) && solid_color(paint).opaque
                &&& fill_rule.is_inside(n.winding as int) && s.y / 4 == n.y / 4
                &&& 0 <= xtile < wt
                &&& strip_end(s, n) <= xtile * 256 && (xtile + 1) * 256 <= n.x
            }
        }),
{
    let wt = tiles_per_row(width);
    let xtile = idx - tile_row_start(s, wt);
    let t = tiles[idx];
    let r = strip_step(tiles, s, n, fill_rule, paint, width, wt)[idx];
    if s.x < width {
        assert(r == tile_step(t, idx, s, n, fill_rule, paint, wt));
        let t1 = if strip_tile0(s) <= xtile < strip_tile1(s, n, wt) {
            WideTileView { cmds: t.cmds.push(Cmd::Strip(strip_cmd(s, n, xtile, paint))), ..t }
        } else {
            t
        };
        assert(t1.cmds.subrange(0, t.cmds.len() as int) =~= t.cmds);
        if fills_gap(s, n, fill_rule) && fill_tile0(s, n) <= xtile < fill_tile1(n, wt) {
            let end = strip_end(s, n);
            let fs = fill_start(s, n, xtile);
            assert(xtile * 256 <= fs < (xtile + 1) * 256);
            assert(fs % 256 == fs - xtile * 256);
            assert(xtile * 256 < n.x);
            assert(fill_width(s, n, xtile) >= 0);
            assert(fill_width(s, n, xtile) <= 256);
            if !fill_replaces_tile((fs % 256) as u32, fill_width(s, n, xtile) as u32, paint) {
                assert(r.cmds == t1.cmds.push(r.cmds.last()));
                assert(r.cmds.subrange(0, t.cmds.len() as int) =~= t.cmds);
                assert forall|k: int| t.cmds.len() <= k < r.cmds.len() && #[trigger] r.cmds[k] is Fill implies {
                    let f = r.cmds[k]->Fill_0;
                    let p = xtile * 256 + f.x;
                    &&& fill_rule.is_inside(n.winding as int) && s.y / 4 == n.y / 4
                    &&& 0 <= xtile < wt && f.x < 256
                    &&& strip_end(s, n) <= p && p + f.width <= n.x
                    &&& f.paint == paint
                } by {
                    if k < t1.cmds.len() {
                        assert(k == t.cmds.len() && t1.cmds[k] is Strip);
                    }
                }
            }
        } else {
            assert(r == t1);
        }
    }
}

} // verus!
