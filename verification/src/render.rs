//! The render context: the wide tiles of the viewport with their commands, and the
//! buffers that path rendering fills.

use vstd::prelude::*;
use crate::fine::{
    byte_col, byte_row, cleared, cmd_fits, cmd_result, in_tile, pack_base, pack_cols, pack_fits, pack_rows,
    packed,
    tile_byte, columns, filled, splice, Fine,
};
use crate::paint::{Paint, SolidColor};
use crate::pixmap::Pixmap;
use crate::strip::{lemma_strip_cols_in_alphas, pass_ok, pass_upto, Strip, Tile};
use crate::fine::compose::{
    fill_result, lemma_opaque_src_over_is_copy, lemma_premultiplied_fill_fits, lemma_src_over_keeps_premultiplied,
    lemma_strip_keeps_premultiplied, pixels_premultiplied, premultiplied, strip_result, Compose,
};
use crate::wide_tile::{
    fill_replaces_tile, solid_color, fill_start, fill_tile0, fill_tile1, fill_width, fills_gap, max, min,
    strip_cmd, strip_end, strip_step, strip_tile0, strip_tile1, tile_after_fill, tile_row_start,
    tile_step, CmdFill, commands_upto, lemma_run_end_bounds, div_ceil, div_ceil_usize, generate_commands, generated_count, strip_fits,
    tile_views, tiles_per_row, WideTile, WideTileView, STRIP_HEIGHT, WIDE_TILE_WIDTH,
};
use crate::dispatcher::ExecutionMode;
use crate::FillRule;

verus! {

/// The number of rows of wide tiles in a viewport `height` pixels high.
pub open spec fn tiles_per_column(height: int) -> int {
    div_ceil(height, 4)
}

/// The scratch buffer of a wide tile after its first `n` commands, over its background.
pub open spec fn scratch_after(bg: Seq<u8>, cmds: Seq<Cmd>, alphas: Seq<u32>, n: int) -> Seq<u8>
    decreases n,
{
    if n <= 0 {
        cleared(bg)
    } else {
        cmd_result(scratch_after(bg, cmds, alphas, n - 1), cmds[n - 1], alphas)
    }
}

/// The pixels of a wide tile: its background with all of its commands drawn over it.
pub open spec fn tile_pixels(t: WideTileView, alphas: Seq<u32>) -> Seq<u8> {
    scratch_after(t.bg.premul@, t.cmds, alphas, t.cmds.len() as int)
}

/// The pixmap buffer after the first `n` wide tiles (row by row) are packed into it.
pub open spec fn rendered(
    buf: Seq<u8>,
    tiles: Seq<WideTileView>,
    alphas: Seq<u32>,
    wt: int,
    pw: int,
    ph: int,
    n: int,
) -> Seq<u8>
    decreases n,
{
    if n <= 0 {
        buf
    } else {
        packed(
            rendered(buf, tiles, alphas, wt, pw, ph, n - 1),
            tile_pixels(tiles[n - 1], alphas),
            pw,
            ph,
            (n - 1) % wt,
            (n - 1) / wt,
        )
    }
}

use crate::wide_tile::Cmd;

/// The wide tile column and row that byte `p` of a `width`-pixel-wide pixmap lies in.
pub open spec fn byte_tile_x(p: int, width: int) -> int {
    byte_col(p, width) / 256
}

pub open spec fn byte_tile_y(p: int, width: int) -> int {
    byte_row(p, width) / 4
}

/// A byte that lies in wide tile (x, y) lies in no other.
proof fn lemma_in_tile_unique(p: int, width: int, height: int, x: int, y: int)
    requires
        0 <= p,
        in_tile(p, width, height, x, y),
    ensures
        x == byte_tile_x(p, width),
        y == byte_tile_y(p, width),
{
    let c = byte_col(p, width);
    let r = byte_row(p, width);
    assert(pack_cols(width, x) <= 256);
    assert(pack_rows(height, y) <= 4);
    assert(c / 256 == x) by (nonlinear_arith)
        requires x * 256 <= c < x * 256 + 256;
    assert(r / 4 == y) by (nonlinear_arith)
        requires y * 4 <= r < y * 4 + 4;
}

/// The scratch byte that a byte of wide tile (x, y) is packed from lies in the scratch
/// buffer.
proof fn lemma_tile_byte_index(p: int, width: int, height: int, x: int, y: int)
    requires
        0 <= p,
        in_tile(p, width, height, x, y),
    ensures
        0 <= ((byte_col(p, width) - x * 256) * 4 + (byte_row(p, width) - y * 4)) * 4 + p % 4 < 4096,
{
    let c = byte_col(p, width) - x * 256;
    let r = byte_row(p, width) - y * 4;
    assert(pack_cols(width, x) <= 256);
    assert(pack_rows(height, y) <= 4);
    assert(0 <= (c * 4 + r) * 4 + p % 4 < 4096) by (nonlinear_arith)
        requires 0 <= c < 256, 0 <= r < 4, 0 <= p % 4 < 4;
}

/// Rendering keeps the length of the pixmap buffer.
pub proof fn lemma_rendered_len(
    buf: Seq<u8>,
    tiles: Seq<WideTileView>,
    alphas: Seq<u32>,
    wt: int,
    pw: int,
    ph: int,
    n: int,
)
    ensures
        rendered(buf, tiles, alphas, wt, pw, ph, n).len() == buf.len(),
    decreases n,
{
    if n > 0 {
        lemma_rendered_len(buf, tiles, alphas, wt, pw, ph, n - 1);
    }
}

/// What rendering leaves in each byte of the pixmap: a byte inside one of the first `n`
/// wide tiles (row by row, `wt` to a row) holds that tile's pixel, every other byte
/// keeps its value.
pub proof fn lemma_rendered_byte(
    buf: Seq<u8>,
    tiles: Seq<WideTileView>,
    alphas: Seq<u32>,
    wt: int,
    pw: int,
    ph: int,
    n: int,
    p: int,
)
    requires
        0 <= p < buf.len(),
        wt > 0,
    ensures
        rendered(buf, tiles, alphas, wt, pw, ph, n).len() == buf.len(),
        rendered(buf, tiles, alphas, wt, pw, ph, n)[p] == ({
            let x = byte_tile_x(p, pw);
            let y = byte_tile_y(p, pw);
            if in_tile(p, pw, ph, x, y) && x < wt && y * wt + x < n {
                tile_byte(tile_pixels(tiles[y * wt + x], alphas), p, pw, x, y)
            } else {
                buf[p]
            }
        }),
    decreases n,
{
    if n > 0 {
        lemma_rendered_byte(buf, tiles, alphas, wt, pw, ph, n - 1, p);
        let x = byte_tile_x(p, pw);
        let y = byte_tile_y(p, pw);
        let a = (n - 1) % wt;
        let b = (n - 1) / wt;
        if in_tile(p, pw, ph, a, b) {
            lemma_in_tile_unique(p, pw, ph, a, b);
            assert(y * wt + x == n - 1 && x < wt) by (nonlinear_arith)
                requires a == (n - 1) % wt, b == (n - 1) / wt, x == a, y == b, wt > 0;
        } else if in_tile(p, pw, ph, x, y) && x < wt && y * wt + x == n - 1 {
            assert(a == x && b == y) by (nonlinear_arith)
                requires a == (n - 1) % wt, b == (n - 1) / wt, y * wt + x == n - 1, 0 <= x < wt;
        }
    }
}

/// Every wide tile of a `width` x `height` context can be packed into a well-formed
/// pixmap of the same size.
pub proof fn lemma_same_size_pixmap_fits(out_len: int, width: int, height: int, x: int, y: int)
    requires
        out_len == width * height * 4,
        out_len <= usize::MAX,
        0 <= x < tiles_per_row(width),
        0 <= y < tiles_per_column(height),
    ensures
        pack_fits(out_len, width, height, x, y),
{
    assert(x * 256 < width) by (nonlinear_arith)
        requires 0 <= x, x < (width + 255) / 256;
    assert(y * 4 < height) by (nonlinear_arith)
        requires 0 <= y, y < (height + 3) / 4;
    let rows = pack_rows(height, y);
    let cols = pack_cols(width, x);
    assert(1 <= rows <= 4 && rows <= height - y * 4);
    assert(1 <= cols <= 256 && cols <= width - x * 256);
    assert((y * 4 * width + x * 256) + (rows - 1) * width + cols <= width * height) by (nonlinear_arith)
        requires
            y * 4 + rows <= height,
            x * 256 + cols <= width,
            rows >= 1,
            y >= 0,
            width >= 0;
    assert(pack_base(width, x, y) + ((rows - 1) * width + cols) * 4 <= out_len);
    assert(pack_base(width, x, y) <= out_len) by (nonlinear_arith)
        requires
            pack_base(width, x, y) + ((rows - 1) * width + cols) * 4 <= out_len,
            rows >= 1,
            cols >= 1,
            width >= 0;
}

/// Every command of every wide tile can run against `n_alphas` coverage masks.
pub open spec fn all_cmds_fit(tiles: Seq<WideTileView>, n_alphas: int) -> bool {
    forall|t: int, k: int|
        0 <= t < tiles.len() && 0 <= k < tiles[t].cmds.len() ==> cmd_fits(
            #[trigger] tiles[t].cmds[k],
            n_alphas,
        )
}

/// The commands that one strip adds to one wide tile can run.
proof fn lemma_tile_step_fits(
    t: WideTileView,
    idx: int,
    s: Strip,
    n: Strip,
    fill_rule: FillRule,
    paint: Paint,
    width: int,
    n_tiles: int,
    n_alphas: int,
)
    requires
        forall|k: int| 0 <= k < t.cmds.len() ==> cmd_fits(#[trigger] t.cmds[k], n_alphas),
        premultiplied(paint.premul()),
        strip_fits(s, n, fill_rule, width, n_tiles),
        s.col <= n_alphas,
        n.col <= n_alphas,
    ensures
        ({
            let r = tile_step(t, idx, s, n, fill_rule, paint, tiles_per_row(width));
            forall|k: int| 0 <= k < r.cmds.len() ==> cmd_fits(#[trigger] r.cmds[k], n_alphas)
        }),
{
    let wt = tiles_per_row(width);
    let xtile = idx - tile_row_start(s, wt);
    let end = strip_end(s, n);
    let t1 = if strip_tile0(s) <= xtile < strip_tile1(s, n, wt) {
        WideTileView { cmds: t.cmds.push(Cmd::Strip(strip_cmd(s, n, xtile, paint))), ..t }
    } else {
        t
    };
    if strip_tile0(s) <= xtile < strip_tile1(s, n, wt) {
        let c = strip_cmd(s, n, xtile, paint);
        let x = max(s.x as int, xtile * 256);
        assert(xtile * 256 <= x < xtile * 256 + 256) by (nonlinear_arith)
            requires
                x == max(s.x as int, xtile * 256),
                s.x / 256 <= xtile,
                s.x >= 0;
        assert(x % 256 == x - xtile * 256) by (nonlinear_arith)
            requires xtile * 256 <= x < xtile * 256 + 256;
        assert(xtile * 256 < end) by (nonlinear_arith)
            requires xtile < (end + 255) / 256, end >= 0;
        assert(x <= end);
        let w = min(end, (xtile + 1) * 256) - x;
        assert(0 <= w <= 256 - (x - xtile * 256));
        assert(c.x == x - xtile * 256);
        assert(c.width == w);
        assert(c.alpha_ix == s.col + (x - s.x));
        assert(c.alpha_ix + c.width <= n_alphas);
        assert(cmd_fits(Cmd::Strip(c), n_alphas));
        assert forall|k: int| 0 <= k < t1.cmds.len() implies cmd_fits(#[trigger] t1.cmds[k], n_alphas) by {
            if k < t.cmds.len() {
                assert(t1.cmds[k] == t.cmds[k]);
            }
        }
    }
    if fills_gap(s, n, fill_rule) && fill_tile0(s, n) <= xtile < fill_tile1(n, wt) {
        let fs = fill_start(s, n, xtile);
        let fw = fill_width(s, n, xtile);
        assert(xtile * 256 <= fs < xtile * 256 + 256) by (nonlinear_arith)
            requires
                fs == max(end, xtile * 256),
                end / 256 <= xtile,
                end >= 0;
        assert(fs % 256 == fs - xtile * 256) by (nonlinear_arith)
            requires xtile * 256 <= fs < xtile * 256 + 256;
        assert(xtile * 256 < n.x) by (nonlinear_arith)
            requires xtile < (n.x + 255) / 256, n.x >= 0;
        assert(xtile < wt);
        assert(0 <= fw <= 256 - (fs - xtile * 256));
        let r = tile_step(t, idx, s, n, fill_rule, paint, wt);
        assert(r == tile_after_fill(t1, (fs % 256) as u32, fw as u32, paint));
        if !fill_replaces_tile((fs % 256) as u32, fw as u32, paint) {
            assert(cmd_fits(Cmd::Fill(CmdFill { x: (fs % 256) as u32, width: fw as u32, paint }), n_alphas));
            assert forall|k: int| 0 <= k < r.cmds.len() implies cmd_fits(#[trigger] r.cmds[k], n_alphas) by {
                if k < t1.cmds.len() {
                    assert(r.cmds[k] == t1.cmds[k]);
                }
            }
        }
    }
}

/// The commands that strips generate can run: when the existing commands can, the paint
/// is premultiplied, and the coverage masks of each generated strip (up to those of the
/// strip after it) lie among the `n_alphas` masks, every command of every wide tile can
/// run after the first `i` strips.
pub proof fn lemma_generated_cmds_fit(
    tiles: Seq<WideTileView>,
    strips: Seq<Strip>,
    i: int,
    fill_rule: FillRule,
    paint: Paint,
    width: int,
    n_alphas: int,
)
    requires
        all_cmds_fit(tiles, n_alphas),
        premultiplied(paint.premul()),
        i < strips.len(),
        forall|j: int|
            0 <= j < i && strips[j].x < width ==> {
                &&& strip_fits(#[trigger] strips[j], strips[j + 1], fill_rule, width, tiles.len() as int)
                &&& strips[j].col <= n_alphas
                &&& strips[j + 1].col <= n_alphas
            },
    ensures
        commands_upto(tiles, strips, i, fill_rule, paint, width).len() == tiles.len(),
        all_cmds_fit(commands_upto(tiles, strips, i, fill_rule, paint, width), n_alphas),
    decreases i,
{
    if i > 0 {
        lemma_generated_cmds_fit(tiles, strips, i - 1, fill_rule, paint, width, n_alphas);
        let prev = commands_upto(tiles, strips, i - 1, fill_rule, paint, width);
        let s = strips[i - 1];
        let n = strips[i];
        let r = commands_upto(tiles, strips, i, fill_rule, paint, width);
        assert(r == strip_step(prev, s, n, fill_rule, paint, width, tiles_per_row(width)));
        if s.x < width {
            assert forall|t: int, k: int|
                0 <= t < r.len() && 0 <= k < r[t].cmds.len() implies cmd_fits(#[trigger] r[t].cmds[k], n_alphas) by {
                assert forall|k2: int| 0 <= k2 < prev[t].cmds.len() implies cmd_fits(#[trigger] prev[t].cmds[k2], n_alphas) by {
                }
                lemma_tile_step_fits(prev[t], t, s, n, fill_rule, paint, width, tiles.len() as int, n_alphas);
                assert(r[t] == tile_step(prev[t], t, s, n, fill_rule, paint, tiles_per_row(width)));
            }
        }
    }
}

/// The commands that a path generates can run: when the strips come from an
/// overflow-free strip pass over tiles, every strip whose commands are generated fits
/// the wide tiles, the paint is premultiplied and the existing commands can run against
/// the masks before the pass, then every command of every wide tile can run against the
/// masks after it.
pub proof fn lemma_path_cmds_fit(
    tiles: Seq<WideTileView>,
    path_tiles: Seq<Tile>,
    base: int,
    fill_rule: FillRule,
    paint: Paint,
    width: int,
    height: int,
)
    requires
        pass_ok(path_tiles, base),
        all_cmds_fit(tiles, base),
        premultiplied(paint.premul()),
        ({
            let strips = pass_upto(path_tiles, path_tiles.len() as int, base).strips;
            forall|i: int|
                0 <= i < generated_count(strips, width, height) && strips[i].x < width ==> strip_fits(
                    #[trigger] strips[i],
                    strips[i + 1],
                    fill_rule,
                    width,
                    tiles.len() as int,
                )
        }),
    ensures
        ({
            let p = pass_upto(path_tiles, path_tiles.len() as int, base);
            all_cmds_fit(
                commands_upto(tiles, p.strips, generated_count(p.strips, width, height), fill_rule, paint, width),
                base + p.columns.len(),
            )
        }),
{
    let p = pass_upto(path_tiles, path_tiles.len() as int, base);
    let n_alphas = base + p.columns.len();
    lemma_strip_cols_in_alphas(path_tiles, base);
    assert(all_cmds_fit(tiles, n_alphas));
    if p.strips.len() == 0 {
        assert(generated_count(p.strips, width, height) == 0);
    } else {
        lemma_run_end_bounds(p.strips, width, height, 0);
        let count = generated_count(p.strips, width, height);
        lemma_generated_cmds_fit(tiles, p.strips, count, fill_rule, paint, width, n_alphas);
    }
}

/// Running commands that lie inside the wide tile keeps the scratch buffer's size.
proof fn lemma_scratch_len(bg: Seq<u8>, cmds: Seq<Cmd>, alphas: Seq<u32>, n: int)
    requires
        forall|k: int| 0 <= k < cmds.len() ==> cmd_fits(#[trigger] cmds[k], alphas.len() as int),
        n <= cmds.len(),
    ensures
        scratch_after(bg, cmds, alphas, n).len() == 4096,
    decreases n,
{
    if n > 0 {
        lemma_scratch_len(bg, cmds, alphas, n - 1);
        let c = cmds[n - 1];
        assert(cmd_fits(c, alphas.len() as int));
    }
}

/// An opaque fill of the whole wide tile hides everything drawn before it: a tile that
/// takes the fill's color as its background and drops its commands renders the same
/// pixels as the tile with the fill drawn over its commands. This is why
/// `WideTile::fill` may replace the tile instead of adding the command.
pub proof fn lemma_opaque_full_fill_replaces(t: WideTileView, paint: Paint, alphas: Seq<u32>)
    requires
        forall|k: int| 0 <= k < t.cmds.len() ==> cmd_fits(#[trigger] t.cmds[k], alphas.len() as int),
        paint.premul()[3] == 255,
    ensures
        tile_pixels(WideTileView { bg: solid_color(paint), cmds: Seq::empty(), ..t }, alphas) == tile_pixels(
            WideTileView {
                cmds: t.cmds.push(Cmd::Fill(CmdFill { x: 0, width: 256, paint })),
                ..t
            },
            alphas,
        ),
{
    let cmd = Cmd::Fill(CmdFill { x: 0, width: 256, paint });
    let t2 = WideTileView { cmds: t.cmds.push(cmd), ..t };
    let n = t.cmds.len() as int;
    let before = scratch_after(t.bg.premul@, t.cmds, alphas, n);
    lemma_scratch_prefix(t.bg.premul@, t.cmds, t2.cmds, alphas, n);
    lemma_scratch_len(t.bg.premul@, t.cmds, alphas, n);
    let cs = paint.premul();
    assert(cs.len() == 4);
    let cols = columns(before, 0, 256);
    assert(cols =~= before);
    lemma_opaque_src_over_is_copy(cols, cs);
    let after = filled(before, 0, 256, paint, Compose::SrcOver);
    assert(after =~= cleared(cs));
    assert(solid_color(paint).premul@ == cs);
}

/// A fill of a wide tile renders as drawing the fill command over the tile: whether
/// `WideTile::fill` adds the command or replaces the tile, the tile's pixels are those
/// of the tile with `Fill { x, width, paint }` added to its commands. So the pixels
/// outside the columns [x, x + width) are never touched by a fill. An opaque color's
/// premultiplied alpha is 255.
pub proof fn lemma_fill_renders_as_its_command(t: WideTileView, x: u32, width: u32, paint: Paint, alphas: Seq<u32>)
    requires
        forall|k: int| 0 <= k < t.cmds.len() ==> cmd_fits(#[trigger] t.cmds[k], alphas.len() as int),
        solid_color(paint).opaque ==> paint.premul()[3] == 255,
    ensures
        tile_pixels(tile_after_fill(t, x, width, paint), alphas) == tile_pixels(
            WideTileView { cmds: t.cmds.push(Cmd::Fill(CmdFill { x, width, paint })), ..t },
            alphas,
        ),
{
    if fill_replaces_tile(x, width, paint) {
        lemma_opaque_full_fill_replaces(t, paint, alphas);
    }
}

/// Running a sequence of commands with more commands after them gives, after the first
/// `n`, what running the first `n` alone gives.
proof fn lemma_scratch_prefix(bg: Seq<u8>, a: Seq<Cmd>, b: Seq<Cmd>, alphas: Seq<u32>, n: int)
    requires
        n <= a.len(),
        n <= b.len(),
        forall|k: int| 0 <= k < n ==> a[k] == b[k],
    ensures
        scratch_after(bg, a, alphas, n) == scratch_after(bg, b, alphas, n),
    decreases n,
{
    if n > 0 {
        lemma_scratch_prefix(bg, a, b, alphas, n - 1);
    }
}

/// Bytes [a, b) of premultiplied pixels, cut at a pixel boundary, are premultiplied.
proof fn lemma_subrange_premultiplied(buf: Seq<u8>, a: int, b: int)
    requires
        pixels_premultiplied(buf),
        0 <= a <= b <= buf.len(),
        a % 4 == 0,
    ensures
        pixels_premultiplied(buf.subrange(a, b)),
{
    let s = buf.subrange(a, b);
    assert forall|k: int| 0 <= k < s.len() / 4 * 4 && k % 4 < 3 implies #[trigger] s[k] <= s[k - k % 4 + 3] by {
        assert((a + k) % 4 == k % 4 && a + k - (a + k) % 4 + 3 == a + (k - k % 4 + 3)) by (nonlinear_arith)
            requires a % 4 == 0, 0 <= k;
        assert(k - k % 4 + 3 < s.len()) by (nonlinear_arith)
            requires 0 <= k < s.len() / 4 * 4, s.len() >= 0;
        assert(a + k < buf.len() / 4 * 4) by (nonlinear_arith)
            requires a % 4 == 0, 0 <= k, k - k % 4 + 3 < b - a, b <= buf.len(), 0 <= a;
    }
}

/// Splicing premultiplied pixels into premultiplied pixels at a pixel boundary keeps
/// them premultiplied.
proof fn lemma_splice_premultiplied(buf: Seq<u8>, start: int, part: Seq<u8>)
    requires
        pixels_premultiplied(buf),
        pixels_premultiplied(part),
        0 <= start,
        start % 4 == 0,
        part.len() % 4 == 0,
        start + part.len() <= buf.len(),
    ensures
        pixels_premultiplied(splice(buf, start, part)),
        splice(buf, start, part).len() == buf.len(),
{
    let r = splice(buf, start, part);
    let e = start + part.len();
    assert(r.len() == buf.len());
    assert forall|k: int| 0 <= k < r.len() / 4 * 4 && k % 4 < 3 implies #[trigger] r[k] <= r[k - k % 4 + 3] by {
        let ka = k - k % 4 + 3;
        assert(ka < r.len() / 4 * 4) by (nonlinear_arith)
            requires 0 <= k < r.len() / 4 * 4, ka == k - k % 4 + 3;
        assert((k < start <==> ka < start) && (k < e <==> ka < e)) by (nonlinear_arith)
            requires start % 4 == 0, e % 4 == 0, ka == k - k % 4 + 3, 0 <= k, e == start + part.len();
        if k < start {
            assert(r[k] == buf[k] && r[ka] == buf[ka]);
        } else if k < e {
            let j = k - start;
            assert(r[k] == part[j] && r[ka] == part[ka - start]);
            assert(j % 4 == k % 4 && ka - start == j - j % 4 + 3) by (nonlinear_arith)
                requires start % 4 == 0, j == k - start, ka == k - k % 4 + 3, 0 <= j;
            assert(j < part.len() / 4 * 4) by (nonlinear_arith)
                requires part.len() % 4 == 0, 0 <= j < part.len();
        } else {
            assert(r[k] == buf[k] && r[ka] == buf[ka]);
        }
    }
}

/// A command with a premultiplied color keeps the scratch buffer premultiplied.
proof fn lemma_cmd_keeps_premultiplied(scratch: Seq<u8>, cmd: Cmd, alphas: Seq<u32>)
    requires
        scratch.len() == 4096,
        pixels_premultiplied(scratch),
        cmd_fits(cmd, alphas.len() as int),
    ensures
        pixels_premultiplied(cmd_result(scratch, cmd, alphas)),
{
    match cmd {
        Cmd::Fill(f) => {
            let cols = columns(scratch, f.x as int, f.width as int);
            lemma_subrange_premultiplied(scratch, f.x * 16, (f.x + f.width) * 16);
            lemma_premultiplied_fill_fits(Compose::SrcOver, cols, f.paint.premul());
            lemma_src_over_keeps_premultiplied(cols, f.paint.premul());
            let part = fill_result(Compose::SrcOver, cols, f.paint.premul());
            assert(part.len() == f.width * 16);
            lemma_splice_premultiplied(scratch, f.x * 16, part);
        },
        Cmd::Strip(st) => {
            let cols = columns(scratch, st.x as int, st.width as int);
            lemma_subrange_premultiplied(scratch, st.x * 16, (st.x + st.width) * 16);
            let masks = alphas.subrange(st.alpha_ix as int, alphas.len() as int);
            lemma_strip_keeps_premultiplied(cols, st.paint.premul(), masks);
            let part = strip_result(cols, st.paint.premul(), masks);
            assert(part.len() == st.width * 16);
            lemma_splice_premultiplied(scratch, st.x * 16, part);
        },
    }
}

/// Drawing commands with premultiplied colors over a premultiplied background leaves a
/// premultiplied scratch buffer.
proof fn lemma_scratch_premultiplied(bg: Seq<u8>, cmds: Seq<Cmd>, alphas: Seq<u32>, n: int)
    requires
        premultiplied(bg),
        forall|k: int| 0 <= k < cmds.len() ==> cmd_fits(#[trigger] cmds[k], alphas.len() as int),
        n <= cmds.len(),
    ensures
        pixels_premultiplied(scratch_after(bg, cmds, alphas, n)),
    decreases n,
{
    if n <= 0 {
        let c = cleared(bg);
        assert forall|k: int| 0 <= k < c.len() / 4 * 4 && k % 4 < 3 implies #[trigger] c[k] <= c[k - k % 4 + 3] by {
            assert((k - k % 4 + 3) % 4 == 3) by (nonlinear_arith)
                requires 0 <= k;
            assert(0 <= k % 4 < 3);
        }
    } else {
        lemma_scratch_premultiplied(bg, cmds, alphas, n - 1);
        lemma_scratch_len(bg, cmds, alphas, n - 1);
        assert(cmd_fits(cmds[n - 1], alphas.len() as int));
        lemma_cmd_keeps_premultiplied(scratch_after(bg, cmds, alphas, n - 1), cmds[n - 1], alphas);
    }
}

/// Rendering keeps a pixmap premultiplied: when the pixmap's pixels are premultiplied,
/// and every wide tile has a premultiplied background and commands with premultiplied
/// colors that can run, every pixel of the rendered pixmap is premultiplied.
pub proof fn lemma_rendered_premultiplied(
    buf: Seq<u8>,
    tiles: Seq<WideTileView>,
    alphas: Seq<u32>,
    wt: int,
    pw: int,
    ph: int,
    n: int,
)
    requires
        pixels_premultiplied(buf),
        wt > 0,
        0 <= n <= tiles.len(),
        forall|t: int| 0 <= t < n ==> premultiplied((#[trigger] tiles[t]).bg.premul@),
        forall|t: int, k: int|
            0 <= t < n && 0 <= k < tiles[t].cmds.len() ==> cmd_fits(#[trigger] tiles[t].cmds[k], alphas.len() as int),
    ensures
        pixels_premultiplied(rendered(buf, tiles, alphas, wt, pw, ph, n)),
{
    let r = rendered(buf, tiles, alphas, wt, pw, ph, n);
    lemma_rendered_len(buf, tiles, alphas, wt, pw, ph, n);
    assert forall|k: int| 0 <= k < r.len() / 4 * 4 && k % 4 < 3 implies #[trigger] r[k] <= r[k - k % 4 + 3] by {
        let ka = k - k % 4 + 3;
        assert(ka < r.len() / 4 * 4) by (nonlinear_arith)
            requires 0 <= k < r.len() / 4 * 4, ka == k - k % 4 + 3;
        assert(ka / 4 == k / 4 && ka % 4 == 3) by (nonlinear_arith)
            requires ka == k - k % 4 + 3, 0 <= k;
        lemma_rendered_byte(buf, tiles, alphas, wt, pw, ph, n, k);
        lemma_rendered_byte(buf, tiles, alphas, wt, pw, ph, n, ka);
        let x = byte_tile_x(k, pw);
        let y = byte_tile_y(k, pw);
        assert(byte_col(ka, pw) == byte_col(k, pw) && byte_row(ka, pw) == byte_row(k, pw));
        if in_tile(k, pw, ph, x, y) && x < wt && y * wt + x < n {
            assert(0 <= y * wt + x) by (nonlinear_arith)
                requires 0 <= x, 0 <= y, wt > 0;
            let t = tiles[y * wt + x];
            lemma_scratch_premultiplied(t.bg.premul@, t.cmds, alphas, t.cmds.len() as int);
            lemma_tile_byte_index(k, pw, ph, x, y);
            lemma_tile_byte_index(ka, pw, ph, x, y);
            let base = ((byte_col(k, pw) - x * 256) * 4 + (byte_row(k, pw) - y * 4)) * 4;
            let sc = tile_pixels(t, alphas);
            assert(base % 4 == 0) by (nonlinear_arith)
                requires base == ((byte_col(k, pw) - x * 256) * 4 + (byte_row(k, pw) - y * 4)) * 4;
            lemma_scratch_len(t.bg.premul@, t.cmds, alphas, t.cmds.len() as int);
            assert((base + k % 4) - (base + k % 4) % 4 + 3 == base + 3) by (nonlinear_arith)
                requires base % 4 == 0, 0 <= k % 4 < 3, base >= 0;
            assert(base + 3 < sc.len() / 4 * 4);
            assert(sc[base + k % 4] <= sc[base + 3]);
        }
    }
}

/// A wide tile with a transparent background and no commands.
pub open spec fn is_blank(t: WideTileView) -> bool {
    t.bg == SolidColor::spec_transparent() && t.cmds.len() == 0
}

/// Every byte is zero.
pub open spec fn all_zero(b: Seq<u8>) -> bool {
    forall|i: int| 0 <= i < b.len() ==> #[trigger] b[i] == 0
}

/// Rendering blank wide tiles (a new or reset context) into a transparent pixmap leaves
/// it transparent.
pub proof fn lemma_blank_tiles_render_transparent(
    buf: Seq<u8>,
    tiles: Seq<WideTileView>,
    alphas: Seq<u32>,
    wt: int,
    pw: int,
    ph: int,
    n: int,
)
    requires
        all_zero(buf),
        forall|t: int| 0 <= t < n ==> is_blank(#[trigger] tiles[t]),
        wt > 0,
    ensures
        rendered(buf, tiles, alphas, wt, pw, ph, n).len() == buf.len(),
        all_zero(rendered(buf, tiles, alphas, wt, pw, ph, n)),
{
    let r = rendered(buf, tiles, alphas, wt, pw, ph, n);
    lemma_rendered_len(buf, tiles, alphas, wt, pw, ph, n);
    assert forall|p: int| 0 <= p < r.len() implies #[trigger] r[p] == 0 by {
        lemma_rendered_byte(buf, tiles, alphas, wt, pw, ph, n, p);
        let x = byte_tile_x(p, pw);
        let y = byte_tile_y(p, pw);
        if in_tile(p, pw, ph, x, y) && x < wt && y * wt + x < n {
            assert(0 <= y * wt + x) by (nonlinear_arith)
                requires 0 <= x, 0 <= y, wt > 0;
            let t = tiles[y * wt + x];
            assert(is_blank(t));
            assert(t.bg.premul@ == seq![0u8, 0u8, 0u8, 0u8]);
            lemma_tile_byte_index(p, pw, ph, x, y);
        }
    }
}

/// Whether a command can run against `n_alphas` coverage masks (see `cmd_fits`).
pub fn cmd_fits_exec(cmd: &Cmd, n_alphas: usize) -> (r: bool)
    ensures
        r == cmd_fits(*cmd, n_alphas as int),
{
    match cmd {
        Cmd::Fill(f) => {
            let Paint::Solid(c) = f.paint;
            f.x as u64 + f.width as u64 <= 256 && c.premul[0] <= c.premul[3] && c.premul[1] <= c.premul[3]
                && c.premul[2] <= c.premul[3]
        },
        Cmd::Strip(st) => {
            let Paint::Solid(c) = st.paint;
            st.x as u64 + st.width as u64 <= 256 && c.premul[0] <= c.premul[3] && c.premul[1] <= c.premul[3]
                && c.premul[2] <= c.premul[3] && st.alpha_ix as u128 + st.width as u128 <= n_alphas as u128
        },
    }
}

/// Whether wide tile (x, y) can be packed into a pixmap buffer of `out_len` bytes that
/// is `width` x `height` pixels (see `pack_fits`).
pub fn pack_fits_exec(out_len: usize, width: usize, height: usize, x: usize, y: usize) -> (r: bool)
    ensures
        r == pack_fits(out_len as int, width as int, height as int, x as int, y as int),
{
    let w = width as u128;
    let h = height as u128;
    let xx = x as u128;
    let yy = y as u128;
    if yy * 4 > h || xx * 256 > w {
        return false;
    }
    let rows: u128 = if h - yy * 4 < 4 { h - yy * 4 } else { 4 };
    let cols: u128 = if w - xx * 256 < 256 { w - xx * 256 } else { 256 };
    proof {
        assert(yy * 4 * w <= 0xffff_ffff_ffff_ffff * 0xffff_ffff_ffff_ffff) by (nonlinear_arith)
            requires yy * 4 <= h, h <= 0xffff_ffff_ffff_ffff, w <= 0xffff_ffff_ffff_ffff;
    }
    let q: u128 = yy * 4 * w + xx * 256;
    if q > (usize::MAX as u128) / 4 {
        return false;
    }
    let base: u128 = q * 4;
    proof {
        assert(rows * w <= 4 * 0xffff_ffff_ffff_ffff) by (nonlinear_arith)
            requires rows <= 4, w <= 0xffff_ffff_ffff_ffff;
        if rows >= 1 {
            assert((rows - 1) * w <= rows * w) by (nonlinear_arith)
                requires rows >= 1, w >= 0;
        }
    }
    rows == 0 || base + ((rows - 1) * w + cols) * 4 <= out_len as u128
}

pub struct RenderContext {
    pub width: usize,
    pub height: usize,
    pub tiles: Vec<WideTile>,
    pub alphas: Vec<u32>,
    /// These are scratch buffers, to be used for path rendering. They're here solely
    /// so the allocations can be reused.
    pub tile_buf: Vec<Tile>,
    pub strip_buf: Vec<Strip>,
}

impl RenderContext {
    /// The commands of every wide tile can run: their columns lie inside the tile,
    /// their colors are premultiplied and their masks lie inside the alpha buffer.
    pub open spec fn cmds_fit(&self) -> bool {
        forall|t: int, k: int|
            0 <= t < self.tiles@.len() && 0 <= k < self.tiles@[t].cmds@.len() ==> cmd_fits(
                #[trigger] self.tiles@[t].cmds@[k],
                self.alphas@.len() as int,
            )
    }

    /// Create a new render context, with every wide tile empty. The tiles are created
    /// column by column, and each records the position of that order: tile `i` is at
    /// column `i / tiles_per_column` and row `i % tiles_per_column`. Command generation
    /// and rendering do not read these positions: they address the same vector row by
    /// row (`row * tiles_per_row + col`), so the recorded positions agree with where a
    /// tile is used only when the image has one row or one column of tiles.
    pub fn new(width: usize, height: usize) -> (r: RenderContext)
        requires
            tiles_per_row(width as int) * tiles_per_column(height as int) <= usize::MAX,
        ensures
            r.width == width,
            r.height == height,
            r.tiles@.len() == tiles_per_row(width as int) * tiles_per_column(height as int),
            forall|i: int| 0 <= i < r.tiles@.len() ==> {
                &&& (#[trigger] r.tiles@[i]).bg == SolidColor::spec_transparent()
                &&& r.tiles@[i].cmds@.len() == 0
                &&& r.tiles@[i].x == (i / tiles_per_column(height as int)) * 256
                &&& r.tiles@[i].y == (i % tiles_per_column(height as int)) * 4
            },
            r.alphas@.len() == 0,
            r.tile_buf@.len() == 0,
            r.strip_buf@.len() == 0,
    {
        let width_tiles = div_ceil_usize(width, WIDE_TILE_WIDTH);
        let height_tiles = div_ceil_usize(height, STRIP_HEIGHT);
        let mut tiles: Vec<WideTile> = Vec::new();
        let ghost ht = height_tiles as int;

        let mut w: usize = 0;
        while w < width_tiles
            invariant
                width_tiles == tiles_per_row(width as int),
                height_tiles == tiles_per_column(height as int),
                width_tiles * height_tiles <= usize::MAX,
                0 <= w <= width_tiles,
                tiles@.len() == w * height_tiles,
                forall|i: int| 0 <= i < tiles@.len() ==> {
                    &&& (#[trigger] tiles@[i]).bg == SolidColor::spec_transparent()
                    &&& tiles@[i].cmds@.len() == 0
                    &&& tiles@[i].x == (i / height_tiles as int) * 256
                    &&& tiles@[i].y == (i % height_tiles as int) * 4
                },
            decreases width_tiles - w,
        {
            proof {
                assert((w + 1) * height_tiles <= width_tiles * height_tiles) by (nonlinear_arith)
                    requires w < width_tiles, height_tiles >= 0;
                assert(w * 256 < width) by (nonlinear_arith)
                    requires w < width_tiles, width_tiles == (width + 255) / 256;
            }
            let mut h: usize = 0;
            while h < height_tiles
                invariant
                    width_tiles == tiles_per_row(width as int),
                    height_tiles == tiles_per_column(height as int),
                    (w + 1) * height_tiles <= usize::MAX,
                    w * 256 < width,
                    0 <= w < width_tiles,
                    0 <= h <= height_tiles,
                    tiles@.len() == w * height_tiles + h,
                    forall|i: int| 0 <= i < tiles@.len() ==> {
                        &&& (#[trigger] tiles@[i]).bg == SolidColor::spec_transparent()
                        &&& tiles@[i].cmds@.len() == 0
                        &&& tiles@[i].x == (i / height_tiles as int) * 256
                        &&& tiles@[i].y == (i % height_tiles as int) * 4
                    },
                decreases height_tiles - h,
            {
                proof {
                    assert(h * 4 < height) by (nonlinear_arith)
                        requires h < height_tiles, height_tiles == (height + 3) / 4;
                    let i = w * height_tiles + h;
                    assert(i / height_tiles as int == w && i % height_tiles as int == h) by (nonlinear_arith)
                        requires i == w * height_tiles + h, 0 <= h < height_tiles;
                }
                tiles.push(WideTile::new(w * WIDE_TILE_WIDTH, h * STRIP_HEIGHT));
                h += 1;
            }
            assert(w * height_tiles + height_tiles == (w + 1) * height_tiles) by (nonlinear_arith);
            w += 1;
        }

        RenderContext {
            width,
            height,
            tiles,
            alphas: Vec::new(),
            tile_buf: Vec::new(),
            strip_buf: Vec::new(),
        }
    }

    /// Create a new render context that runs its kernels in `execution_mode`.
    pub fn new_with_execution_mode(width: usize, height: usize, execution_mode: ExecutionMode) -> (r: RenderContext)
        requires
            tiles_per_row(width as int) * tiles_per_column(height as int) <= usize::MAX,
        ensures
            r.width == width,
            r.height == height,
            r.tiles@.len() == tiles_per_row(width as int) * tiles_per_column(height as int),
            forall|i: int| 0 <= i < r.tiles@.len() ==> {
                &&& (#[trigger] r.tiles@[i]).bg == SolidColor::spec_transparent()
                &&& r.tiles@[i].cmds@.len() == 0
                &&& r.tiles@[i].x == (i / tiles_per_column(height as int)) * 256
                &&& r.tiles@[i].y == (i % tiles_per_column(height as int)) * 4
            },
            r.alphas@.len() == 0,
            r.tile_buf@.len() == 0,
            r.strip_buf@.len() == 0,
    {
        match execution_mode {
            ExecutionMode::Scalar => RenderContext::new(width, height),
        }
    }

    pub fn width(&self) -> (r: usize)
        ensures
            r == self.width,
    {
        self.width
    }

    pub fn height(&self) -> (r: usize)
        ensures
            r == self.height,
    {
        self.height
    }

    pub fn wide_tiles(&self) -> (r: &[WideTile])
        ensures
            r@ == self.tiles@,
    {
        self.tiles.as_slice()
    }

    pub fn alphas(&self) -> (r: &[u32])
        ensures
            r@ == self.alphas@,
    {
        self.alphas.as_slice()
    }

    pub fn tiles(&self) -> (r: &[Tile])
        ensures
            r@ == self.tile_buf@,
    {
        self.tile_buf.as_slice()
    }

    pub fn strip_buf(&self) -> (r: &[Strip])
        ensures
            r@ == self.strip_buf@,
    {
        self.strip_buf.as_slice()
    }

    /// Whether `render_to_pixmap` can render this context into `pixmap`: the context has
    /// all of its wide tiles, every command of them can run, and every wide tile can be
    /// packed into the pixmap.
    pub fn can_render_to(&self, pixmap: &Pixmap) -> (r: bool)
        ensures
            r == ({
                let n = tiles_per_row(self.width as int) * tiles_per_column(self.height as int);
                &&& n <= self.tiles@.len()
                &&& forall|t: int, k: int|
                    0 <= t < n && 0 <= k < self.tiles@[t].cmds@.len() ==> cmd_fits(
                        #[trigger] self.tiles@[t].cmds@[k],
                        self.alphas@.len() as int,
                    )
                &&& forall|x: int, y: int|
                    0 <= x < tiles_per_row(self.width as int) && 0 <= y < tiles_per_column(self.height as int)
                        ==> #[trigger] pack_fits(
                        pixmap.buf@.len() as int,
                        pixmap.width as int,
                        pixmap.height as int,
                        x,
                        y,
                    )
            }),
    {
        let wt = div_ceil_usize(self.width, WIDE_TILE_WIDTH);
        let ht = div_ceil_usize(self.height, STRIP_HEIGHT);
        let ghost n = tiles_per_row(self.width as int) * tiles_per_column(self.height as int);
        proof {
            assert(wt * ht <= 0xffff_ffff_ffff_ffff * 0xffff_ffff_ffff_ffff) by (nonlinear_arith)
                requires wt <= 0xffff_ffff_ffff_ffff, ht <= 0xffff_ffff_ffff_ffff;
        }
        if wt as u128 * ht as u128 > self.tiles.len() as u128 {
            return false;
        }
        let n_tiles = wt * ht;
        let mut t: usize = 0;
        while t < n_tiles
            invariant
                n == n_tiles,
                n == tiles_per_row(self.width as int) * tiles_per_column(self.height as int),
                n_tiles <= self.tiles@.len(),
                0 <= t <= n_tiles,
                forall|t2: int, k: int|
                    0 <= t2 < t && 0 <= k < self.tiles@[t2].cmds@.len() ==> cmd_fits(
                        #[trigger] self.tiles@[t2].cmds@[k],
                        self.alphas@.len() as int,
                    ),
            decreases n_tiles - t,
        {
            let tile = &self.tiles[t];
            let mut k: usize = 0;
            while k < tile.cmds.len()
                invariant
                    n == n_tiles,
                    n == tiles_per_row(self.width as int) * tiles_per_column(self.height as int),
                    n_tiles <= self.tiles@.len(),
                    t < n_tiles,
                    *tile == self.tiles@[t as int],
                    0 <= k <= tile.cmds@.len(),
                    forall|k2: int| 0 <= k2 < k ==> cmd_fits(#[trigger] tile.cmds@[k2], self.alphas@.len() as int),
                decreases tile.cmds@.len() - k,
            {
                if !cmd_fits_exec(&tile.cmds[k], self.alphas.len()) {
                    assert(!cmd_fits(self.tiles@[t as int].cmds@[k as int], self.alphas@.len() as int));
                    return false;
                }
                k += 1;
            }
            t += 1;
        }
        let mut y: usize = 0;
        while y < ht
            invariant
                wt == tiles_per_row(self.width as int),
                ht == tiles_per_column(self.height as int),
                0 <= y <= ht,
                forall|x2: int, y2: int|
                    0 <= x2 < wt && 0 <= y2 < y ==> #[trigger] pack_fits(
                        pixmap.buf@.len() as int, pixmap.width as int, pixmap.height as int, x2, y2),
            decreases ht - y,
        {
            let mut x: usize = 0;
            while x < wt
                invariant
                    wt == tiles_per_row(self.width as int),
                    ht == tiles_per_column(self.height as int),
                    0 <= y < ht,
                    0 <= x <= wt,
                    forall|x2: int, y2: int|
                        0 <= x2 < wt && 0 <= y2 < y ==> #[trigger] pack_fits(
                            pixmap.buf@.len() as int, pixmap.width as int, pixmap.height as int, x2, y2),
                    forall|x2: int| 0 <= x2 < x ==> #[trigger] pack_fits(
                        pixmap.buf@.len() as int, pixmap.width as int, pixmap.height as int, x2, y as int),
                decreases wt - x,
            {
                if !pack_fits_exec(pixmap.buf.len(), pixmap.width, pixmap.height, x, y) {
                    return false;
                }
                x += 1;
            }
            y += 1;
        }
        true
    }

    /// Reset the current render context: every wide tile becomes empty again.
    pub fn reset(&mut self)
        ensures
            final(self).tiles@.len() == old(self).tiles@.len(),
            forall|i: int| 0 <= i < final(self).tiles@.len() ==> {
                &&& (#[trigger] final(self).tiles@[i]).bg == SolidColor::spec_transparent()
                &&& final(self).tiles@[i].cmds@.len() == 0
                &&& final(self).tiles@[i].x == old(self).tiles@[i].x
                &&& final(self).tiles@[i].y == old(self).tiles@[i].y
            },
            final(self).width == old(self).width,
            final(self).height == old(self).height,
            final(self).alphas == old(self).alphas,
            final(self).tile_buf == old(self).tile_buf,
            final(self).strip_buf == old(self).strip_buf,
    {
        let n = self.tiles.len();
        let mut i: usize = 0;
        while i < n
            invariant
                n == self.tiles@.len(),
                n == old(self).tiles@.len(),
                0 <= i <= n,
                forall|j: int| 0 <= j < i ==> {
                    &&& (#[trigger] self.tiles@[j]).bg == SolidColor::spec_transparent()
                    &&& self.tiles@[j].cmds@.len() == 0
                    &&& self.tiles@[j].x == old(self).tiles@[j].x
                    &&& self.tiles@[j].y == old(self).tiles@[j].y
                },
                forall|j: int| i <= j < n ==> #[trigger] self.tiles@[j] == old(self).tiles@[j],
                self.width == old(self).width,
                self.height == old(self).height,
                self.alphas == old(self).alphas,
                self.tile_buf == old(self).tile_buf,
                self.strip_buf == old(self).strip_buf,
            decreases n - i,
        {
            let tile = &mut self.tiles[i];
            tile.bg = SolidColor::transparent();
            tile.cmds.clear();
            i += 1;
        }
    }

    /// The number of wide tiles in a row.
    pub fn wide_tiles_per_row(&self) -> (r: usize)
        ensures
            r == tiles_per_row(self.width as int),
    {
        div_ceil_usize(self.width, WIDE_TILE_WIDTH)
    }

    /// Generate the strip and fill commands for each wide tile using the current
    /// `strip_buf`.
    pub fn generate_commands(&mut self, fill_rule: FillRule, paint: Paint)
        requires
            forall|i: int|
                0 <= i < generated_count(old(self).strip_buf@, old(self).width as int, old(self).height as int)
                    && old(self).strip_buf@[i].x < old(self).width ==> strip_fits(
                    #[trigger] old(self).strip_buf@[i],
                    old(self).strip_buf@[i + 1],
                    fill_rule,
                    old(self).width as int,
                    old(self).tiles@.len() as int,
                ),
        ensures
            tile_views(final(self).tiles@) == commands_upto(
                tile_views(old(self).tiles@),
                old(self).strip_buf@,
                generated_count(old(self).strip_buf@, old(self).width as int, old(self).height as int),
                fill_rule,
                paint,
                old(self).width as int,
            ),
            final(self).width == old(self).width,
            final(self).height == old(self).height,
            final(self).alphas == old(self).alphas,
            final(self).tile_buf == old(self).tile_buf,
            final(self).strip_buf == old(self).strip_buf,
    {
        let tiles = self.tiles.as_mut_slice();
        generate_commands(&self.strip_buf, tiles, fill_rule, paint, self.width, self.height);
    }

    /// Render the current render context into a pixmap: every wide tile, row by row,
    /// is drawn (its background, then its commands with `SrcOver`) and copied into the
    /// pixmap, cut at the pixmap's edges.
    pub fn render_to_pixmap(&self, pixmap: &mut Pixmap)
        requires
            tiles_per_row(self.width as int) * tiles_per_column(self.height as int) <= self.tiles@.len(),
            forall|t: int, k: int|
                0 <= t < tiles_per_row(self.width as int) * tiles_per_column(self.height as int)
                    && 0 <= k < self.tiles@[t].cmds@.len() ==> cmd_fits(
                    #[trigger] self.tiles@[t].cmds@[k],
                    self.alphas@.len() as int,
                ),
            forall|x: int, y: int|
                0 <= x < tiles_per_row(self.width as int) && 0 <= y < tiles_per_column(self.height as int)
                    ==> #[trigger] pack_fits(
                    old(pixmap).buf@.len() as int,
                    old(pixmap).width as int,
                    old(pixmap).height as int,
                    x,
                    y,
                ),
        ensures
            final(pixmap).width == old(pixmap).width,
            final(pixmap).height == old(pixmap).height,
            final(pixmap).buf@ == rendered(
                old(pixmap).buf@,
                tile_views(self.tiles@),
                self.alphas@,
                tiles_per_row(self.width as int),
                old(pixmap).width as int,
                old(pixmap).height as int,
                tiles_per_row(self.width as int) * tiles_per_column(self.height as int),
            ),
    {
        let pw = pixmap.width;
        let ph = pixmap.height;
        let ghost b0 = pixmap.buf@;
        let width_tiles = div_ceil_usize(self.width, WIDE_TILE_WIDTH);
        let height_tiles = div_ceil_usize(self.height, STRIP_HEIGHT);
        let ghost views = tile_views(self.tiles@);
        let n_tiles = self.tiles.len();
        let out = pixmap.buf.as_mut_slice();
        let ghost out_final = final(out)@;
        let mut fine = Fine::new(pw, ph, out);
        let mut y: usize = 0;
        while y < height_tiles
            invariant
                width_tiles == tiles_per_row(self.width as int),
                height_tiles == tiles_per_column(self.height as int),
                width_tiles * height_tiles <= self.tiles@.len(),
                self.tiles@.len() == n_tiles,
                views == tile_views(self.tiles@),
                forall|t: int, k: int|
                    0 <= t < width_tiles * height_tiles && 0 <= k < self.tiles@[t].cmds@.len() ==> cmd_fits(
                        #[trigger] self.tiles@[t].cmds@[k],
                        self.alphas@.len() as int,
                    ),
                forall|x: int, y: int|
                    0 <= x < width_tiles && 0 <= y < height_tiles ==> #[trigger] pack_fits(
                        b0.len() as int, pw as int, ph as int, x, y),
                fine.width == pw,
                fine.height == ph,
                final(fine.out_buf)@ == out_final,
                0 <= y <= height_tiles,
                fine.out_buf@.len() == b0.len(),
                fine.out_buf@ == rendered(b0, views, self.alphas@, width_tiles as int, pw as int, ph as int,
                    y * width_tiles),
            decreases height_tiles - y,
        {
            let mut x: usize = 0;
            while x < width_tiles
                invariant
                    width_tiles == tiles_per_row(self.width as int),
                    height_tiles == tiles_per_column(self.height as int),
                    width_tiles * height_tiles <= self.tiles@.len(),
                    self.tiles@.len() == n_tiles,
                    views == tile_views(self.tiles@),
                    forall|t: int, k: int|
                        0 <= t < width_tiles * height_tiles && 0 <= k < self.tiles@[t].cmds@.len() ==> cmd_fits(
                            #[trigger] self.tiles@[t].cmds@[k],
                            self.alphas@.len() as int,
                        ),
                    forall|x: int, y: int|
                        0 <= x < width_tiles && 0 <= y < height_tiles ==> #[trigger] pack_fits(
                            b0.len() as int, pw as int, ph as int, x, y),
                    fine.width == pw,
                    fine.height == ph,
                    final(fine.out_buf)@ == out_final,
                    0 <= y < height_tiles,
                    0 <= x <= width_tiles,
                    fine.out_buf@.len() == b0.len(),
                    fine.out_buf@ == rendered(b0, views, self.alphas@, width_tiles as int, pw as int, ph as int,
                        y * width_tiles + x),
                decreases width_tiles - x,
            {
                proof {
                    assert(y * width_tiles + x < width_tiles * height_tiles) by (nonlinear_arith)
                        requires x < width_tiles, y < height_tiles;
                }
                let t = y * width_tiles + x;
                let tile = &self.tiles[t];
                fine.clear_scalar(tile.bg.premul);
                let n = tile.cmds.len();
                let mut k: usize = 0;
                while k < n
                    invariant
                        n == tile.cmds@.len(),
                        t < width_tiles * height_tiles,
                        width_tiles * height_tiles <= self.tiles@.len(),
                        *tile == self.tiles@[t as int],
                        forall|t: int, k: int|
                            0 <= t < width_tiles * height_tiles && 0 <= k < self.tiles@[t].cmds@.len() ==> cmd_fits(
                                #[trigger] self.tiles@[t].cmds@[k],
                                self.alphas@.len() as int,
                            ),
                        fine.width == pw,
                        fine.height == ph,
                        final(fine.out_buf)@ == out_final,
                        fine.out_buf@.len() == b0.len(),
                        fine.out_buf@ == rendered(b0, views, self.alphas@, width_tiles as int, pw as int, ph as int,
                            y * width_tiles + x),
                        0 <= k <= n,
                        fine.scratch@ == scratch_after(tile.bg.premul@, tile.cmds@, self.alphas@, k as int),
                    decreases n - k,
                {
                    fine.run_cmd(&tile.cmds[k], &self.alphas);
                    k += 1;
                }
                proof {
                    assert(views[t as int] == tile@);
                    assert((t as int) % (width_tiles as int) == x && (t as int) / (width_tiles as int) == y) by (nonlinear_arith)
                        requires t == y * width_tiles + x, 0 <= x < width_tiles;
                }
                fine.pack_scalar(x, y);
                x += 1;
            }
            assert(y * width_tiles + width_tiles == (y + 1) * width_tiles) by (nonlinear_arith);
            y += 1;
        }
        assert(height_tiles * width_tiles == width_tiles * height_tiles) by (nonlinear_arith);
    }
}

} // verus!
