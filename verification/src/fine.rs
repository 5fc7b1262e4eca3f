//! Fine rasterization: compositing commands into a scratch buffer that covers one
//! wide tile, and packing the scratch buffer into the pixmap.

pub mod compose;
pub mod fill;
pub mod strip;

use vstd::prelude::*;
use crate::fine::compose::{
    fill_result, fill_fits, fill_supported, lemma_opaque_src_over_is_copy,
    lemma_premultiplied_fill_fits, lemma_premultiplied_strip_fits, pixels_premultiplied,
    premultiplied, strip_result, Compose, Scalar, COLOR_COMPONENTS, TOTAL_STRIP_HEIGHT,
};
use crate::paint::Paint;
use crate::wide_tile::{Cmd, STRIP_HEIGHT, WIDE_TILE_WIDTH};

verus! {

/// Number of bytes of a strip column (4 pixels of 4 components).
pub const STRIP_HEIGHT_F32: usize = 16;

/// Number of bytes of the scratch buffer: one wide tile of 256x4 pixels.
pub const SCRATCH_BUF_SIZE: usize = 4096;

/// `buf` with the bytes from `start` on replaced by `part`.
pub open spec fn splice(buf: Seq<u8>, start: int, part: Seq<u8>) -> Seq<u8> {
    buf.subrange(0, start) + part + buf.subrange(start + part.len(), buf.len() as int)
}

/// The scratch buffer cleared to one color: every pixel (column-major, 4 bytes each)
/// holds it.
pub open spec fn cleared(color: Seq<u8>) -> Seq<u8> {
    Seq::new(4096, |k: int| color[k % 4])
}

/// The columns [x, x + width) of a scratch buffer.
pub open spec fn columns(scratch: Seq<u8>, x: int, width: int) -> Seq<u8> {
    scratch.subrange(x * 16, (x + width) * 16)
}

/// The scratch buffer after a fill of the columns [x, x + width) with `compose`.
pub open spec fn filled(scratch: Seq<u8>, x: int, width: int, paint: Paint, compose: Compose) -> Seq<u8> {
    splice(scratch, x * 16, fill_result(compose, columns(scratch, x, width), paint.premul()))
}

/// The scratch buffer after compositing `paint` over the columns [x, x + width) through
/// the coverage masks `alphas`.
pub open spec fn stripped(scratch: Seq<u8>, x: int, width: int, alphas: Seq<u32>, paint: Paint) -> Seq<u8> {
    splice(scratch, x * 16, strip_result(columns(scratch, x, width), paint.premul(), alphas))
}

/// A command can run on the scratch buffer: its columns lie inside the wide tile, its
/// color is premultiplied, and a strip has a coverage mask for each of its columns.
pub open spec fn cmd_fits(cmd: Cmd, n_alphas: int) -> bool {
    match cmd {
        Cmd::Fill(f) => f.x + f.width <= 256 && premultiplied(f.paint.premul()),
        Cmd::Strip(s) => s.x + s.width <= 256 && premultiplied(s.paint.premul()) && s.alpha_ix
            + s.width <= n_alphas,
    }
}

/// The scratch buffer after running a command with `SrcOver`.
pub open spec fn cmd_result(scratch: Seq<u8>, cmd: Cmd, alphas: Seq<u32>) -> Seq<u8> {
    match cmd {
        Cmd::Fill(f) => filled(scratch, f.x as int, f.width as int, f.paint, Compose::SrcOver),
        Cmd::Strip(s) => stripped(
            scratch,
            s.x as int,
            s.width as int,
            alphas.subrange(s.alpha_ix as int, alphas.len() as int),
            s.paint,
        ),
    }
}

/// Row `row` of the packed region of tile (x, y) in a pixmap `width` pixels wide.
pub open spec fn pack_rows(height: int, y: int) -> int {
    if height - y * 4 < 4 { height - y * 4 } else { 4 }
}

pub open spec fn pack_cols(width: int, x: int) -> int {
    if width - x * 256 < 256 { width - x * 256 } else { 256 }
}

/// The pixel row, pixel column and component of byte `p` of a pixmap.
pub open spec fn byte_row(p: int, width: int) -> int {
    (p / 4) / width
}

pub open spec fn byte_col(p: int, width: int) -> int {
    (p / 4) % width
}

/// Whether byte `p` of a `width` x `height` pixmap belongs to wide tile (x, y).
pub open spec fn in_tile(p: int, width: int, height: int, x: int, y: int) -> bool {
    &&& width > 0
    &&& y * 4 <= byte_row(p, width) < y * 4 + pack_rows(height, y)
    &&& x * 256 <= byte_col(p, width) < x * 256 + pack_cols(width, x)
}

/// The scratch byte that goes to byte `p` of the pixmap when wide tile (x, y) is packed.
pub open spec fn tile_byte(scratch: Seq<u8>, p: int, width: int, x: int, y: int) -> u8 {
    scratch[((byte_col(p, width) - x * 256) * 4 + (byte_row(p, width) - y * 4)) * 4 + p % 4]
}

/// The pixmap after packing the scratch buffer of wide tile (x, y): the tile's pixels
/// that lie inside the pixmap are copied, the rest is left alone.
pub open spec fn packed(out: Seq<u8>, scratch: Seq<u8>, width: int, height: int, x: int, y: int) -> Seq<u8> {
    Seq::new(
        out.len(),
        |p: int|
            if in_tile(p, width, height, x, y) {
                tile_byte(scratch, p, width, x, y)
            } else {
                out[p]
            },
    )
}

/// The first byte of wide tile (x, y) in the pixmap.
pub open spec fn pack_base(width: int, x: int, y: int) -> int {
    (y * 4 * width + x * 256) * 4
}

/// Packing wide tile (x, y) stays inside the pixmap buffer.
pub open spec fn pack_fits(out_len: int, width: int, height: int, x: int, y: int) -> bool {
    &&& y * 4 <= height
    &&& x * 256 <= width
    &&& pack_base(width, x, y) <= usize::MAX
    &&& (pack_rows(height, y) == 0 || pack_base(width, x, y) + ((pack_rows(height, y) - 1) * width
        + pack_cols(width, x)) * 4 <= out_len)
}

proof fn lemma_byte_position(row: int, col: int, c: int, width: int)
    requires
        0 <= row,
        0 <= col < width,
        0 <= c < 4,
    ensures
        byte_row((row * width + col) * 4 + c, width) == row,
        byte_col((row * width + col) * 4 + c, width) == col,
        ((row * width + col) * 4 + c) % 4 == c,
{
    let p = (row * width + col) * 4 + c;
    assert(p / 4 == row * width + col) by (nonlinear_arith)
        requires p == (row * width + col) * 4 + c, 0 <= c < 4, 0 <= row, 0 <= col;
    assert(p % 4 == c) by (nonlinear_arith)
        requires p == (row * width + col) * 4 + c, 0 <= c < 4, 0 <= row, 0 <= col;
    assert((row * width + col) / width == row) by (nonlinear_arith)
        requires 0 <= col < width, 0 <= row;
    assert((row * width + col) % width == col) by (nonlinear_arith)
        requires 0 <= col < width, 0 <= row;
}

/// Copies the pixels of wide tile (x, y) from the scratch buffer into the pixmap.
fn pack_tile(out_buf: &mut [u8], scratch: &[u8; SCRATCH_BUF_SIZE], width: usize, height: usize, x: usize, y: usize)
    requires
        y * 4 <= height,
        x * 256 <= width,
        pack_base(width as int, x as int, y as int) <= usize::MAX,
        pack_rows(height as int, y as int) == 0 || pack_cols(width as int, x as int) == 0
            || pack_base(width as int, x as int, y as int) + ((pack_rows(height as int, y as int) - 1)
            * width + pack_cols(width as int, x as int)) * 4 <= old(out_buf)@.len(),
    ensures
        final(out_buf)@ == packed(old(out_buf)@, scratch@, width as int, height as int, x as int, y as int),
{
    let ghost o0 = out_buf@;
    let out_len = out_buf.len();
    let base_ix = (y * STRIP_HEIGHT * width + x * WIDE_TILE_WIDTH) * COLOR_COMPONENTS;

    // Make sure we don't process rows outside the range of the pixmap.
    let max_height = if height - y * STRIP_HEIGHT < STRIP_HEIGHT { height - y * STRIP_HEIGHT } else { STRIP_HEIGHT };
    // Make sure we don't process columns outside the range of the pixmap.
    let max_width = if width - x * WIDE_TILE_WIDTH < WIDE_TILE_WIDTH { width - x * WIDE_TILE_WIDTH } else { WIDE_TILE_WIDTH };

    if max_width == 0 {
        assert(out_buf@ =~= packed(o0, scratch@, width as int, height as int, x as int, y as int));
        return;
    }

    let mut j: usize = 0;
    while j < max_height
        invariant
            out_buf@.len() == o0.len(),
            o0.len() <= usize::MAX,
            o0 == old(out_buf)@,
            max_height == pack_rows(height as int, y as int),
            max_width == pack_cols(width as int, x as int),
            0 < max_width <= 256,
            0 <= max_height <= 4,
            width > 0,
            y * 4 + max_height <= height,
            x * 256 + max_width <= width,
            base_ix == pack_base(width as int, x as int, y as int),
            max_height == 0 || base_ix + ((max_height - 1) * width + max_width) * 4 <= o0.len(),
            0 <= j <= max_height,
            forall|p: int| 0 <= p < o0.len() ==> #[trigger] out_buf@[p] == (
                if in_tile(p, width as int, height as int, x as int, y as int)
                    && byte_row(p, width as int) < y * 4 + j {
                    tile_byte(scratch@, p, width as int, x as int, y as int)
                } else {
                    o0[p]
                }),
        decreases max_height - j,
    {
        proof {
            assert(base_ix + j * width * 4 + max_width * 4 <= o0.len()) by (nonlinear_arith)
                requires
                    j < max_height,
                    base_ix + ((max_height - 1) * width + max_width) * 4 <= o0.len(),
                    width > 0;
            assert(0 <= j * width <= j * width * 4) by (nonlinear_arith)
                requires width > 0, j >= 0;
        }
        let line_ix = base_ix + j * width * COLOR_COMPONENTS;
        let mut i: usize = 0;
        while i < max_width
            invariant
                out_buf@.len() == o0.len(),
                o0.len() <= usize::MAX,
                o0 == old(out_buf)@,
                max_height == pack_rows(height as int, y as int),
                max_width == pack_cols(width as int, x as int),
                0 < max_width <= 256,
                0 <= max_height <= 4,
                width > 0,
                y * 4 + max_height <= height,
                x * 256 + max_width <= width,
                base_ix == pack_base(width as int, x as int, y as int),
                line_ix == base_ix + j * width * 4,
                line_ix + max_width * 4 <= o0.len(),
                0 <= j < max_height,
                0 <= i <= max_width,
                forall|p: int| 0 <= p < o0.len() ==> #[trigger] out_buf@[p] == (
                    if in_tile(p, width as int, height as int, x as int, y as int)
                        && (byte_row(p, width as int) < y * 4 + j
                        || (byte_row(p, width as int) == y * 4 + j && byte_col(p, width as int) < x * 256 + i)) {
                        tile_byte(scratch@, p, width as int, x as int, y as int)
                    } else {
                        o0[p]
                    }),
            decreases max_width - i,
        {
            let mut c: usize = 0;
            while c < COLOR_COMPONENTS
                invariant
                    out_buf@.len() == o0.len(),
                    o0.len() <= usize::MAX,
                    o0 == old(out_buf)@,
                    max_height == pack_rows(height as int, y as int),
                    max_width == pack_cols(width as int, x as int),
                    0 < max_width <= 256,
                    0 <= max_height <= 4,
                    width > 0,
                    y * 4 + max_height <= height,
                    x * 256 + max_width <= width,
                    base_ix == pack_base(width as int, x as int, y as int),
                    line_ix == base_ix + j * width * 4,
                    line_ix + max_width * 4 <= o0.len(),
                    0 <= j < max_height,
                    0 <= i < max_width,
                    0 <= c <= 4,
                    forall|p: int| 0 <= p < o0.len() ==> #[trigger] out_buf@[p] == (
                        if in_tile(p, width as int, height as int, x as int, y as int)
                            && (byte_row(p, width as int) < y * 4 + j
                            || (byte_row(p, width as int) == y * 4 + j && (byte_col(p, width as int) < x * 256 + i
                            || (byte_col(p, width as int) == x * 256 + i && p % 4 < c)))) {
                            tile_byte(scratch@, p, width as int, x as int, y as int)
                        } else {
                            o0[p]
                        }),
                decreases 4 - c,
            {
                let target_ix = line_ix + i * COLOR_COMPONENTS + c;
                let src_ix = (i * STRIP_HEIGHT + j) * COLOR_COMPONENTS + c;
                proof {
                    let row = y * 4 + j;
                    let col = x * 256 + i;
                    assert(target_ix as int == (row * width + col) * 4 + c) by (nonlinear_arith)
                        requires
                            target_ix == line_ix + i * 4 + c,
                            line_ix == base_ix + j * width * 4,
                            base_ix == (y * 4 * width + x * 256) * 4,
                            row == y * 4 + j,
                            col == x * 256 + i;
                    lemma_byte_position(row as int, col as int, c as int, width as int);
                    assert forall|p: int| 0 <= p < o0.len() && p != target_ix implies
                        !(byte_row(p, width as int) == row && byte_col(p, width as int) == col && p % 4 == c) by {
                        if byte_row(p, width as int) == row && byte_col(p, width as int) == col && p % 4 == c {
                            assert(p == (row * width + col) * 4 + c) by (nonlinear_arith)
                                requires
                                    byte_row(p, width as int) == row,
                                    byte_col(p, width as int) == col,
                                    p % 4 == c,
                                    width > 0,
                                    p >= 0;
                        }
                    }
                }
                out_buf[target_ix] = scratch[src_ix];
                c += 1;
            }
            i += 1;
        }
        j += 1;
    }
    assert(out_buf@ =~= packed(o0, scratch@, width as int, height as int, x as int, y as int));
}

/// Copies the pixels of wide tile (x, y) from the scratch buffer into the pixmap
/// buffer `out_buf` of a `width` x `height` pixmap.
pub fn pack(out_buf: &mut [u8], scratch: &[u8; SCRATCH_BUF_SIZE], width: usize, height: usize, x: usize, y: usize)
    requires
        pack_fits(old(out_buf)@.len() as int, width as int, height as int, x as int, y as int),
    ensures
        final(out_buf)@ == packed(old(out_buf)@, scratch@, width as int, height as int, x as int, y as int),
{
    pack_tile(out_buf, scratch, width, height, x, y);
}

/// Copies the pixels of wide tile (x, y) from the scratch buffer into the pixmap
/// buffer `out_buf` of a `width` x `height` pixmap, pixel by pixel.
pub fn pack_scalar(out_buf: &mut [u8], scratch: &[u8; SCRATCH_BUF_SIZE], width: usize, height: usize, x: usize, y: usize)
    requires
        y * 4 <= height,
        x * 256 <= width,
        pack_base(width as int, x as int, y as int) <= usize::MAX,
        pack_rows(height as int, y as int) == 0 || pack_cols(width as int, x as int) == 0
            || pack_base(width as int, x as int, y as int) + ((pack_rows(height as int, y as int) - 1)
            * width + pack_cols(width as int, x as int)) * 4 <= old(out_buf)@.len(),
    ensures
        final(out_buf)@ == packed(old(out_buf)@, scratch@, width as int, height as int, x as int, y as int),
{
    pack_tile(out_buf, scratch, width, height, x, y);
}

/// The state of fine rasterization: the pixmap being drawn (its size and its RGBA
/// bytes) and the scratch buffer of the current wide tile, stored column by column.
pub struct Fine<'a> {
    pub width: usize,
    pub height: usize,
    pub out_buf: &'a mut [u8],
    pub scratch: [u8; SCRATCH_BUF_SIZE],
}

impl<'a> Fine<'a> {
    pub fn new(width: usize, height: usize, out_buf: &'a mut [u8]) -> (r: Self)
        ensures
            r.width == width,
            r.height == height,
            r.out_buf@ == old(out_buf)@,
            final(r.out_buf)@ == final(out_buf)@,
            r.scratch@ == Seq::new(4096, |k: int| 0u8),
    {
        let scratch = [0u8; 4096];
        let r = Self { width, height, out_buf, scratch };
        assert(r.scratch@ =~= Seq::new(4096, |k: int| 0u8));
        r
    }

    /// Sets every pixel of the scratch buffer to `premul_color`.
    pub fn clear(&mut self, premul_color: [u8; 4])
        ensures
            final(self).scratch@ == cleared(premul_color@),
            final(self).width == old(self).width,
            final(self).height == old(self).height,
            final(self).out_buf == old(self).out_buf,
    {
        if premul_color[0] == premul_color[1] && premul_color[1] == premul_color[2]
            && premul_color[2] == premul_color[3] {
            // All components are the same, so the buffer is filled with one byte.
            let b = premul_color[0];
            let mut k: usize = 0;
            while k < SCRATCH_BUF_SIZE
                invariant
                    0 <= k <= 4096,
                    premul_color@[0] == b && premul_color@[1] == b && premul_color@[2] == b && premul_color@[3] == b,
                    forall|m: int| 0 <= m < k ==> #[trigger] self.scratch@[m] == b,
                    self.width == old(self).width,
                    self.height == old(self).height,
                    self.out_buf == old(self).out_buf,
                decreases 4096 - k,
            {
                self.scratch[k] = b;
                k += 1;
            }
            assert forall|m: int| 0 <= m < 4096 implies self.scratch@[m] == cleared(premul_color@)[m] by {
                assert(0 <= m % 4 < 4);
            }
            assert(self.scratch@ =~= cleared(premul_color@));
        } else {
            self.clear_scalar(premul_color);
        }
    }

    /// Sets every pixel of the scratch buffer to `premul_color`, pixel by pixel.
    pub fn clear_scalar(&mut self, premul_color: [u8; 4])
        ensures
            final(self).scratch@ == cleared(premul_color@),
            final(self).width == old(self).width,
            final(self).height == old(self).height,
            final(self).out_buf == old(self).out_buf,
    {
        let mut p: usize = 0;
        while p < SCRATCH_BUF_SIZE / COLOR_COMPONENTS
            invariant
                0 <= p <= 1024,
                forall|m: int| 0 <= m < p * 4 ==> #[trigger] self.scratch@[m] == premul_color@[m % 4],
                self.width == old(self).width,
                self.height == old(self).height,
                self.out_buf == old(self).out_buf,
            decreases 1024 - p,
        {
            let mut c: usize = 0;
            while c < COLOR_COMPONENTS
                invariant
                    0 <= p < 1024,
                    0 <= c <= 4,
                    forall|m: int| 0 <= m < p * 4 + c ==> #[trigger] self.scratch@[m] == premul_color@[m % 4],
                    self.width == old(self).width,
                    self.height == old(self).height,
                    self.out_buf == old(self).out_buf,
                decreases 4 - c,
            {
                proof {
                    assert((p * 4 + c) % 4 == c) by (nonlinear_arith)
                        requires 0 <= c < 4, p >= 0;
                }
                self.scratch[p * COLOR_COMPONENTS + c] = premul_color[c];
                c += 1;
            }
            p += 1;
        }
        assert(self.scratch@ =~= cleared(premul_color@));
    }

    /// Copies the scratch buffer into wide tile (x, y) of the pixmap.
    pub fn pack(&mut self, x: usize, y: usize)
        requires
            pack_fits(old(self).out_buf@.len() as int, old(self).width as int, old(self).height as int, x as int, y as int),
        ensures
            final(self).out_buf@ == packed(old(self).out_buf@, old(self).scratch@, old(self).width as int,
                old(self).height as int, x as int, y as int),
            final(self).scratch == old(self).scratch,
            final(self).width == old(self).width,
            final(self).height == old(self).height,
            final(final(self).out_buf)@ == final(old(self).out_buf)@,
    {
        pack(self.out_buf, &self.scratch, self.width, self.height, x, y);
    }

    /// Copies the scratch buffer into wide tile (x, y) of the pixmap, pixel by pixel.
    pub fn pack_scalar(&mut self, x: usize, y: usize)
        requires
            pack_fits(old(self).out_buf@.len() as int, old(self).width as int, old(self).height as int, x as int, y as int),
        ensures
            final(self).out_buf@ == packed(old(self).out_buf@, old(self).scratch@, old(self).width as int,
                old(self).height as int, x as int, y as int),
            final(self).scratch == old(self).scratch,
            final(self).width == old(self).width,
            final(self).height == old(self).height,
            final(final(self).out_buf)@ == final(old(self).out_buf)@,
    {
        pack_scalar(self.out_buf, &self.scratch, self.width, self.height, x, y);
    }

    /// Fills the columns [x, x + width) of the scratch buffer with `paint`, composited
    /// with `SrcOver`.
    pub fn fill_scalar(&mut self, x: usize, width: usize, paint: &Paint)
        requires
            x + width <= 256,
            premultiplied(paint.premul()),
        ensures
            final(self).scratch@ == filled(old(self).scratch@, x as int, width as int, *paint, Compose::SrcOver),
            final(self).width == old(self).width,
            final(self).height == old(self).height,
            final(self).out_buf == old(self).out_buf,
    {
        let Paint::Solid(c) = *paint;
        let premul_color = c.premul;
        let ghost s0 = self.scratch@;
        let scratch: &mut [u8] = &mut self.scratch;
        let (_head, rest) = scratch.split_at_mut(x * STRIP_HEIGHT_F32);
        let (target, _tail) = rest.split_at_mut(STRIP_HEIGHT_F32 * width);
        proof {
            assert(target@ =~= columns(s0, x as int, width as int));
            lemma_premultiplied_fill_fits(Compose::SrcOver, target@, premul_color@);
            lemma_opaque_src_over_is_copy_if(target@, premul_color@);
        }
        if premul_color[3] == 255 {
            fill::src_copy(target, &premul_color);
        } else {
            fill::src_over(target, &premul_color);
        }
        assert(final(scratch)@ =~= filled(s0, x as int, width as int, *paint, Compose::SrcOver));
    }

    /// Composites `paint` over the columns [x, x + width) of the scratch buffer through
    /// the coverage masks `alphas` (one per column).
    pub fn strip_scalar(&mut self, x: usize, width: usize, alphas: &[u32], paint: &Paint)
        requires
            x + width <= 256,
            alphas@.len() >= width,
            premultiplied(paint.premul()),
        ensures
            final(self).scratch@ == stripped(old(self).scratch@, x as int, width as int, alphas@, *paint),
            final(self).width == old(self).width,
            final(self).height == old(self).height,
            final(self).out_buf == old(self).out_buf,
    {
        let Paint::Solid(c) = *paint;
        let color = c.premul;
        let ghost s0 = self.scratch@;
        let scratch: &mut [u8] = &mut self.scratch;
        let (_head, rest) = scratch.split_at_mut(x * STRIP_HEIGHT_F32);
        let (target, _tail) = rest.split_at_mut(STRIP_HEIGHT_F32 * width);
        proof {
            assert(target@ =~= columns(s0, x as int, width as int));
            lemma_premultiplied_strip_fits(target@, color@, alphas@);
        }
        strip::src_over(target, &color, alphas);
        assert(final(scratch)@ =~= stripped(s0, x as int, width as int, alphas@, *paint));
    }

    /// Fills the columns [x, x + width) of the scratch buffer with `paint`, composited
    /// with `compose`.
    pub fn fill(&mut self, x: usize, width: usize, paint: &Paint, compose: Compose)
        requires
            x + width <= 256,
            fill_supported(compose),
            premultiplied(paint.premul()),
            compose == Compose::DestOver ==> pixels_premultiplied(columns(old(self).scratch@, x as int, width as int)),
        ensures
            final(self).scratch@ == filled(old(self).scratch@, x as int, width as int, *paint, compose),
            final(self).width == old(self).width,
            final(self).height == old(self).height,
            final(self).out_buf == old(self).out_buf,
    {
        let Paint::Solid(c) = *paint;
        let color = c.premul;
        let mut compose = compose;
        let ghost op = compose;
        let ghost s0 = self.scratch@;
        // If the color is completely opaque with SrcOver, it's the same as filling using Copy.
        if compose == Compose::SrcOver && color[3] == 255 {
            compose = Compose::Copy;
        }
        let scratch: &mut [u8] = &mut self.scratch;
        let (_head, rest) = scratch.split_at_mut(x * TOTAL_STRIP_HEIGHT);
        let (target, _tail) = rest.split_at_mut(TOTAL_STRIP_HEIGHT * width);
        proof {
            assert(target@ =~= columns(s0, x as int, width as int));
            lemma_premultiplied_fill_fits(compose, target@, color@);
            lemma_opaque_src_over_is_copy_if(target@, color@);
        }
        Scalar::compose_fill(target, &color, compose);
        assert(final(scratch)@ =~= filled(s0, x as int, width as int, *paint, op));
    }

    /// Composites `paint` over the columns [x, x + width) of the scratch buffer through
    /// the coverage masks `alphas`, with `compose` (only `SrcOver` is supported).
    pub fn strip(&mut self, x: usize, width: usize, alphas: &[u32], paint: &Paint, compose: Compose)
        requires
            x + width <= 256,
            alphas@.len() >= width,
            compose == Compose::SrcOver,
            premultiplied(paint.premul()),
        ensures
            final(self).scratch@ == stripped(old(self).scratch@, x as int, width as int, alphas@, *paint),
            final(self).width == old(self).width,
            final(self).height == old(self).height,
            final(self).out_buf == old(self).out_buf,
    {
        let Paint::Solid(c) = *paint;
        let color = c.premul;
        let ghost s0 = self.scratch@;
        let scratch: &mut [u8] = &mut self.scratch;
        let (_head, rest) = scratch.split_at_mut(x * TOTAL_STRIP_HEIGHT);
        let (target, _tail) = rest.split_at_mut(TOTAL_STRIP_HEIGHT * width);
        proof {
            assert(target@ =~= columns(s0, x as int, width as int));
            lemma_premultiplied_strip_fits(target@, color@, alphas@);
        }
        Scalar::compose_strip(target, &color, alphas, compose);
        assert(final(scratch)@ =~= stripped(s0, x as int, width as int, alphas@, *paint));
    }

    /// Runs one wide-tile command on the scratch buffer, composited with `SrcOver`.
    pub fn run_cmd(&mut self, cmd: &Cmd, alphas: &[u32])
        requires
            cmd_fits(*cmd, alphas@.len() as int),
        ensures
            final(self).scratch@ == cmd_result(old(self).scratch@, *cmd, alphas@),
            final(self).width == old(self).width,
            final(self).height == old(self).height,
            final(self).out_buf == old(self).out_buf,
    {
        match cmd {
            Cmd::Fill(f) => {
                self.fill_scalar(f.x as usize, f.width as usize, &f.paint);
            },
            Cmd::Strip(s) => {
                let (_head, aslice) = alphas.split_at(s.alpha_ix);
                self.strip_scalar(s.x as usize, s.width as usize, aslice, &s.paint);
            },
        }
    }
}

/// The `SrcOver` fill of an opaque color is the `Copy` fill of that color.
proof fn lemma_opaque_src_over_is_copy_if(t: Seq<u8>, cs: Seq<u8>)
    requires
        cs.len() == 4,
    ensures
        cs[3] == 255 ==> fill_result(Compose::SrcOver, t, cs) == fill_result(Compose::Copy, t, cs),
{
    if cs[3] == 255 {
        lemma_opaque_src_over_is_copy(t, cs);
    }
}

} // verus!
