//! Strips for axis-aligned rectangles.
//!
//! A rectangle needs no tiling: its border is known from its corners, so its strips and
//! coverage masks can be laid out directly. The masks themselves (how much of each pixel
//! the rectangle covers) are given by the caller.

use vstd::prelude::*;
use crate::strip::Strip;

verus! {

/// The coverage masks of one horizontal edge of a rectangle (its top or bottom strip):
/// the leftmost column, the columns in between, and the rightmost column.
#[derive(Clone, Copy, Debug)]
pub struct EdgeMasks {
    pub left: u32,
    pub middle: u32,
    pub right: u32,
}

/// The pixel columns and strip rows of a rectangle's border: columns `x_start` to `x_end`
/// (both inclusive, the outer ones possibly only partly covered), and rows of strips
/// `top` to `bottom` (both inclusive).
#[derive(Clone, Copy, Debug)]
pub struct RectSpan {
    pub x_start: u32,
    pub x_end: u32,
    pub top: u32,
    pub bottom: u32,
}

/// The masks of a horizontal edge: the left column, then, when the rectangle spans more
/// than one column, the columns in between and the right column (`x_end` is inclusive).
pub open spec fn edge_alphas(span: RectSpan, e: EdgeMasks) -> Seq<u32> {
    let n = span.x_end - span.x_start;
    if n >= 1 {
        Seq::new((n + 1) as nat, |k: int| if k == 0 { e.left } else if k == n { e.right } else { e.middle })
    } else {
        seq![e.left]
    }
}

/// The number of masks of a horizontal edge: one per column from `x_start` to `x_end`.
pub open spec fn edge_len(span: RectSpan) -> int {
    if span.x_end > span.x_start { span.x_end - span.x_start + 1 } else { 1 }
}

/// The number of masks per row of strips between the top and bottom edges: the left
/// side, and the right side when it is another column.
pub open spec fn side_len(span: RectSpan) -> int {
    if span.x_end > span.x_start { 2 } else { 1 }
}

/// The number of rows of strips between the top and bottom edges.
pub open spec fn side_rows(span: RectSpan) -> int {
    if span.bottom > span.top + 1 { span.bottom - span.top - 1 } else { 0 }
}

/// The masks of the sides, row by row.
pub open spec fn side_alphas(span: RectSpan, left: u32, right: u32) -> Seq<u32> {
    Seq::new(
        (side_rows(span) * side_len(span)) as nat,
        |j: int| if j % side_len(span) == 0 { left } else { right },
    )
}

/// All masks of the rectangle: the top edge, then, when the rectangle spans more than
/// one row of strips, its sides and its bottom edge.
pub open spec fn rect_alphas(span: RectSpan, top: EdgeMasks, bottom: EdgeMasks, left: u32, right: u32) -> Seq<u32> {
    if span.top != span.bottom {
        edge_alphas(span, top) + side_alphas(span, left, right) + edge_alphas(span, bottom)
    } else {
        edge_alphas(span, top)
    }
}

/// The strips of the sides, row by row: the left side (winding 0), then the right side
/// (winding 1, which fills the pixels in between).
pub open spec fn side_strips(span: RectSpan, col0: int) -> Seq<Strip> {
    let per = side_len(span);
    Seq::new(
        (side_rows(span) * per) as nat,
        |j: int| {
            let row = span.top + 1 + j / per;
            if j % per == 0 {
                Strip { x: span.x_start, y: (row * 4) as u32, col: (col0 + j) as u32, winding: 0 }
            } else {
                Strip { x: span.x_end, y: (row * 4) as u32, col: (col0 + j) as u32, winding: 1 }
            }
        },
    )
}

/// All strips of the rectangle, whose masks start at `base` in the alpha buffer, ended by
/// a sentinel strip far outside any viewport.
pub open spec fn rect_strips(span: RectSpan, base: int) -> Seq<Strip> {
    let total = rect_alphas_len(span);
    let body = if span.top != span.bottom {
        seq![Strip { x: span.x_start, y: (span.top * 4) as u32, col: base as u32, winding: 0 }]
            + side_strips(span, base + edge_len(span))
            + seq![Strip {
                x: span.x_start,
                y: (span.bottom * 4) as u32,
                col: (base + edge_len(span) + side_rows(span) * side_len(span)) as u32,
                winding: 0,
            }]
    } else {
        seq![Strip { x: span.x_start, y: (span.top * 4) as u32, col: base as u32, winding: 0 }]
    };
    body.push(Strip { x: 65524, y: 65532, col: (base + total) as u32, winding: 0 })
}

/// The number of masks of the rectangle.
pub open spec fn rect_alphas_len(span: RectSpan) -> int {
    if span.top != span.bottom {
        2 * edge_len(span) + side_rows(span) * side_len(span)
    } else {
        edge_len(span)
    }
}

proof fn lemma_rect_alphas_len(span: RectSpan, top: EdgeMasks, bottom: EdgeMasks, left: u32, right: u32)
    requires
        span.x_start <= span.x_end,
    ensures
        rect_alphas(span, top, bottom, left, right).len() == rect_alphas_len(span),
        edge_alphas(span, top).len() == edge_len(span),
{
    assert(side_rows(span) * side_len(span) >= 0) by (nonlinear_arith)
        requires side_rows(span) >= 0, side_len(span) >= 1;
}

/// The mask of column `k` of a horizontal edge that spans `n + 1` columns: the left
/// mask first, the right mask last, the middle mask in between.
pub open spec fn edge_mask(e: EdgeMasks, n: int, k: int) -> u32 {
    if k == 0 { e.left } else if k == n { e.right } else { e.middle }
}

/// The rectangle's top edge is its first strip, at row `top`, with one mask per column
/// from `x_start` to `x_end`, the top edge masks. When the rectangle spans more than one
/// row of strips, however many rows lie between, the last strip before the sentinel is
/// its bottom edge, at row `bottom`, with one mask per column, the bottom edge masks;
/// the sentinel's masks start right after them. Otherwise the top edge is the only
/// strip before the sentinel.
pub proof fn lemma_rect_edges_carry_their_masks(
    span: RectSpan,
    top: EdgeMasks,
    bottom: EdgeMasks,
    left: u32,
    right: u32,
    base: int,
)
    requires
        span.x_start <= span.x_end,
        span.top <= span.bottom,
        span.bottom * 4 <= u32::MAX,
        0 <= base,
        base + rect_alphas_len(span) <= u32::MAX,
    ensures
        ({
            let strips = rect_strips(span, base);
            let alphas = rect_alphas(span, top, bottom, left, right);
            let n = span.x_end - span.x_start;
            &&& strips.len() >= 2
            &&& strips[0].x == span.x_start && strips[0].y == span.top * 4
            &&& strips[0].col == base && strips[0].winding == 0
            &&& forall|k: int| 0 <= k <= n ==> alphas[k] == edge_mask(top, n, k)
            &&& span.top == span.bottom ==> strips.len() == 2 && strips[1].col == base + n + 1
            &&& span.top != span.bottom ==> {
                let b = strips[strips.len() - 2];
                &&& strips.len() >= 3
                &&& b.x == span.x_start && b.y == span.bottom * 4 && b.winding == 0
                &&& base <= b.col
                &&& strips.last().col == b.col + n + 1
                &&& alphas.len() == b.col - base + n + 1
                &&& forall|k: int| 0 <= k <= n ==> alphas[b.col - base + k] == edge_mask(bottom, n, k)
            }
        }),
{
    lemma_rect_alphas_len(span, top, bottom, left, right);
    assert(side_rows(span) * side_len(span) >= 0) by (nonlinear_arith)
        requires side_rows(span) >= 0, side_len(span) >= 1;
    let strips = rect_strips(span, base);
    let alphas = rect_alphas(span, top, bottom, left, right);
    let n = span.x_end - span.x_start;
    let et = edge_alphas(span, top);
    assert forall|k: int| 0 <= k <= n implies alphas[k] == edge_mask(top, n, k) by {
        assert(alphas[k] == et[k]);
    }
    if span.top != span.bottom {
        let mid = side_rows(span) * side_len(span);
        let b = strips[strips.len() - 2];
        assert(b.col == base + edge_len(span) + mid);
        let eb = edge_alphas(span, bottom);
        assert forall|k: int| 0 <= k <= n implies alphas[b.col - base + k] == edge_mask(bottom, n, k) by {
            assert(alphas[b.col - base + k] == eb[k]);
        }
    }
}

/// Each row of strips strictly between the top and bottom edges gets a strip of one
/// column at `x_start` with the left side's mask and winding 0; when the rectangle spans
/// more than one column it also gets a strip of one column at `x_end` with the right
/// side's mask and winding 1, so the pixels between the sides are filled.
pub proof fn lemma_rect_sides_carry_their_masks(
    span: RectSpan,
    top: EdgeMasks,
    bottom: EdgeMasks,
    left: u32,
    right: u32,
    base: int,
    row: int,
)
    requires
        span.x_start <= span.x_end,
        span.top <= span.bottom,
        span.bottom * 4 <= u32::MAX,
        0 <= base,
        base + rect_alphas_len(span) <= u32::MAX,
        span.top < row < span.bottom,
    ensures
        ({
            let strips = rect_strips(span, base);
            let alphas = rect_alphas(span, top, bottom, left, right);
            &&& exists|j: int|
                0 <= j < strips.len() - 1 && (#[trigger] strips[j]).x == span.x_start && strips[j].y == row * 4
                    && strips[j].winding == 0 && strips[j + 1].col == strips[j].col + 1 && base <= strips[j].col
                    && alphas[strips[j].col - base] == left
            &&& span.x_end > span.x_start ==> exists|j: int|
                0 <= j < strips.len() - 1 && (#[trigger] strips[j]).x == span.x_end && strips[j].y == row * 4
                    && strips[j].winding == 1 && strips[j + 1].col == strips[j].col + 1 && base <= strips[j].col
                    && alphas[strips[j].col - base] == right
        }),
{
    lemma_rect_alphas_len(span, top, bottom, left, right);
    let per = side_len(span);
    let rows = side_rows(span);
    assert(rows * per >= 0) by (nonlinear_arith)
        requires rows >= 0, per >= 1;
    let strips = rect_strips(span, base);
    let alphas = rect_alphas(span, top, bottom, left, right);
    let ss = side_strips(span, base + edge_len(span));
    let sa = side_alphas(span, left, right);
    let e = edge_len(span);
    let q = row - span.top - 1;
    assert(0 <= q < rows);
    assert(q * per + per <= rows * per) by (nonlinear_arith)
        requires 0 <= q < rows, per >= 1;
    assert((q * per) % per == 0 && (q * per) / per == q) by (nonlinear_arith)
        requires per >= 1, q >= 0;
    let jl = 1 + q * per;
    assert(strips[jl] == ss[q * per]);
    assert(alphas[e + q * per] == sa[q * per]);
    if q * per + 1 < rows * per {
        assert(strips[jl + 1] == ss[q * per + 1]);
    }
    assert(strips[jl].x == span.x_start && strips[jl].y == row * 4);
    if per == 2 {
        assert((q * 2 + 1) % 2 == 1 && (q * 2 + 1) / 2 == q) by (nonlinear_arith)
            requires q >= 0;
        let jr = jl + 1;
        assert(strips[jr] == ss[q * per + 1]);
        assert(alphas[e + q * per + 1] == sa[q * per + 1]);
        if q * per + 2 < rows * per {
            assert(strips[jr + 1] == ss[q * per + 2]);
        }
        assert(strips[jr].x == span.x_end && strips[jr].y == row * 4);
    }
}

/// Pushes the masks of one horizontal edge and its strip.
fn push_edge(strip_buf: &mut Vec<Strip>, alpha_buf: &mut Vec<u32>, span: RectSpan, e: EdgeMasks, strip_y: u32)
    requires
        span.x_start <= span.x_end,
        old(alpha_buf)@.len() + edge_len(span) <= u32::MAX,
    ensures
        final(alpha_buf)@ == old(alpha_buf)@ + edge_alphas(span, e),
        final(strip_buf)@ == old(strip_buf)@.push(
            Strip { x: span.x_start, y: strip_y, col: old(alpha_buf)@.len() as u32, winding: 0 },
        ),
{
    let col = alpha_buf.len() as u32;
    let ghost a0 = alpha_buf@;
    alpha_buf.push(e.left);
    if span.x_end > span.x_start {
        let mut x = span.x_start + 1;
        while x < span.x_end
            invariant
                span.x_start + 1 <= x <= span.x_end,
                span.x_end > span.x_start,
                alpha_buf@.len() == a0.len() + (x - span.x_start),
                alpha_buf@ =~= a0 + edge_alphas(span, e).subrange(0, x - span.x_start),
                a0.len() + edge_len(span) <= u32::MAX,
            decreases span.x_end - x,
        {
            alpha_buf.push(e.middle);
            x += 1;
        }
        alpha_buf.push(e.right);
    }
    assert(alpha_buf@ =~= a0 + edge_alphas(span, e));
    strip_buf.push(Strip { x: span.x_start, y: strip_y, col, winding: 0 });
}

/// Lays out the strips and coverage masks of an axis-aligned rectangle.
///
/// The top edge gets one strip with a mask per column; when the rectangle spans more
/// than one row of strips, each row in between gets a strip for its left side and, if it
/// is another column, one for its right side whose winding fills the pixels between them,
/// and the bottom edge gets a strip like the top. A sentinel strip ends the buffer. The
/// strip buffer is replaced; the masks are appended to the alpha buffer.
pub fn push_rect_strips(
    strip_buf: &mut Vec<Strip>,
    alpha_buf: &mut Vec<u32>,
    span: RectSpan,
    top: EdgeMasks,
    bottom: EdgeMasks,
    left: u32,
    right: u32,
)
    requires
        span.x_start <= span.x_end,
        span.top <= span.bottom,
        span.bottom * 4 <= u32::MAX,
        old(alpha_buf)@.len() + rect_alphas_len(span) <= u32::MAX,
    ensures
        final(alpha_buf)@ == old(alpha_buf)@ + rect_alphas(span, top, bottom, left, right),
        final(strip_buf)@ == rect_strips(span, old(alpha_buf)@.len() as int),
{
    let ghost a0 = alpha_buf@;
    let ghost base = a0.len() as int;
    proof {
        lemma_rect_alphas_len(span, top, bottom, left, right);
        assert(side_rows(span) * side_len(span) >= 0) by (nonlinear_arith)
            requires side_rows(span) >= 0, side_len(span) >= 1;
    }
    strip_buf.clear();
    push_edge(strip_buf, alpha_buf, span, top, span.top * 4);

    if span.top != span.bottom {
        let ghost a1 = alpha_buf@;
        let ghost s1 = strip_buf@;
        let ghost per = side_len(span);
        let mut i = span.top + 1;
        while i < span.bottom
            invariant
                span.top + 1 <= i <= span.bottom,
                span.top < span.bottom,
                span.x_start <= span.x_end,
                span.bottom * 4 <= u32::MAX,
                per == side_len(span),
                a1 == a0 + edge_alphas(span, top),
                a1.len() == base + edge_len(span),
                base + rect_alphas_len(span) <= u32::MAX,
                side_rows(span) * per >= 0,
                alpha_buf@ == a1 + side_alphas(span, left, right).subrange(0, (i - span.top - 1) * per),
                strip_buf@ == s1 + side_strips(span, base + edge_len(span)).subrange(0, (i - span.top - 1) * per),
                (i - span.top - 1) * per <= side_rows(span) * per,
            decreases span.bottom - i,
        {
            let ghost k = (i - span.top - 1) as int;
            proof {
                assert((k + 1) * per <= side_rows(span) * per) by (nonlinear_arith)
                    requires k + 1 <= side_rows(span), per >= 1;
                assert(k * per + per == (k + 1) * per) by (nonlinear_arith);
            }
            let col = alpha_buf.len() as u32;
            alpha_buf.push(left);
            strip_buf.push(Strip { x: span.x_start, y: i * 4, col, winding: 0 });
            if span.x_end > span.x_start {
                let col = alpha_buf.len() as u32;
                alpha_buf.push(right);
                strip_buf.push(Strip { x: span.x_end, y: i * 4, col, winding: 1 });
            }
            proof {
                let sa = side_alphas(span, left, right);
                let ss = side_strips(span, base + edge_len(span));
                assert((k * per) % per == 0 && (k * per) / per == k) by (nonlinear_arith)
                    requires per >= 1, k >= 0;
                if per == 2 {
                    assert((k * 2 + 1) % 2 == 1 && (k * 2 + 1) / 2 == k) by (nonlinear_arith)
                        requires k >= 0;
                }
                assert(alpha_buf@ =~= a1 + sa.subrange(0, (k + 1) * per));
                assert(strip_buf@ =~= s1 + ss.subrange(0, (k + 1) * per));
            }
            i += 1;
        }
        proof {
            let rows = side_rows(span);
            assert(i - span.top - 1 == rows);
            assert(alpha_buf@ =~= a1 + side_alphas(span, left, right));
            assert(strip_buf@ =~= s1 + side_strips(span, base + edge_len(span)));
        }
        push_edge(strip_buf, alpha_buf, span, bottom, span.bottom * 4);
        assert(alpha_buf@ =~= a0 + rect_alphas(span, top, bottom, left, right));
    }
    let end_col = alpha_buf.len() as u32;
    strip_buf.push(Strip { x: 65524, y: 65532, col: end_col, winding: 0 });
    assert(strip_buf@ =~= rect_strips(span, base));
}

} // verus!
