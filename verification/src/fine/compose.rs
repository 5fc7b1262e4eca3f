//! Porter-Duff compositing of 8-bit premultiplied RGBA channels.

use vstd::prelude::*;
use crate::fine::{fill, strip};

verus! {

/// Number of color components of a pixel.
pub const COLOR_COMPONENTS: usize = 4;

/// Number of bytes in one column of a strip (4 pixels of 4 components).
pub const TOTAL_STRIP_HEIGHT: usize = 16;

/// The Porter-Duff compositing operators.
#[derive(Clone, Copy, Debug, PartialEq, Eq, Structural)]
pub enum Compose {
    Clear,
    Copy,
    Dest,
    SrcOver,
    DestOver,
    SrcIn,
    DestIn,
    SrcOut,
    DestOut,
    SrcAtop,
    DestAtop,
    Xor,
    Plus,
    PlusLighter,
}

/// `a * b / 255`, rounded down.
pub open spec fn mul_div255(a: int, b: int) -> int {
    a * b / 255
}

/// A color given as 4 premultiplied channels: no color channel exceeds alpha.
pub open spec fn premultiplied(c: Seq<u8>) -> bool {
    &&& c.len() == 4
    &&& c[0] <= c[3]
    &&& c[1] <= c[3]
    &&& c[2] <= c[3]
}

/// The operators that a solid fill supports.
pub open spec fn fill_supported(op: Compose) -> bool {
    match op {
        Compose::Copy | Compose::SrcOver | Compose::DestOver | Compose::SrcAtop
        | Compose::DestOut | Compose::Xor | Compose::Plus | Compose::Dest
        | Compose::Clear => true,
        _ => false,
    }
}

/// The new value of one channel `cb` of the backdrop, when the channel `cs` of the
/// source is composited onto it; `as_` and `ab` are the alphas of source and backdrop.
pub open spec fn fill_channel(op: Compose, cb: int, cs: int, as_: int, ab: int) -> int {
    match op {
        Compose::Copy => cs,
        Compose::SrcOver => cs + mul_div255(cb, 255 - as_),
        Compose::DestOver => mul_div255(cs, 255 - ab) + cb,
        Compose::SrcAtop => mul_div255(cs, ab) + mul_div255(cb, 255 - as_),
        Compose::DestOut => mul_div255(cb, 255 - as_),
        Compose::Xor => mul_div255(cs, 255 - ab) + mul_div255(cb, 255 - as_),
        Compose::Plus => if cs + cb > 255 { 255 } else { cs + cb },
        Compose::Clear => 0,
        _ => cb,
    }
}

/// How many leading bytes of a target of `len` bytes an operator rewrites: the
/// operators work on whole strip columns or whole pixels and leave a trailing
/// remainder alone.
pub open spec fn processed_len(op: Compose, len: int) -> int {
    match op {
        Compose::Copy | Compose::SrcOver | Compose::Plus => len / 16 * 16,
        Compose::DestOver | Compose::SrcAtop | Compose::DestOut | Compose::Xor => len / 4 * 4,
        Compose::Clear => len,
        _ => 0,
    }
}

/// The channel value that a fill with `op` and source `cs` leaves at position `k`.
pub open spec fn fill_at(op: Compose, t: Seq<u8>, cs: Seq<u8>, k: int) -> int {
    fill_channel(op, t[k] as int, cs[k % 4] as int, cs[3] as int, t[k - k % 4 + 3] as int)
}

/// The byte at position `k` after a solid fill of the source color `cs` with `op`.
pub open spec fn fill_elem(op: Compose, t: Seq<u8>, cs: Seq<u8>, k: int) -> u8 {
    if k < processed_len(op, t.len() as int) {
        fill_at(op, t, cs, k) as u8
    } else {
        t[k]
    }
}

/// The target after a solid fill of the source color `cs` with the operator `op`.
pub open spec fn fill_result(op: Compose, t: Seq<u8>, cs: Seq<u8>) -> Seq<u8> {
    Seq::new(t.len(), |k: int| fill_elem(op, t, cs, k))
}

/// No channel of a fill result leaves the range of a byte.
pub open spec fn fill_fits(op: Compose, t: Seq<u8>, cs: Seq<u8>) -> bool {
    forall|k: int| 0 <= k < processed_len(op, t.len() as int) ==> #[trigger] fill_at(op, t, cs, k) <= 255
}

/// The alpha of row `j` of a strip column, packed as one byte per row.
pub open spec fn alpha_byte(mask: u32, j: int) -> int {
    ((mask >> ((j * 8) as u32)) & 0xffu32) as int
}

/// The value `(cb * (255 - am * as / 255) + cs * am)`, before the final division by 255.
pub open spec fn strip_sum(cb: int, cs: int, as_: int, am: int) -> int {
    cb * (255 - mul_div255(am, as_)) + cs * am
}

/// The number of leading bytes that a strip composite rewrites: whole columns, as many
/// as there are both in the target and in the alpha masks.
pub open spec fn strip_processed_len(len: int, n_alphas: int) -> int {
    if len / 16 < n_alphas { len / 16 * 16 } else { n_alphas * 16 }
}

/// The sum for position `k` of a strip composite.
pub open spec fn strip_sum_at(t: Seq<u8>, cs: Seq<u8>, alphas: Seq<u32>, k: int) -> int {
    strip_sum(t[k] as int, cs[k % 4] as int, cs[3] as int, alpha_byte(alphas[k / 16], (k % 16) / 4))
}

/// The target after compositing the source color `cs` with `SrcOver`, masked by the
/// per-pixel coverages in `alphas` (one `u32` per strip column).
pub open spec fn strip_result(t: Seq<u8>, cs: Seq<u8>, alphas: Seq<u32>) -> Seq<u8> {
    Seq::new(
        t.len(),
        |k: int|
            if k < strip_processed_len(t.len() as int, alphas.len() as int) {
                (strip_sum_at(t, cs, alphas, k) / 255) as u8
            } else {
                t[k]
            },
    )
}

/// No intermediate sum of a strip composite leaves the range where `div_255` is exact.
pub open spec fn strip_fits(t: Seq<u8>, cs: Seq<u8>, alphas: Seq<u32>) -> bool {
    forall|k: int|
        0 <= k < strip_processed_len(t.len() as int, alphas.len() as int)
            ==> #[trigger] strip_sum_at(t, cs, alphas, k) < 65280
}

/// Bounds on products of two bytes.
pub proof fn lemma_byte_products(a: int, b: int)
    requires
        0 <= a <= 255,
        0 <= b <= 255,
    ensures
        0 <= a * b <= 65025,
        0 <= mul_div255(a, b) <= a,
        mul_div255(a, b) <= b,
{
    assert(0 <= a * b <= 65025) by (nonlinear_arith)
        requires 0 <= a <= 255, 0 <= b <= 255;
    assert(a * b / 255 <= a) by (nonlinear_arith)
        requires 0 <= a <= 255, 0 <= b <= 255;
    assert(a * b / 255 <= b) by (nonlinear_arith)
        requires 0 <= a <= 255, 0 <= b <= 255;
}

/// Divides by 255 with shifts and additions.
///
/// The result is exactly `val / 255` for every `val` on which the additions do not
/// overflow.
pub fn div_255(val: u16) -> (r: u16)
    requires
        val < 65280,
    ensures
        r == val / 255,
{
    proof {
        assert(val + 1 + (val >> 8u16) <= 65535 && ((val + 1 + (val >> 8u16)) as u16) >> 8u16 == val / 255)
            by (bit_vector)
            requires val < 65280u16;
    }
    (val + 1 + (val >> 8)) >> 8
}

/// Repeats a pixel 4 times, giving one strip column.
pub fn splat_x4(val: &[u8; COLOR_COMPONENTS]) -> (r: [u8; 16])
    ensures
        forall|i: int| 0 <= i < 16 ==> #[trigger] r@[i] == val@[i % 4],
{
    let mut buf = [0u8; 16];
    let mut i: usize = 0;
    while i < 4
        invariant
            0 <= i <= 4,
            forall|k: int| 0 <= k < i * 4 ==> #[trigger] buf@[k] == val@[k % 4],
        decreases 4 - i,
    {
        let mut c: usize = 0;
        while c < COLOR_COMPONENTS
            invariant
                0 <= i < 4,
                0 <= c <= 4,
                forall|k: int| 0 <= k < i * 4 + c ==> #[trigger] buf@[k] == val@[k % 4],
            decreases 4 - c,
        {
            buf[i * COLOR_COMPONENTS + c] = val[c];
            c += 1;
        }
        i += 1;
    }
    buf
}

/// The scalar (portable) compositing kernels.
pub struct Scalar;

impl Scalar {
    /// Fills `target` with the source pixel `cs`, composited with `compose`.
    pub fn compose_fill(target: &mut [u8], cs: &[u8; COLOR_COMPONENTS], compose: Compose)
        requires
            fill_supported(compose),
            fill_fits(compose, old(target)@, cs@),
        ensures
            final(target)@ == fill_result(compose, old(target)@, cs@),
    {
        match compose {
            Compose::Copy => fill::src_copy(target, cs),
            Compose::SrcOver => fill::src_over(target, cs),
            Compose::DestOver => fill::dest_over(target, cs),
            Compose::SrcAtop => fill::src_atop(target, cs),
            Compose::DestOut => fill::dest_out(target, cs),
            Compose::Xor => fill::xor(target, cs),
            Compose::Plus => fill::plus(target, cs),
            Compose::Dest => fill::dest(target, cs),
            Compose::Clear => fill::clear(target, cs),
            _ => {},
        }
    }

    /// Composites the source pixel `cs` into `target` through the coverage masks in
    /// `alphas`; only `SrcOver` is supported.
    pub fn compose_strip(
        target: &mut [u8],
        cs: &[u8; COLOR_COMPONENTS],
        alphas: &[u32],
        compose: Compose,
    )
        requires
            compose == Compose::SrcOver,
            strip_fits(old(target)@, cs@, alphas@),
        ensures
            final(target)@ == strip_result(old(target)@, cs@, alphas@),
    {
        match compose {
            Compose::SrcOver => strip::src_over(target, cs, alphas),
            _ => {},
        }
    }
}

/// Every pixel of `t` is premultiplied (its color channels do not exceed its alpha).
pub open spec fn pixels_premultiplied(t: Seq<u8>) -> bool {
    forall|k: int|
        0 <= k < t.len() / 4 * 4 && k % 4 < 3 ==> #[trigger] t[k] <= t[k - k % 4 + 3]
}

/// A premultiplied source never overflows a fill with `SrcOver`, `SrcAtop`, `Xor`,
/// `Copy`, `DestOut`, `Plus`, `Dest` or `Clear`; with `DestOver` it does not either
/// when the backdrop is premultiplied too.
pub proof fn lemma_premultiplied_fill_fits(op: Compose, t: Seq<u8>, cs: Seq<u8>)
    requires
        fill_supported(op),
        premultiplied(cs),
        op == Compose::DestOver ==> pixels_premultiplied(t),
    ensures
        fill_fits(op, t, cs),
{
    assert forall|k: int| 0 <= k < processed_len(op, t.len() as int) implies
        #[trigger] fill_at(op, t, cs, k) <= 255 by {
        let cb = t[k] as int;
        let c = cs[k % 4] as int;
        let a = cs[3] as int;
        let ab = t[k - k % 4 + 3] as int;
        assert(0 <= k % 4 < 4);
        assert(c <= a);
        lemma_byte_products(cb, 255 - a);
        lemma_byte_products(c, 255 - ab);
        lemma_byte_products(c, ab);
        if op == Compose::DestOver {
            assert(k < t.len() / 4 * 4) by {
                assert(t.len() / 4 * 4 <= t.len());
            }
            if k % 4 < 3 {
                assert(cb <= ab);
            }
            assert(mul_div255(c, 255 - ab) <= 255 - ab) by {
                lemma_byte_products(c, 255 - ab);
            }
        }
        if op == Compose::SrcOver {
            assert(mul_div255(cb, 255 - a) <= 255 - a);
        }
        if op == Compose::SrcAtop {
            assert(mul_div255(c, ab) <= c);
            assert(mul_div255(cb, 255 - a) <= 255 - a);
        }
        if op == Compose::Xor {
            assert(mul_div255(c, 255 - ab) <= c);
            assert(mul_div255(cb, 255 - a) <= 255 - a);
        }
    }
}

/// A premultiplied source never overflows a strip composite.
pub proof fn lemma_premultiplied_strip_fits(t: Seq<u8>, cs: Seq<u8>, alphas: Seq<u32>)
    requires
        premultiplied(cs),
    ensures
        strip_fits(t, cs, alphas),
{
    assert forall|k: int| 0 <= k < strip_processed_len(t.len() as int, alphas.len() as int) implies
        #[trigger] strip_sum_at(t, cs, alphas, k) < 65280 by {
        let m = alphas[k / 16];
        let j = (k % 16) / 4;
        let s = ((j * 8) as u32);
        assert((m >> s) & 0xffu32 <= 255u32) by (bit_vector);
        let am = alpha_byte(m, j);
        assert(0 <= k % 4 < 4);
        lemma_strip_sum_bound(t[k] as int, cs[k % 4] as int, cs[3] as int, am);
    }
}

/// `cb * (255 - am * as / 255) + cs * am < 65280` whenever `cs <= as`.
pub proof fn lemma_strip_sum_bound(cb: int, cs: int, as_: int, am: int)
    requires
        0 <= cb <= 255,
        0 <= cs <= as_,
        as_ <= 255,
        0 <= am <= 255,
    ensures
        0 <= strip_sum(cb, cs, as_, am) < 65280,
{
    let q = am * as_ / 255;
    assert(0 <= q <= 255 && am * as_ - 255 * q < 255 && am * as_ - 255 * q >= 0) by (nonlinear_arith)
        requires 0 <= as_ <= 255, 0 <= am <= 255, q == am * as_ / 255;
    assert(cb * (255 - q) <= 255 * (255 - q)) by (nonlinear_arith)
        requires 0 <= cb <= 255, 0 <= q <= 255;
    assert(cs * am <= as_ * am) by (nonlinear_arith)
        requires 0 <= cs <= as_, 0 <= am;
    assert(0 <= cb * (255 - q)) by (nonlinear_arith)
        requires 0 <= cb, q <= 255;
    assert(0 <= cs * am) by (nonlinear_arith)
        requires 0 <= cs, 0 <= am;
    assert(as_ * am == am * as_) by (nonlinear_arith);
}

/// With an opaque source, `SrcOver` gives the same result as `Copy` (the source
/// replaces the backdrop).
pub proof fn lemma_opaque_src_over_is_copy(t: Seq<u8>, cs: Seq<u8>)
    requires
        cs.len() == 4,
        cs[3] == 255,
    ensures
        fill_result(Compose::SrcOver, t, cs) == fill_result(Compose::Copy, t, cs),
{
    assert forall|k: int| 0 <= k < t.len() implies
        fill_elem(Compose::SrcOver, t, cs, k) == fill_elem(Compose::Copy, t, cs, k) by {
        assert(mul_div255(t[k] as int, 0) == 0);
    }
    assert(fill_result(Compose::SrcOver, t, cs) =~= fill_result(Compose::Copy, t, cs));
}

/// Compositing through a mask of full coverage (every mask byte 255) gives the same
/// result as a plain `SrcOver` fill, on the columns that the mask covers.
pub proof fn lemma_full_coverage_strip_is_fill(t: Seq<u8>, cs: Seq<u8>, alphas: Seq<u32>)
    requires
        cs.len() == 4,
        t.len() % 16 == 0,
        alphas.len() == t.len() / 16,
        forall|i: int| 0 <= i < alphas.len() ==> #[trigger] alphas[i] == 0xffff_ffffu32,
    ensures
        strip_result(t, cs, alphas) == fill_result(Compose::SrcOver, t, cs),
{
    assert forall|k: int| 0 <= k < t.len() implies
        strip_result(t, cs, alphas)[k] == fill_result(Compose::SrcOver, t, cs)[k] by {
        let j = (k % 16) / 4;
        assert(0 <= j < 4);
        let s = ((j * 8) as u32);
        assert((0xffff_ffffu32 >> s) & 0xffu32 == 255u32) by (bit_vector)
            requires s == 0 || s == 8 || s == 16 || s == 24;
        assert(k / 16 < alphas.len());
        let cb = t[k] as int;
        let c = cs[k % 4] as int;
        let a = cs[3] as int;
        assert(mul_div255(255, a) == a);
        assert((cb * (255 - a) + c * 255) / 255 == c + cb * (255 - a) / 255) by (nonlinear_arith);
    }
    assert(strip_result(t, cs, alphas) =~= fill_result(Compose::SrcOver, t, cs));
}

/// Compositing through a mask of zero coverage leaves the target unchanged.
pub proof fn lemma_zero_coverage_strip_is_identity(t: Seq<u8>, cs: Seq<u8>, alphas: Seq<u32>)
    requires
        cs.len() == 4,
        forall|i: int| 0 <= i < alphas.len() ==> #[trigger] alphas[i] == 0u32,
    ensures
        strip_result(t, cs, alphas) == t,
{
    assert forall|k: int| 0 <= k < t.len() implies strip_result(t, cs, alphas)[k] == t[k] by {
        if k < strip_processed_len(t.len() as int, alphas.len() as int) {
            let j = (k % 16) / 4;
            assert(0 <= j < 4);
            let s = ((j * 8) as u32);
            assert((0u32 >> s) & 0xffu32 == 0u32) by (bit_vector);
            assert(k / 16 < alphas.len());
            assert(mul_div255(0, cs[3] as int) == 0);
            assert((t[k] as int * 255) / 255 == t[k] as int) by (nonlinear_arith);
        }
    }
    assert(strip_result(t, cs, alphas) =~= t);
}

/// Compositing a premultiplied color over premultiplied pixels with `SrcOver` keeps
/// them premultiplied: no color channel ends up above its pixel's alpha.
pub proof fn lemma_src_over_keeps_premultiplied(t: Seq<u8>, cs: Seq<u8>)
    requires
        pixels_premultiplied(t),
        premultiplied(cs),
        fill_fits(Compose::SrcOver, t, cs),
    ensures
        pixels_premultiplied(fill_result(Compose::SrcOver, t, cs)),
{
    let r = fill_result(Compose::SrcOver, t, cs);
    let n = processed_len(Compose::SrcOver, t.len() as int);
    assert forall|k: int| 0 <= k < r.len() / 4 * 4 && k % 4 < 3 implies #[trigger] r[k] <= r[k - k % 4 + 3] by {
        let ka = k - k % 4 + 3;
        assert(0 <= k % 4 < 3);
        assert(ka < t.len() / 4 * 4);
        assert(t[k] <= t[ka]);
        assert(k < n <==> ka < n) by {
            assert(n == t.len() / 16 * 16);
            assert(k < n ==> ka < n) by (nonlinear_arith)
                requires n == t.len() / 16 * 16, ka == k - k % 4 + 3, 0 <= k, k % 4 < 3;
        }
        if k < n {
            let a = cs[3] as int;
            let cb = t[k] as int;
            let ab = t[ka] as int;
            assert(ka % 4 == 3);
            assert(cs[k % 4] <= cs[3]);
            assert(fill_at(Compose::SrcOver, t, cs, k) <= 255);
            assert(fill_at(Compose::SrcOver, t, cs, ka) <= 255);
            assert(mul_div255(cb, 255 - a) <= mul_div255(ab, 255 - a)) by (nonlinear_arith)
                requires 0 <= cb <= ab, 0 <= a <= 255;
        }
    }
}

/// Compositing a premultiplied color through coverage masks over premultiplied pixels
/// keeps them premultiplied.
pub proof fn lemma_strip_keeps_premultiplied(t: Seq<u8>, cs: Seq<u8>, alphas: Seq<u32>)
    requires
        pixels_premultiplied(t),
        premultiplied(cs),
    ensures
        pixels_premultiplied(strip_result(t, cs, alphas)),
{
    lemma_premultiplied_strip_fits(t, cs, alphas);
    let r = strip_result(t, cs, alphas);
    let n = strip_processed_len(t.len() as int, alphas.len() as int);
    assert forall|k: int| 0 <= k < r.len() / 4 * 4 && k % 4 < 3 implies #[trigger] r[k] <= r[k - k % 4 + 3] by {
        let ka = k - k % 4 + 3;
        assert(0 <= k % 4 < 3);
        assert(ka < t.len() / 4 * 4);
        assert(t[k] <= t[ka]);
        assert(n % 16 == 0 && n <= t.len()) by (nonlinear_arith)
            requires n == (if t.len() / 16 < alphas.len() { t.len() / 16 * 16 } else { alphas.len() * 16 }),
                t.len() >= 0, alphas.len() >= 0, t.len() / 16 >= alphas.len() ==> alphas.len() * 16 <= t.len();
        assert(k < n <==> ka < n) by (nonlinear_arith)
            requires n % 16 == 0, ka == k - k % 4 + 3, 0 <= k, k % 4 < 3, n >= 0;
        if k < n {
            assert(ka / 16 == k / 16 && (ka % 16) / 4 == (k % 16) / 4 && ka % 4 == 3) by (nonlinear_arith)
                requires ka == k - k % 4 + 3, 0 <= k;
            let am = alpha_byte(alphas[k / 16], (k % 16) / 4);
            let j = (k % 16) / 4;
            let m = alphas[k / 16];
            let sh = ((j * 8) as u32);
            assert((m >> sh) & 0xffu32 <= 255u32) by (bit_vector);
            let q = mul_div255(am, cs[3] as int);
            assert(0 <= q <= 255) by (nonlinear_arith)
                requires q == am * (cs[3] as int) / 255, 0 <= am <= 255, 0 <= cs[3] <= 255;
            let cb = t[k] as int;
            let ab = t[ka] as int;
            let c = cs[k % 4] as int;
            let a = cs[3] as int;
            assert(c <= a);
            assert(strip_sum(cb, c, a, am) <= strip_sum(ab, a, a, am)) by (nonlinear_arith)
                requires 0 <= cb <= ab, 0 <= c <= a, 0 <= am, 0 <= q <= 255,
                    q == mul_div255(am, a);
            assert(strip_sum(cb, c, a, am) / 255 <= strip_sum(ab, a, a, am) / 255) by (nonlinear_arith)
                requires strip_sum(cb, c, a, am) <= strip_sum(ab, a, a, am);
        }
    }
}

} // verus!
