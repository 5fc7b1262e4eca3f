//! Solid fills of a target buffer with one source pixel, per compositing operator.
//!
//! All colors are premultiplied. The formulas follow the W3C compositing
//! specification, with `Cs`/`αs` for the source and `Cb`/`αb` for the backdrop.
//! Operators that work on whole strip columns handle the target 16 bytes at a time,
//! the others one pixel (4 bytes) at a time; a trailing remainder is left alone.

use vstd::prelude::*;
use crate::fine::compose::{
    div_255, fill_at, fill_elem, fill_fits, fill_result, lemma_byte_products, processed_len,
    splat_x4, Compose, COLOR_COMPONENTS, TOTAL_STRIP_HEIGHT,
};

verus! {

proof fn lemma_mod16_mod4(k: int)
    requires
        0 <= k,
    ensures
        (k % 16) % 4 == k % 4,
{
    assert((k % 16) % 4 == k % 4) by (nonlinear_arith)
        requires 0 <= k;
}

proof fn lemma_pixel_index(p: int, i: int)
    requires
        0 <= p,
        0 <= i < 4,
    ensures
        (p * 4 + i) % 4 == i,
        (p * 4 + i) - (p * 4 + i) % 4 + 3 == p * 4 + 3,
{
    assert((p * 4 + i) % 4 == i) by (nonlinear_arith)
        requires 0 <= p, 0 <= i < 4;
}

/// Composite using `SrcOver` (Cs + Cb * (1 – αs)).
pub fn src_over(target: &mut [u8], cs: &[u8; COLOR_COMPONENTS])
    requires
        fill_fits(Compose::SrcOver, old(target)@, cs@),
    ensures
        final(target)@ == fill_result(Compose::SrcOver, old(target)@, cs@),
{
    let _as = cs[3];
    let cs4 = splat_x4(cs);
    let inv_as = (255 - _as) as u16;
    let n = target.len() / TOTAL_STRIP_HEIGHT * TOTAL_STRIP_HEIGHT;
    let ghost t0 = target@;
    let mut k: usize = 0;
    while k < n
        invariant
            t0 == old(target)@,
            fill_fits(Compose::SrcOver, t0, cs@),
            n == processed_len(Compose::SrcOver, t0.len() as int),
            n <= t0.len(),
            target@.len() == t0.len(),
            inv_as == 255 - cs@[3],
            forall|i: int| 0 <= i < 16 ==> #[trigger] cs4@[i] == cs@[i % 4],
            0 <= k <= n,
            forall|m: int| 0 <= m < k ==> #[trigger] target@[m] == fill_elem(Compose::SrcOver, t0, cs@, m),
            forall|m: int| k <= m < t0.len() ==> #[trigger] target@[m] == t0[m],
        decreases n - k,
    {
        let cb = target[k];
        proof {
            lemma_byte_products(cb as int, inv_as as int);
            assert(fill_at(Compose::SrcOver, t0, cs@, k as int) <= 255);
            lemma_mod16_mod4(k as int);
        }
        let d = div_255(cb as u16 * inv_as);
        target[k] = cs4[k % TOTAL_STRIP_HEIGHT] + d as u8;
        assert(target@[k as int] == fill_elem(Compose::SrcOver, t0, cs@, k as int));
        k += 1;
    }
    assert(target@ =~= fill_result(Compose::SrcOver, t0, cs@));
}

/// Composite using `SrcCopy` (Cs).
pub fn src_copy(target: &mut [u8], cs: &[u8; COLOR_COMPONENTS])
    ensures
        final(target)@ == fill_result(Compose::Copy, old(target)@, cs@),
{
    let cs4 = splat_x4(cs);
    let n = target.len() / TOTAL_STRIP_HEIGHT * TOTAL_STRIP_HEIGHT;
    let ghost t0 = target@;
    let mut k: usize = 0;
    while k < n
        invariant
            t0 == old(target)@,
            n == processed_len(Compose::Copy, t0.len() as int),
            n <= t0.len(),
            target@.len() == t0.len(),
            forall|i: int| 0 <= i < 16 ==> #[trigger] cs4@[i] == cs@[i % 4],
            0 <= k <= n,
            forall|m: int| 0 <= m < k ==> #[trigger] target@[m] == fill_elem(Compose::Copy, t0, cs@, m),
            forall|m: int| k <= m < t0.len() ==> #[trigger] target@[m] == t0[m],
        decreases n - k,
    {
        proof {
            lemma_mod16_mod4(k as int);
        }
        target[k] = cs4[k % TOTAL_STRIP_HEIGHT];
        assert(target@[k as int] == fill_elem(Compose::Copy, t0, cs@, k as int));
        k += 1;
    }
    assert(target@ =~= fill_result(Compose::Copy, t0, cs@));
}

/// Composite using `Plus` (Cs + Cb), saturating at 255.
pub fn plus(target: &mut [u8], cs: &[u8; COLOR_COMPONENTS])
    ensures
        final(target)@ == fill_result(Compose::Plus, old(target)@, cs@),
{
    let cs4 = splat_x4(cs);
    let n = target.len() / TOTAL_STRIP_HEIGHT * TOTAL_STRIP_HEIGHT;
    let ghost t0 = target@;
    let mut k: usize = 0;
    while k < n
        invariant
            t0 == old(target)@,
            n == processed_len(Compose::Plus, t0.len() as int),
            n <= t0.len(),
            target@.len() == t0.len(),
            forall|i: int| 0 <= i < 16 ==> #[trigger] cs4@[i] == cs@[i % 4],
            0 <= k <= n,
            forall|m: int| 0 <= m < k ==> #[trigger] target@[m] == fill_elem(Compose::Plus, t0, cs@, m),
            forall|m: int| k <= m < t0.len() ==> #[trigger] target@[m] == t0[m],
        decreases n - k,
    {
        proof {
            lemma_mod16_mod4(k as int);
        }
        target[k] = cs4[k % TOTAL_STRIP_HEIGHT].saturating_add(target[k]);
        assert(target@[k as int] == fill_elem(Compose::Plus, t0, cs@, k as int));
        k += 1;
    }
    assert(target@ =~= fill_result(Compose::Plus, t0, cs@));
}

/// Composite using `DestOver` (Cs * (1 – αb) + Cb).
pub fn dest_over(target: &mut [u8], cs: &[u8; COLOR_COMPONENTS])
    requires
        fill_fits(Compose::DestOver, old(target)@, cs@),
    ensures
        final(target)@ == fill_result(Compose::DestOver, old(target)@, cs@),
{
    let n = target.len() / COLOR_COMPONENTS;
    let ghost t0 = target@;
    let mut p: usize = 0;
    while p < n
        invariant
            t0 == old(target)@,
            fill_fits(Compose::DestOver, t0, cs@),
            n * 4 == processed_len(Compose::DestOver, t0.len() as int),
            n * 4 <= t0.len(),
            n * 4 <= usize::MAX,
            target@.len() == t0.len(),
            0 <= p <= n,
            forall|m: int| 0 <= m < p * 4 ==> #[trigger] target@[m] == fill_elem(Compose::DestOver, t0, cs@, m),
            forall|m: int| p * 4 <= m < t0.len() ==> #[trigger] target@[m] == t0[m],
        decreases n - p,
    {
        assert(p * 4 + 4 <= n * 4);
        let inv_ab = (255 - target[p * 4 + 3]) as u16;
        let mut i: usize = 0;
        while i < COLOR_COMPONENTS
            invariant
                t0 == old(target)@,
                fill_fits(Compose::DestOver, t0, cs@),
                n * 4 == processed_len(Compose::DestOver, t0.len() as int),
                n * 4 <= t0.len(),
                n * 4 <= usize::MAX,
            n * 4 <= usize::MAX,
                target@.len() == t0.len(),
                0 <= p < n,
                0 <= i <= 4,
                inv_ab == 255 - t0[p * 4 + 3],
                forall|m: int| 0 <= m < p * 4 + i ==> #[trigger] target@[m] == fill_elem(Compose::DestOver, t0, cs@, m),
                forall|m: int| p * 4 + i <= m < t0.len() ==> #[trigger] target@[m] == t0[m],
            decreases 4 - i,
        {
            assert(p * 4 + 4 <= n * 4);
            let k = p * 4 + i;
            let cb = target[k];
            proof {
                lemma_pixel_index(p as int, i as int);
                lemma_byte_products(cs@[i as int] as int, inv_ab as int);
                assert(fill_at(Compose::DestOver, t0, cs@, k as int) <= 255);
            }
            target[k] = div_255(cs[i] as u16 * inv_ab) as u8 + cb;
            assert(target@[k as int] == fill_elem(Compose::DestOver, t0, cs@, k as int));
            i += 1;
        }
        p += 1;
    }
    assert(target@ =~= fill_result(Compose::DestOver, t0, cs@));
}

/// Composite using `SrcAtop` (Cs * αb + Cb * (1 – αs)).
pub fn src_atop(target: &mut [u8], cs: &[u8; COLOR_COMPONENTS])
    requires
        fill_fits(Compose::SrcAtop, old(target)@, cs@),
    ensures
        final(target)@ == fill_result(Compose::SrcAtop, old(target)@, cs@),
{
    let n = target.len() / COLOR_COMPONENTS;
    let ghost t0 = target@;
    let mut p: usize = 0;
    while p < n
        invariant
            t0 == old(target)@,
            fill_fits(Compose::SrcAtop, t0, cs@),
            n * 4 == processed_len(Compose::SrcAtop, t0.len() as int),
            n * 4 <= t0.len(),
            n * 4 <= usize::MAX,
            target@.len() == t0.len(),
            0 <= p <= n,
            forall|m: int| 0 <= m < p * 4 ==> #[trigger] target@[m] == fill_elem(Compose::SrcAtop, t0, cs@, m),
            forall|m: int| p * 4 <= m < t0.len() ==> #[trigger] target@[m] == t0[m],
        decreases n - p,
    {
        let inv_as = (255 - cs[3]) as u16;
        let mut i: usize = 0;
        while i < COLOR_COMPONENTS
            invariant
                t0 == old(target)@,
                fill_fits(Compose::SrcAtop, t0, cs@),
                n * 4 == processed_len(Compose::SrcAtop, t0.len() as int),
                n * 4 <= t0.len(),
                n * 4 <= usize::MAX,
            n * 4 <= usize::MAX,
                target@.len() == t0.len(),
                0 <= p < n,
                0 <= i <= 4,
                inv_as == 255 - cs@[3],
                forall|m: int| 0 <= m < p * 4 + i ==> #[trigger] target@[m] == fill_elem(Compose::SrcAtop, t0, cs@, m),
                forall|m: int| p * 4 + i <= m < t0.len() ==> #[trigger] target@[m] == t0[m],
            decreases 4 - i,
        {
            assert(p * 4 + 4 <= n * 4);
            let k = p * 4 + i;
            let ab = target[p * 4 + 3] as u16;
            let cb = target[k];
            proof {
                lemma_pixel_index(p as int, i as int);
                lemma_byte_products(cs@[i as int] as int, ab as int);
                lemma_byte_products(cb as int, inv_as as int);
                assert(fill_at(Compose::SrcAtop, t0, cs@, k as int) <= 255);
            }
            let im1 = div_255(cs[i] as u16 * ab) as u8;
            let im2 = div_255(cb as u16 * inv_as) as u8;
            target[k] = im1 + im2;
            assert(target@[k as int] == fill_elem(Compose::SrcAtop, t0, cs@, k as int));
            i += 1;
        }
        p += 1;
    }
    assert(target@ =~= fill_result(Compose::SrcAtop, t0, cs@));
}

/// Composite using `DestOut` (Cb * (1 - αs)).
pub fn dest_out(target: &mut [u8], cs: &[u8; COLOR_COMPONENTS])
    ensures
        final(target)@ == fill_result(Compose::DestOut, old(target)@, cs@),
{
    let inv_as = 255 - cs[3] as u16;
    let n = target.len() / COLOR_COMPONENTS;
    let ghost t0 = target@;
    let mut p: usize = 0;
    while p < n
        invariant
            t0 == old(target)@,
            n * 4 == processed_len(Compose::DestOut, t0.len() as int),
            n * 4 <= t0.len(),
            n * 4 <= usize::MAX,
            target@.len() == t0.len(),
            inv_as == 255 - cs@[3],
            0 <= p <= n,
            forall|m: int| 0 <= m < p * 4 ==> #[trigger] target@[m] == fill_elem(Compose::DestOut, t0, cs@, m),
            forall|m: int| p * 4 <= m < t0.len() ==> #[trigger] target@[m] == t0[m],
        decreases n - p,
    {
        let mut i: usize = 0;
        while i < COLOR_COMPONENTS
            invariant
                t0 == old(target)@,
                n * 4 == processed_len(Compose::DestOut, t0.len() as int),
                n * 4 <= t0.len(),
                n * 4 <= usize::MAX,
            n * 4 <= usize::MAX,
                target@.len() == t0.len(),
                inv_as == 255 - cs@[3],
                0 <= p < n,
                0 <= i <= 4,
                forall|m: int| 0 <= m < p * 4 + i ==> #[trigger] target@[m] == fill_elem(Compose::DestOut, t0, cs@, m),
                forall|m: int| p * 4 + i <= m < t0.len() ==> #[trigger] target@[m] == t0[m],
            decreases 4 - i,
        {
            assert(p * 4 + 4 <= n * 4);
            let k = p * 4 + i;
            let cb = target[k];
            proof {
                lemma_pixel_index(p as int, i as int);
                lemma_byte_products(cb as int, inv_as as int);
            }
            target[k] = div_255(cb as u16 * inv_as) as u8;
            assert(target@[k as int] == fill_elem(Compose::DestOut, t0, cs@, k as int));
            i += 1;
        }
        p += 1;
    }
    assert(target@ =~= fill_result(Compose::DestOut, t0, cs@));
}

/// Composite using `Xor` (Cs * (1 - αb) + Cb * (1 - αs)).
pub fn xor(target: &mut [u8], cs: &[u8; COLOR_COMPONENTS])
    requires
        fill_fits(Compose::Xor, old(target)@, cs@),
    ensures
        final(target)@ == fill_result(Compose::Xor, old(target)@, cs@),
{
    let inv_as = 255 - cs[3] as u16;
    let n = target.len() / COLOR_COMPONENTS;
    let ghost t0 = target@;
    let mut p: usize = 0;
    while p < n
        invariant
            t0 == old(target)@,
            fill_fits(Compose::Xor, t0, cs@),
            n * 4 == processed_len(Compose::Xor, t0.len() as int),
            n * 4 <= t0.len(),
            n * 4 <= usize::MAX,
            target@.len() == t0.len(),
            inv_as == 255 - cs@[3],
            0 <= p <= n,
            forall|m: int| 0 <= m < p * 4 ==> #[trigger] target@[m] == fill_elem(Compose::Xor, t0, cs@, m),
            forall|m: int| p * 4 <= m < t0.len() ==> #[trigger] target@[m] == t0[m],
        decreases n - p,
    {
        let mut i: usize = 0;
        while i < COLOR_COMPONENTS
            invariant
                t0 == old(target)@,
                fill_fits(Compose::Xor, t0, cs@),
                n * 4 == processed_len(Compose::Xor, t0.len() as int),
                n * 4 <= t0.len(),
                n * 4 <= usize::MAX,
            n * 4 <= usize::MAX,
                target@.len() == t0.len(),
                inv_as == 255 - cs@[3],
                0 <= p < n,
                0 <= i <= 4,
                forall|m: int| 0 <= m < p * 4 + i ==> #[trigger] target@[m] == fill_elem(Compose::Xor, t0, cs@, m),
                forall|m: int| p * 4 + i <= m < t0.len() ==> #[trigger] target@[m] == t0[m],
            decreases 4 - i,
        {
            assert(p * 4 + 4 <= n * 4);
            let k = p * 4 + i;
            let inv_ab = 255 - target[p * 4 + 3] as u16;
            let cb = target[k];
            proof {
                lemma_pixel_index(p as int, i as int);
                lemma_byte_products(cs@[i as int] as int, inv_ab as int);
                lemma_byte_products(cb as int, inv_as as int);
                assert(fill_at(Compose::Xor, t0, cs@, k as int) <= 255);
            }
            let im1 = div_255(cs[i] as u16 * inv_ab) as u8;
            let im2 = div_255(cb as u16 * inv_as) as u8;
            target[k] = im1 + im2;
            assert(target@[k as int] == fill_elem(Compose::Xor, t0, cs@, k as int));
            i += 1;
        }
        p += 1;
    }
    assert(target@ =~= fill_result(Compose::Xor, t0, cs@));
}

/// Composite using `Dest` (Cb): the target is left as it is.
pub fn dest(target: &mut [u8], cs: &[u8; COLOR_COMPONENTS])
    ensures
        final(target)@ == fill_result(Compose::Dest, old(target)@, cs@),
{
    assert(target@ =~= fill_result(Compose::Dest, target@, cs@));
}

/// Composite using `Clear` (0): every byte of the target becomes 0.
pub fn clear(target: &mut [u8], cs: &[u8; COLOR_COMPONENTS])
    ensures
        final(target)@ == fill_result(Compose::Clear, old(target)@, cs@),
{
    let n = target.len();
    let ghost t0 = target@;
    let mut k: usize = 0;
    while k < n
        invariant
            t0 == old(target)@,
            n == t0.len(),
            target@.len() == t0.len(),
            0 <= k <= n,
            forall|m: int| 0 <= m < k ==> #[trigger] target@[m] == fill_elem(Compose::Clear, t0, cs@, m),
            forall|m: int| k <= m < t0.len() ==> #[trigger] target@[m] == t0[m],
        decreases n - k,
    {
        target[k] = 0;
        k += 1;
    }
    assert(target@ =~= fill_result(Compose::Clear, t0, cs@));
}

} // verus!
