//! Compositing a solid color through per-pixel coverage masks.

use vstd::prelude::*;
use crate::fine::compose::{
    alpha_byte, div_255, lemma_byte_products, mul_div255, strip_fits, strip_processed_len,
    strip_result, strip_sum, strip_sum_at, COLOR_COMPONENTS, TOTAL_STRIP_HEIGHT,
};

verus! {

/// The byte of row `j` of a mask is in byte range.
pub proof fn lemma_alpha_byte(mask: u32, j: u32)
    ensures
        ((mask >> (j * 8) as u32) & 0xffu32) <= 255,
{
    let s = (j * 8) as u32;
    assert((mask >> s) & 0xffu32 <= 255u32) by (bit_vector);
}

proof fn lemma_strip_index(c: int, j: int, i: int)
    requires
        0 <= c,
        0 <= j < 4,
        0 <= i < 4,
    ensures
        (c * 16 + j * 4 + i) / 16 == c,
        ((c * 16 + j * 4 + i) % 16) / 4 == j,
        (c * 16 + j * 4 + i) % 4 == i,
{
    assert((c * 16 + j * 4 + i) / 16 == c) by (nonlinear_arith)
        requires 0 <= c, 0 <= j < 4, 0 <= i < 4;
    assert((c * 16 + j * 4 + i) % 16 == j * 4 + i) by (nonlinear_arith)
        requires 0 <= c, 0 <= j < 4, 0 <= i < 4;
    assert((c * 16 + j * 4 + i) % 4 == i) by (nonlinear_arith)
        requires 0 <= c, 0 <= j < 4, 0 <= i < 4;
}

/// Composite using `SrcOver` through coverage masks: for each strip column, the
/// source color is scaled by the coverage of each pixel before it is laid over the
/// backdrop (Cs * am + Cb * (1 - αs * am)).
pub fn src_over(target: &mut [u8], cs: &[u8; COLOR_COMPONENTS], alphas: &[u32])
    requires
        strip_fits(old(target)@, cs@, alphas@),
    ensures
        final(target)@ == strip_result(old(target)@, cs@, alphas@),
{
    let ghost t0 = target@;
    let len = target.len();
    let nc = if len / TOTAL_STRIP_HEIGHT < alphas.len() {
        len / TOTAL_STRIP_HEIGHT
    } else {
        alphas.len()
    };
    let mut c: usize = 0;
    while c < nc
        invariant
            t0 == old(target)@,
            strip_fits(t0, cs@, alphas@),
            nc * 16 == strip_processed_len(t0.len() as int, alphas@.len() as int),
            nc * 16 <= t0.len(),
            nc * 16 <= usize::MAX,
            nc <= alphas@.len(),
            target@.len() == t0.len(),
            0 <= c <= nc,
            forall|m: int| 0 <= m < c * 16 ==> #[trigger] target@[m] == strip_result(t0, cs@, alphas@)[m],
            forall|m: int| c * 16 <= m < t0.len() ==> #[trigger] target@[m] == t0[m],
        decreases nc - c,
    {
        let masks = alphas[c];
        let mut j: u32 = 0;
        while j < 4
            invariant
                t0 == old(target)@,
                strip_fits(t0, cs@, alphas@),
                nc * 16 == strip_processed_len(t0.len() as int, alphas@.len() as int),
                nc * 16 <= t0.len(),
                nc * 16 <= usize::MAX,
                nc <= alphas@.len(),
                target@.len() == t0.len(),
                0 <= c < nc,
                masks == alphas@[c as int],
                0 <= j <= 4,
                forall|m: int| 0 <= m < c * 16 + j * 4 ==> #[trigger] target@[m] == strip_result(t0, cs@, alphas@)[m],
                forall|m: int| c * 16 + j * 4 <= m < t0.len() ==> #[trigger] target@[m] == t0[m],
            decreases 4 - j,
        {
            proof {
                lemma_alpha_byte(masks, j);
            }
            let am = ((masks >> (j * 8)) & 0xff) as u16;
            proof {
                lemma_byte_products(am as int, cs@[3] as int);
            }
            let inv_as_am = 255 - div_255(am * cs[3] as u16);
            let mut i: usize = 0;
            while i < COLOR_COMPONENTS
                invariant
                    t0 == old(target)@,
                    strip_fits(t0, cs@, alphas@),
                    nc * 16 == strip_processed_len(t0.len() as int, alphas@.len() as int),
                    nc * 16 <= t0.len(),
                    nc * 16 <= usize::MAX,
                    nc <= alphas@.len(),
                    target@.len() == t0.len(),
                    0 <= c < nc,
                    masks == alphas@[c as int],
                    0 <= j < 4,
                    am as int == alpha_byte(masks, j as int),
                    am <= 255,
                    inv_as_am == 255 - mul_div255(am as int, cs@[3] as int),
                    0 <= i <= 4,
                    forall|m: int| 0 <= m < c * 16 + j * 4 + i ==> #[trigger] target@[m] == strip_result(t0, cs@, alphas@)[m],
                    forall|m: int| c * 16 + j * 4 + i <= m < t0.len() ==> #[trigger] target@[m] == t0[m],
                decreases 4 - i,
            {
                assert(c * 16 + 16 <= nc * 16);
                let k = c * TOTAL_STRIP_HEIGHT + (j as usize) * 4 + i;
                let cb = target[k];
                proof {
                    lemma_strip_index(c as int, j as int, i as int);
                    lemma_byte_products(cb as int, inv_as_am as int);
                    lemma_byte_products(cs@[i as int] as int, am as int);
                    assert(strip_sum_at(t0, cs@, alphas@, k as int) < 65280);
                }
                let im1 = cb as u16 * inv_as_am;
                let im2 = cs[i] as u16 * am;
                let im3 = div_255(im1 + im2);
                target[k] = im3 as u8;
                assert(target@[k as int] == strip_result(t0, cs@, alphas@)[k as int]);
                i += 1;
            }
            j += 1;
        }
        c += 1;
    }
    assert(target@ =~= strip_result(t0, cs@, alphas@));
}

} // verus!
