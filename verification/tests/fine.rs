use cpu_sparse::fine::compose::{div_255, splat_x4, Compose, Scalar};
use cpu_sparse::fine::{fill, pack, strip, Fine};
use cpu_sparse::paint::{Paint, SolidColor};
use cpu_sparse::wide_tile::{Cmd, CmdStrip};

const CB: [u8; 4] = [100, 50, 0, 200];
const CB2: [u8; 4] = [40, 20, 10, 60];
const CS: [u8; 4] = [10, 20, 30, 128];

fn column(px: [u8; 4]) -> Vec<u8> {
    px.iter().cycle().take(16).copied().collect()
}

#[test]
fn div_255_is_exact_division() {
    assert_eq!(div_255(0), 0);
    assert_eq!(div_255(254), 0);
    assert_eq!(div_255(255), 1);
    assert_eq!(div_255(510), 2);
    assert_eq!(div_255(65025), 255);
    assert_eq!(div_255(65279), 255);
    for v in 0..65280u32 {
        assert_eq!(div_255(v as u16) as u32, v / 255);
    }
}

#[test]
fn splat_repeats_the_pixel() {
    assert_eq!(splat_x4(&[1, 2, 3, 4]), [1, 2, 3, 4, 1, 2, 3, 4, 1, 2, 3, 4, 1, 2, 3, 4]);
}

#[test]
fn fill_kernels_give_the_porter_duff_values() {
    let mut t = column(CB);
    fill::src_over(&mut t, &CS);
    assert_eq!(&t[..4], &[59, 44, 30, 227]);
    assert_eq!(&t[12..], &[59, 44, 30, 227]);

    let mut t = column(CB2);
    fill::dest_over(&mut t, &CS);
    assert_eq!(&t[..4], &[47, 35, 32, 157]);

    let mut t = column(CB2);
    fill::src_atop(&mut t, &CS);
    assert_eq!(&t[..4], &[21, 13, 11, 59]);

    let mut t = column(CB2);
    fill::dest_out(&mut t, &CS);
    assert_eq!(&t[..4], &[19, 9, 4, 29]);

    let mut t = column(CB2);
    fill::xor(&mut t, &CS);
    assert_eq!(&t[..4], &[26, 24, 26, 126]);

    let mut t = column(CB);
    fill::plus(&mut t, &CS);
    assert_eq!(&t[..4], &[110, 70, 30, 255]);

    let mut t = column(CB);
    fill::src_copy(&mut t, &CS);
    assert_eq!(t, column(CS));

    let mut t = column(CB);
    fill::dest(&mut t, &CS);
    assert_eq!(t, column(CB));

    let mut t = column(CB);
    fill::clear(&mut t, &CS);
    assert_eq!(t, vec![0; 16]);
}

#[test]
fn fill_kernels_leave_a_partial_column_alone() {
    // 20 bytes: one whole column and a trailing pixel that column kernels do not touch.
    let mut t = CB.iter().cycle().take(20).copied().collect::<Vec<u8>>();
    fill::src_over(&mut t, &CS);
    assert_eq!(&t[16..], &CB);
    let mut t = CB2.iter().cycle().take(20).copied().collect::<Vec<u8>>();
    fill::dest_out(&mut t, &CS);
    assert_eq!(&t[16..], &[19, 9, 4, 29]);
}

#[test]
fn compose_fill_dispatches_on_the_operator() {
    let mut a = column(CB);
    Scalar::compose_fill(&mut a, &CS, Compose::SrcOver);
    let mut b = column(CB);
    fill::src_over(&mut b, &CS);
    assert_eq!(a, b);

    let mut a = column(CB);
    Scalar::compose_fill(&mut a, &CS, Compose::Copy);
    assert_eq!(a, column(CS));
}

#[test]
fn strip_kernel_uses_the_coverage_of_each_row() {
    let mut t = column(CB);
    // Coverage per row (low byte first): 0, 255, 128, 0.
    strip::src_over(&mut t, &CS, &[0x0080_ff00]);
    assert_eq!(
        t,
        vec![100, 50, 0, 200, 59, 44, 30, 227, 79, 47, 15, 214, 100, 50, 0, 200]
    );

    let mut a = column(CB);
    Scalar::compose_strip(&mut a, &CS, &[0x0080_ff00], Compose::SrcOver);
    assert_eq!(a, t);
}

#[test]
fn fine_fills_and_packs_into_the_pixmap() {
    let red = Paint::Solid(SolidColor { premul: [255, 0, 0, 255], opaque: true });
    let mut buf = vec![9u8; 3 * 2 * 4];
    {
        let mut fine = Fine::new(3, 2, &mut buf);
        fine.clear([0, 0, 0, 0]);
        fine.fill(1, 1, &red, Compose::SrcOver);
        fine.pack(0, 0);
    }
    let mut expected = vec![0u8; 24];
    for row in 0..2 {
        let p = (row * 3 + 1) * 4;
        expected[p..p + 4].copy_from_slice(&[255, 0, 0, 255]);
    }
    assert_eq!(buf, expected);
}

#[test]
fn fine_runs_strip_commands_with_their_masks() {
    let red = Paint::Solid(SolidColor { premul: [255, 0, 0, 255], opaque: true });
    let mut buf = vec![0u8; 2 * 2 * 4];
    {
        let mut fine = Fine::new(2, 2, &mut buf);
        fine.clear_scalar([0, 0, 0, 0]);
        let cmd = Cmd::Strip(CmdStrip { x: 0, width: 1, alpha_ix: 1, paint: red });
        // Column 0 takes the second mask: full coverage in row 0 only.
        fine.run_cmd(&cmd, &[0, 0x0000_00ff]);
        fine.pack_scalar(0, 0);
    }
    assert_eq!(&buf[0..4], &[255, 0, 0, 255]);
    assert_eq!(&buf[4..], &[0u8; 12]);
}

#[test]
fn fine_clear_fills_every_pixel() {
    let mut buf = vec![0u8; 4];
    let mut fine = Fine::new(1, 1, &mut buf);
    fine.clear([1, 2, 3, 4]);
    assert_eq!(&fine.scratch[..8], &[1, 2, 3, 4, 1, 2, 3, 4]);
    fine.clear([7, 7, 7, 7]);
    assert!(fine.scratch.iter().all(|b| *b == 7));
    fine.fill_scalar(0, 1, &Paint::Solid(SolidColor { premul: [0, 0, 0, 0], opaque: false }));
    assert_eq!(&fine.scratch[..4], &[7, 7, 7, 7]);
    fine.strip_scalar(0, 1, &[0], &Paint::Solid(SolidColor { premul: [9, 9, 9, 9], opaque: false }));
    assert_eq!(&fine.scratch[..4], &[7, 7, 7, 7]);
    fine.strip(0, 1, &[0], &Paint::Solid(SolidColor { premul: [9, 9, 9, 9], opaque: false }), Compose::SrcOver);
    assert_eq!(&fine.scratch[..4], &[7, 7, 7, 7]);
}

#[test]
fn pack_clips_to_the_pixmap() {
    let scratch = [5u8; 4096];
    let mut out = vec![0u8; 300 * 5 * 4];
    // Tile (1, 1) covers columns 256..300 and row 4 only.
    pack(&mut out, &scratch, 300, 5, 1, 1);
    for row in 0..5 {
        for col in 0..300 {
            let p = (row * 300 + col) * 4;
            let expected = if row == 4 && col >= 256 { 5 } else { 0 };
            assert_eq!(out[p], expected);
        }
    }
}
