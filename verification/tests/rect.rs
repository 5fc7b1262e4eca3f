use cpu_sparse::rect::{push_rect_strips, EdgeMasks, RectSpan};
use cpu_sparse::strip::Strip;

fn describe(s: &Strip) -> (u32, u32, u32, i32) {
    (s.x, s.y, s.col, s.winding)
}

#[test]
fn rectangle_over_three_strip_rows() {
    let mut strips = vec![Strip { x: 1, y: 1, col: 1, winding: 1 }];
    let mut alphas = vec![0u32];
    push_rect_strips(
        &mut strips,
        &mut alphas,
        RectSpan { x_start: 2, x_end: 5, top: 0, bottom: 2 },
        EdgeMasks { left: 1, middle: 2, right: 3 },
        EdgeMasks { left: 7, middle: 8, right: 9 },
        4,
        5,
    );
    assert_eq!(alphas, vec![0, 1, 2, 2, 3, 4, 5, 7, 8, 8, 9]);
    let got: Vec<_> = strips.iter().map(describe).collect();
    assert_eq!(
        got,
        vec![(2, 0, 1, 0), (2, 4, 5, 0), (5, 4, 6, 1), (2, 8, 7, 0), (65524, 65532, 11, 0)]
    );
}

#[test]
fn rectangle_inside_one_pixel_column_and_strip_row() {
    let mut strips = Vec::new();
    let mut alphas = Vec::new();
    push_rect_strips(
        &mut strips,
        &mut alphas,
        RectSpan { x_start: 3, x_end: 3, top: 1, bottom: 1 },
        EdgeMasks { left: 10, middle: 20, right: 30 },
        EdgeMasks { left: 40, middle: 50, right: 60 },
        70,
        80,
    );
    assert_eq!(alphas, vec![10]);
    let got: Vec<_> = strips.iter().map(describe).collect();
    assert_eq!(got, vec![(3, 4, 0, 0), (65524, 65532, 1, 0)]);
}

#[test]
fn one_pixel_wide_rectangle_has_only_left_sides() {
    let mut strips = Vec::new();
    let mut alphas = Vec::new();
    push_rect_strips(
        &mut strips,
        &mut alphas,
        RectSpan { x_start: 3, x_end: 3, top: 0, bottom: 3 },
        EdgeMasks { left: 1, middle: 0, right: 0 },
        EdgeMasks { left: 2, middle: 0, right: 0 },
        3,
        4,
    );
    assert_eq!(alphas, vec![1, 3, 3, 2]);
    let got: Vec<_> = strips.iter().map(describe).collect();
    assert_eq!(
        got,
        vec![(3, 0, 0, 0), (3, 4, 1, 0), (3, 8, 2, 0), (3, 12, 3, 0), (65524, 65532, 4, 0)]
    );
}

#[test]
fn rectangle_over_two_adjacent_columns_keeps_both() {
    // Half of column 1 and half of column 2: the right column is inclusive.
    let mut strips = Vec::new();
    let mut alphas = Vec::new();
    push_rect_strips(
        &mut strips,
        &mut alphas,
        RectSpan { x_start: 1, x_end: 2, top: 0, bottom: 0 },
        EdgeMasks { left: 0x8000, middle: 0xff00, right: 0x8000 },
        EdgeMasks { left: 0, middle: 0, right: 0 },
        0,
        0,
    );
    assert_eq!(alphas, vec![0x8000, 0x8000]);
    let got: Vec<_> = strips.iter().map(describe).collect();
    assert_eq!(got, vec![(1, 0, 0, 0), (65524, 65532, 2, 0)]);
}
