use robo::canvas::{fit_to_canvas, join_panels};

#[test]
fn empty_image_gives_background() {
    let out = fit_to_canvas(&[], 0, 5, 3, 2, 0x323232, &[], &[]);
    assert_eq!(out, vec![0x323232; 6]);
    let out = fit_to_canvas(&[1, 2], 2, 0, 2, 2, 9, &[0, 1], &[0, 1]);
    assert_eq!(out, vec![9; 4]);
}

#[test]
fn image_scaled_up_twice() {
    let src = [1, 2, 3, 4];
    let out = fit_to_canvas(&src, 2, 2, 4, 4, 0, &[0, 0, 1, 1], &[0, 0, 1, 1]);
    assert_eq!(
        out,
        vec![1, 1, 2, 2, 1, 1, 2, 2, 3, 3, 4, 4, 3, 3, 4, 4]
    );
}

#[test]
fn image_centred_with_padding() {
    let src = [1, 2, 3, 4];
    let out = fit_to_canvas(&src, 2, 2, 4, 3, 7, &[0, 1], &[0, 1]);
    assert_eq!(out, vec![7, 1, 2, 7, 7, 3, 4, 7, 7, 7, 7, 7]);
}

#[test]
fn samples_are_clamped_to_image() {
    let src = [1, 2, 3, 4];
    let out = fit_to_canvas(&src, 2, 2, 2, 2, 0, &[0, 9], &[5, 0]);
    assert_eq!(out, vec![3, 4, 1, 2]);
}

#[test]
fn panels_side_by_side() {
    let left = [1, 2, 3, 4];
    let right = [5, 6, 7, 8];
    assert_eq!(join_panels(&left, &right, 2), vec![1, 2, 5, 6, 3, 4, 7, 8]);
}

#[test]
fn empty_panels() {
    assert_eq!(join_panels(&[], &[], 0), Vec::<u32>::new());
}
