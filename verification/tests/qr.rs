use sqp_core::qr::{qr_rgba, render_modules, try_qr_rgba};

#[test]
fn produces_square_rgba_buffer() {
    let (side, rgba) = qr_rgba("2XELN7GWD9RD5FDC6MTATGAF3ZWTA8DL", 4);
    assert!(side > 0);
    assert_eq!(rgba.len(), side * side * 4);
    assert!(rgba.chunks(4).any(|p| p[0] == 0));
    assert!(rgba.chunks(4).any(|p| p[0] == 255));
}

#[test]
fn qr_symbol_of_a_code_is_version_two() {
    let (side, rgba) = qr_rgba("2XELN7GWD9RD5FDC6MTATGAF3ZWTA8DL", 1);
    assert_eq!(side, 25);
    assert_eq!(rgba.len(), 25 * 25 * 4);
    assert_eq!(&rgba[0..4], &[0, 0, 0, 255]);
    let (side6, rgba6) = qr_rgba("2XELN7GWD9RD5FDC6MTATGAF3ZWTA8DL", 6);
    assert_eq!(side6, 150);
    for y in 0..side6 {
        for x in 0..side6 {
            let small = ((y / 6) * 25 + x / 6) * 4;
            let big = (y * side6 + x) * 4;
            assert_eq!(&rgba6[big..big + 4], &rgba[small..small + 4]);
        }
    }
}

#[test]
fn render_modules_scales_each_module() {
    let modules = [true, false, false, true];
    let (side, rgba) = render_modules(2, &modules, 2);
    assert_eq!(side, 4);
    let black = [0u8, 0, 0, 255];
    let white = [255u8, 255, 255, 255];
    let expect_row = |a: [u8; 4], b: [u8; 4]| [a, a, b, b].concat();
    let expected = [
        expect_row(black, white),
        expect_row(black, white),
        expect_row(white, black),
        expect_row(white, black),
    ]
    .concat();
    assert_eq!(rgba, expected);
    let (side0, rgba0) = render_modules(2, &modules, 0);
    assert_eq!(side0, 0);
    assert!(rgba0.is_empty());
}

#[test]
fn try_qr_rgba_refuses_what_does_not_fit() {
    assert!(try_qr_rgba(&"A".repeat(5000), 1).is_none());
    assert!(try_qr_rgba("HELLO", usize::MAX / 2).is_none());
    let (side, rgba) = try_qr_rgba("HELLO", 2).unwrap();
    assert_eq!(side, 42);
    assert_eq!(rgba.len(), 42 * 42 * 4);
}
