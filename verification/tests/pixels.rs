use rustky::pixels::rgba_to_bgra;

#[test]
fn red_and_blue_change_places() {
    let pixels = [1u8, 2, 3, 4, 5, 6, 7, 8];
    let mut canvas = [0u8; 8];
    rgba_to_bgra(&pixels, &mut canvas);
    assert_eq!(canvas, [3, 2, 1, 4, 7, 6, 5, 8]);
}

#[test]
fn pixels_beyond_the_canvas_are_dropped() {
    let pixels = [1u8, 2, 3, 4, 5, 6, 7, 8];
    let mut canvas = [9u8; 6];
    rgba_to_bgra(&pixels, &mut canvas);
    assert_eq!(canvas, [3, 2, 1, 4, 9, 9]);
}

#[test]
fn trailing_partial_pixel_is_ignored() {
    let pixels = [1u8, 2, 3, 4, 5, 6];
    let mut canvas = [9u8; 12];
    rgba_to_bgra(&pixels, &mut canvas);
    assert_eq!(canvas, [3, 2, 1, 4, 9, 9, 9, 9, 9, 9, 9, 9]);
}

#[test]
fn empty_inputs() {
    let mut canvas = [7u8; 4];
    rgba_to_bgra(&[], &mut canvas);
    assert_eq!(canvas, [7; 4]);
    let mut empty: [u8; 0] = [];
    rgba_to_bgra(&[1, 2, 3, 4], &mut empty);
}

#[test]
fn converting_twice_gives_the_pixels_back() {
    let pixels: Vec<u8> = (0..64u8).collect();
    let mut once = vec![0u8; 64];
    rgba_to_bgra(&pixels, &mut once);
    let mut twice = vec![0u8; 64];
    rgba_to_bgra(&once, &mut twice);
    assert_eq!(twice, pixels);
}
