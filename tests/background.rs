use glyph_canvas::background::{create_gradient_background, gradient_canvas};
use glyph_canvas::canvas::Canvas;

fn expected_channel(a: u8, b: u8, w: u64, h: u64, x: u64, y: u64) -> u8 {
    let d = 2 * w * h;
    let t = x * h + y * w;
    ((a as u64 * (d - t) + b as u64 * t) / d) as u8
}

#[test]
fn gradient_starts_at_first_color() {
    let c = gradient_canvas(400, 300, [10, 10, 10], [250, 250, 250]);
    assert_eq!(c.get_pixel_checked(0, 0), Some((10, 10, 10, 255)));
}

#[test]
fn gradient_far_corner_follows_formula() {
    let c = gradient_canvas(400, 300, [10, 10, 10], [250, 250, 250]);
    // factor = 0.5 * 399 / 400 + 0.5 * 299 / 300; 10 (1 - f) + 250 f = 249.3
    assert_eq!(c.get_pixel_checked(399, 299), Some((249, 249, 249, 255)));
    let f: f64 = 0.5 * 399.0 / 400.0 + 0.5 * 299.0 / 300.0;
    let v = (10.0 * (1.0 - f) + 250.0 * f) as u8;
    assert_eq!(v, 249);
}

#[test]
fn gradient_every_pixel_follows_formula() {
    let (w, h) = (7u32, 5u32);
    let c1 = [200u8, 0, 37];
    let c2 = [3u8, 255, 140];
    let c = gradient_canvas(w, h, c1, c2);
    for y in 0..h {
        for x in 0..w {
            let p = c.get_pixel_checked(x, y).unwrap();
            let e = |i: usize| expected_channel(c1[i], c2[i], w as u64, h as u64, x as u64, y as u64);
            assert_eq!(p, (e(0), e(1), e(2), 255));
        }
    }
}

#[test]
fn gradient_of_equal_colors_is_flat() {
    let c = gradient_canvas(9, 4, [77, 88, 99], [77, 88, 99]);
    for y in 0..4 {
        for x in 0..9 {
            assert_eq!(c.get_pixel_checked(x, y), Some((77, 88, 99, 255)));
        }
    }
}

#[test]
fn gradient_overwrites_existing_canvas() {
    let mut c = Canvas::new(3, 2);
    assert_eq!(c.get_pixel_checked(1, 1), Some((0, 0, 0, 0)));
    create_gradient_background(&mut c, [0, 0, 0], [240, 120, 60]);
    // t = 1 * 2 + 1 * 3 = 5 over d = 12
    assert_eq!(c.get_pixel_checked(1, 1), Some((100, 50, 25, 255)));
    assert_eq!(c.width(), 3);
    assert_eq!(c.height(), 2);
}
