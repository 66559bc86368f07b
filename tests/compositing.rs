use glyph_canvas::background::gradient_canvas;
use glyph_canvas::canvas::Canvas;
use glyph_canvas::color::choose_contrasting_color;
use glyph_canvas::compositor::{composite_glyph, plot_coverage, render_glyphs, GlyphMask};
use glyph_canvas::sample::sample_center_color;

fn snapshot(c: &Canvas) -> Vec<u8> {
    c.to_rgba_bytes()
}

#[test]
fn coverage_overwrites_with_foreground_at_alpha() {
    let mut c = gradient_canvas(4, 4, [10, 20, 30], [10, 20, 30]);
    plot_coverage(&mut c, 1, 2, 1, 1, 77, [255, 255, 255]);
    assert_eq!(c.get_pixel_checked(2, 3), Some((255, 255, 255, 77)));
    assert_eq!(c.get_pixel_checked(1, 2), Some((10, 20, 30, 255)));
}

#[test]
fn zero_coverage_writes_nothing() {
    let mut c = gradient_canvas(4, 4, [10, 20, 30], [10, 20, 30]);
    let before = snapshot(&c);
    plot_coverage(&mut c, 0, 0, 2, 2, 0, [255, 255, 255]);
    assert_eq!(snapshot(&c), before);
}

#[test]
fn coverage_off_canvas_is_dropped() {
    let mut c = gradient_canvas(4, 3, [10, 20, 30], [90, 20, 30]);
    let before = snapshot(&c);
    plot_coverage(&mut c, -5, 0, 2, 1, 255, [0, 0, 0]);
    plot_coverage(&mut c, 0, -1, 0, 0, 255, [0, 0, 0]);
    plot_coverage(&mut c, 3, 0, 1, 0, 255, [0, 0, 0]);
    plot_coverage(&mut c, 0, 2, 0, 1, 255, [0, 0, 0]);
    plot_coverage(&mut c, i32::MAX, i32::MAX, u32::MAX, u32::MAX, 255, [0, 0, 0]);
    assert_eq!(snapshot(&c), before);
}

#[test]
fn glyph_larger_than_canvas_is_clipped() {
    let mut c = gradient_canvas(3, 2, [50, 50, 50], [50, 50, 50]);
    let mask = GlyphMask { min_x: -2, min_y: -1, width: 8, height: 5, alpha: vec![200; 40] };
    composite_glyph(&mut c, &mask, [1, 2, 3]);
    for y in 0..2 {
        for x in 0..3 {
            assert_eq!(c.get_pixel_checked(x, y), Some((1, 2, 3, 200)));
        }
    }
    assert_eq!(c.get_pixel_checked(3, 0), None);
    assert_eq!(c.get_pixel_checked(0, 2), None);
    assert_eq!(snapshot(&c).len(), 3 * 2 * 4);
}

#[test]
fn glyph_mask_writes_only_covered_pixels() {
    let mut c = gradient_canvas(5, 5, [9, 9, 9], [9, 9, 9]);
    // A 3 by 2 mask at (1, 2): row 0 = [0, 10, 0], row 1 = [255, 0, 1]
    let mask = GlyphMask { min_x: 1, min_y: 2, width: 3, height: 2, alpha: vec![0, 10, 0, 255, 0, 1] };
    composite_glyph(&mut c, &mask, [200, 100, 50]);
    for y in 0..5u32 {
        for x in 0..5u32 {
            let expected = match (x, y) {
                (2, 2) => (200, 100, 50, 10),
                (1, 3) => (200, 100, 50, 255),
                (3, 3) => (200, 100, 50, 1),
                _ => (9, 9, 9, 255),
            };
            assert_eq!(c.get_pixel_checked(x, y), Some(expected));
        }
    }
}

#[test]
fn later_glyph_overwrites_earlier_one() {
    let mut c = gradient_canvas(3, 1, [0, 0, 0], [0, 0, 0]);
    let first = GlyphMask { min_x: 0, min_y: 0, width: 2, height: 1, alpha: vec![100, 100] };
    let second = GlyphMask { min_x: 1, min_y: 0, width: 2, height: 1, alpha: vec![30, 0] };
    render_glyphs(&mut c, &vec![first, second], [255, 255, 255]);
    assert_eq!(c.get_pixel_checked(0, 0), Some((255, 255, 255, 100)));
    assert_eq!(c.get_pixel_checked(1, 0), Some((255, 255, 255, 30)));
    assert_eq!(c.get_pixel_checked(2, 0), Some((0, 0, 0, 255)));
}

#[test]
fn empty_run_leaves_background() {
    let mut c = gradient_canvas(40, 30, [10, 10, 10], [250, 250, 250]);
    let before = snapshot(&c);
    render_glyphs(&mut c, &Vec::new(), [0, 0, 0]);
    assert_eq!(snapshot(&c), before);
}

#[test]
fn run_without_coverage_leaves_background() {
    let mut c = gradient_canvas(40, 30, [10, 10, 10], [250, 250, 250]);
    let before = snapshot(&c);
    let blank = GlyphMask { min_x: 5, min_y: 5, width: 4, height: 6, alpha: vec![0; 24] };
    let empty = GlyphMask { min_x: 0, min_y: 0, width: 0, height: 0, alpha: Vec::new() };
    render_glyphs(&mut c, &vec![blank, empty], [255, 255, 255]);
    assert_eq!(snapshot(&c), before);
}

#[test]
fn two_glyph_run_on_gradient_uses_only_foreground() {
    let (w, h) = (400u32, 300u32);
    let mut c = gradient_canvas(w, h, [10, 10, 10], [250, 250, 250]);
    let background = snapshot(&c);
    let fg = choose_contrasting_color(sample_center_color(&c, w, h));
    assert_eq!(fg, [0, 0, 0]);
    let mut a = vec![0u8; 20 * 30];
    let mut b = vec![0u8; 18 * 30];
    for (i, v) in a.iter_mut().enumerate() {
        *v = (i % 7 * 40) as u8;
    }
    for (i, v) in b.iter_mut().enumerate() {
        *v = (i % 5 * 60) as u8;
    }
    let first = GlyphMask { min_x: 180, min_y: 135, width: 20, height: 30, alpha: a };
    let second = GlyphMask { min_x: 204, min_y: 135, width: 18, height: 30, alpha: b };
    render_glyphs(&mut c, &vec![first, second], fg);
    let after = snapshot(&c);
    let mut changed = 0;
    for i in (0..after.len()).step_by(4) {
        if after[i..i + 4] != background[i..i + 4] {
            changed += 1;
            assert_eq!(&after[i..i + 3], &fg[..]);
            assert!(after[i + 3] > 0);
        }
    }
    assert!(changed > 0);
}
