use glyph_canvas::color::{choose_contrasting_color, generate_random_color};

#[test]
fn white_background_gets_black_text() {
    assert_eq!(choose_contrasting_color([255, 255, 255]), [0, 0, 0]);
}

#[test]
fn black_background_gets_white_text() {
    assert_eq!(choose_contrasting_color([0, 0, 0]), [255, 255, 255]);
}

#[test]
fn threshold_gray_gets_white_text() {
    assert_eq!(choose_contrasting_color([128, 128, 128]), [255, 255, 255]);
}

#[test]
fn just_above_threshold_gets_black_text() {
    assert_eq!(choose_contrasting_color([129, 129, 129]), [0, 0, 0]);
}

#[test]
fn luminance_weights_green_most() {
    // 587 * 255 / 1000 = 149 > 128, while 299 * 255 / 1000 = 76 and 114 * 255 / 1000 = 29.
    assert_eq!(choose_contrasting_color([0, 255, 0]), [0, 0, 0]);
    assert_eq!(choose_contrasting_color([255, 0, 0]), [255, 255, 255]);
    assert_eq!(choose_contrasting_color([0, 0, 255]), [255, 255, 255]);
}

#[test]
fn contrast_choice_is_repeatable() {
    for c in [[10u8, 200, 30], [128, 129, 127], [250, 250, 250], [3, 4, 5]] {
        assert_eq!(choose_contrasting_color(c), choose_contrasting_color(c));
    }
}

#[test]
fn random_colors_come_out() {
    let a = generate_random_color();
    let b = generate_random_color();
    assert_eq!(a.len(), 3);
    assert_eq!(b.len(), 3);
}
