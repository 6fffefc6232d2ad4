use pixel_colour::mono::{one_bit, MonoPixel};

#[test]
fn from_keeps_the_luminance() {
    assert_eq!(MonoPixel::from(77).get(), 77);
}

#[test]
fn add_error_adds_within_range() {
    assert_eq!(MonoPixel::from(100).add_error(27).get(), 127);
    assert_eq!(MonoPixel::from(100).add_error(-40).get(), 60);
}

#[test]
fn add_error_clamps_at_both_ends() {
    assert_eq!(MonoPixel::from(250).add_error(10).get(), 255);
    assert_eq!(MonoPixel::from(5).add_error(-10).get(), 0);
    assert_eq!(MonoPixel::from(0).add_error(i32::MAX).get(), 255);
    assert_eq!(MonoPixel::from(255).add_error(i32::MIN).get(), 0);
}

#[test]
fn get_error_is_signed_difference() {
    assert_eq!(MonoPixel::from(10).get_error(&MonoPixel::from(200)), -190);
    assert_eq!(MonoPixel::from(200).get_error(&MonoPixel::from(10)), 190);
    assert_eq!(MonoPixel::from(42).get_error(&MonoPixel::from(42)), 0);
}

#[test]
fn quantize_to_one_bit() {
    let palette = one_bit();
    assert_eq!(palette, vec![MonoPixel::from(0), MonoPixel::from(255)]);
    assert_eq!(MonoPixel::from(100).quantize(&palette).get(), 0);
    assert_eq!(MonoPixel::from(200).quantize(&palette).get(), 255);
}

#[test]
fn quantize_tie_goes_to_earlier_entry() {
    let palette = [MonoPixel::from(90), MonoPixel::from(110)];
    assert_eq!(MonoPixel::from(100).quantize(&palette).get(), 90);
    let reversed = [MonoPixel::from(110), MonoPixel::from(90)];
    assert_eq!(MonoPixel::from(100).quantize(&reversed).get(), 110);
}

#[test]
fn quantize_picks_nearest_anywhere_in_palette() {
    let palette = [
        MonoPixel::from(0),
        MonoPixel::from(64),
        MonoPixel::from(128),
        MonoPixel::from(192),
        MonoPixel::from(255),
    ];
    assert_eq!(MonoPixel::from(130).quantize(&palette).get(), 128);
    assert_eq!(MonoPixel::from(250).quantize(&palette).get(), 255);
    assert_eq!(MonoPixel::from(7).quantize(&[MonoPixel::from(3)]).get(), 3);
}
