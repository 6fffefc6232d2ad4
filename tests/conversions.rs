use pixel_colour::conversions::{route, ColourSpace, Conversion};

#[test]
fn route_rgb_to_lch_adapts_white() {
    assert_eq!(
        route(ColourSpace::Rgb, ColourSpace::Lch),
        vec![
            Conversion::RgbToXyzD65,
            Conversion::XyzD65ToXyzD50,
            Conversion::XyzD50ToLab,
            Conversion::LabToLch,
        ]
    );
}

#[test]
fn route_lab_to_rgb() {
    assert_eq!(
        route(ColourSpace::Lab, ColourSpace::Rgb),
        vec![
            Conversion::LabToXyzD50,
            Conversion::XyzD50ToXyzD65,
            Conversion::XyzD65ToRgb,
        ]
    );
}

#[test]
fn route_rgb_to_oklch() {
    assert_eq!(
        route(ColourSpace::Rgb, ColourSpace::Oklch),
        vec![
            Conversion::RgbToXyzD65,
            Conversion::XyzD65ToOklab,
            Conversion::OklabToOklch,
        ]
    );
}

#[test]
fn route_between_branches_meets_at_common_space() {
    assert_eq!(
        route(ColourSpace::Oklch, ColourSpace::Lch),
        vec![
            Conversion::OklchToOklab,
            Conversion::OklabToXyzD65,
            Conversion::XyzD65ToXyzD50,
            Conversion::XyzD50ToLab,
            Conversion::LabToLch,
        ]
    );
    assert_eq!(
        route(ColourSpace::Hsl, ColourSpace::Oklab),
        vec![
            Conversion::HslToRgb,
            Conversion::RgbToXyzD65,
            Conversion::XyzD65ToOklab,
        ]
    );
}

#[test]
fn route_to_itself_is_empty() {
    assert_eq!(route(ColourSpace::Lab, ColourSpace::Lab), vec![]);
    assert_eq!(route(ColourSpace::Rgb, ColourSpace::Rgb), vec![]);
}

#[test]
fn route_adjacent_is_one_step() {
    assert_eq!(route(ColourSpace::Rgb, ColourSpace::Hsl), vec![Conversion::RgbToHsl]);
    assert_eq!(route(ColourSpace::Lch, ColourSpace::Lab), vec![Conversion::LchToLab]);
}
