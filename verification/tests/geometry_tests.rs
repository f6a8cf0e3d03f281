//! Aspect-ratio parsing and the dimension calculator.
use carp::dimensions::{parse_aspect_ratio, AspectRatio, Dimensions, RatioError};

#[test]
fn parse_fraction_form() {
    let r = parse_aspect_ratio("5/7.2").unwrap();
    // 5 / 7.2 is the rational 5 * 10 / 72
    assert_eq!((r.num, r.den), (50, 72));
    assert!(r.is_portrait());
    assert!(!r.is_landscape());
}

#[test]
fn parse_single_decimal_form() {
    let r = parse_aspect_ratio("0.75").unwrap();
    assert_eq!((r.num, r.den), (75, 100));
    let one = parse_aspect_ratio(" 1 ").unwrap();
    assert_eq!((one.num, one.den), (1, 1));
    assert!(one.is_square());
}

#[test]
fn parse_errors_name_the_component() {
    assert_eq!(parse_aspect_ratio("wide").unwrap_err(), RatioError::Value);
    assert_eq!(parse_aspect_ratio("x/2").unwrap_err(), RatioError::Width);
    assert_eq!(parse_aspect_ratio("2/x").unwrap_err(), RatioError::Height);
    assert_eq!(parse_aspect_ratio("1/2/3").unwrap_err(), RatioError::Form);
    assert_eq!(parse_aspect_ratio("").unwrap_err(), RatioError::Value);
    assert_eq!(parse_aspect_ratio("0").unwrap_err(), RatioError::Value);
    assert_eq!(parse_aspect_ratio("1/0").unwrap_err(), RatioError::Height);
}

#[test]
fn base_ratio_gives_square_sheet() {
    // the base 5:7.2 ratio forces a square logical texture
    let r = parse_aspect_ratio("5/7.2").unwrap();
    let d = Dimensions::new(4096, r);
    assert_eq!(d.width, 4096);
    assert_eq!(d.height, 4096);
    assert_eq!((d.pix_scale.num, d.pix_scale.den), (4096, 4096));
    assert_eq!((d.card_width.num, d.card_width.den), (4096, 10));
    assert_eq!((d.card_height.num, d.card_height.den), (4096, 7));
}

#[test]
fn wider_ratio_derives_height() {
    // a square card is wider than the base ratio: the width drives, and the
    // sheet height is floor(4096 * 7 / 10) = 2867
    let r = AspectRatio::new(1, 1);
    let d = Dimensions::new(4096, r);
    assert_eq!(d.width, 4096);
    assert_eq!(d.height, 2867);
    assert_eq!((d.pix_scale.num, d.pix_scale.den), (2867, 4096));
    assert_eq!((d.card_width.num, d.card_width.den), (4096 * 4096, 10 * 2867));
    assert_eq!(
        (d.card_height.num, d.card_height.den),
        (4096 * 4096, 10 * 2867)
    );
}

#[test]
fn taller_ratio_derives_width() {
    // a 1:2 card is taller than the base ratio: the height drives, and the
    // sheet width is floor(4096 * 10 * 1 / (7 * 2)) = 2925
    let r = AspectRatio::new(1, 2);
    let d = Dimensions::new(4096, r);
    assert_eq!(d.height, 4096);
    assert_eq!(d.width, 2925);
    assert_eq!((d.pix_scale.num, d.pix_scale.den), (2925, 4096));
    assert_eq!((d.card_height.num, d.card_height.den), (4096 * 4096, 7 * 2925));
    assert_eq!(
        (d.card_width.num, d.card_width.den),
        (4096 * 4096, 7 * 2925 * 2)
    );
}

#[test]
fn ratio_error_messages() {
    assert_eq!(
        RatioError::Value.message("wide"),
        "invalid aspect ratio: wide (could not parse as a number)"
    );
    assert_eq!(
        RatioError::Width.message("x/2"),
        "invalid aspect ratio: x/2 (could not parse width)"
    );
    assert_eq!(
        RatioError::Height.message("2/x"),
        "invalid aspect ratio: 2/x (could not parse height)"
    );
    assert_eq!(
        RatioError::Form.message("1/2/3"),
        "cannot parse an aspect ratio from this: 1/2/3"
    );
}

#[test]
fn ratio_comparisons() {
    let base = AspectRatio::new(25, 36);
    let square = AspectRatio::new(1, 1);
    let tall = AspectRatio::new(1, 2);
    assert!(square.is_wider_than(base));
    assert!(tall.is_taller_than(base));
    assert!(!base.is_wider_than(base));
    assert!(!base.is_taller_than(base));
    assert!(square.is_portrait());
    assert!(AspectRatio::new(3, 2).is_landscape());
}
