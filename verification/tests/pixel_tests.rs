use png_image::{ColorType, ImageError, Pixel, rgb_to_gray};

#[test]
fn channel_counts_are_fixed() {
    assert_eq!(ColorType::Gray().num_channels(), 1);
    assert_eq!(ColorType::GrayAlpha().num_channels(), 2);
    assert_eq!(ColorType::RGB().num_channels(), 3);
    assert_eq!(ColorType::RGBAlpha().num_channels(), 4);
}

#[test]
fn color_codes_round_trip() {
    let variants = [
        ColorType::Gray(),
        ColorType::RGB(),
        ColorType::RGBAlpha(),
        ColorType::GrayAlpha(),
    ];
    for ct in variants {
        assert_eq!(ColorType::from_code(ct.to_code()), Ok(ct));
    }
    assert_eq!(ColorType::from_code(0), Ok(ColorType::Gray()));
    assert_eq!(ColorType::from_code(2), Ok(ColorType::RGB()));
    assert_eq!(ColorType::from_code(4), Ok(ColorType::GrayAlpha()));
    assert_eq!(ColorType::from_code(6), Ok(ColorType::RGBAlpha()));
}

#[test]
fn palette_code_is_unsupported() {
    assert_eq!(ColorType::from_code(3), Err(ImageError::UnsupportedColorType));
}

#[test]
fn unknown_codes_are_unsupported() {
    for code in [1u8, 5, 7, 8, 255] {
        assert_eq!(ColorType::from_code(code), Err(ImageError::UnsupportedColorType));
    }
}

#[test]
fn luminance_weights() {
    assert_eq!(rgb_to_gray(255, 0, 0), 76);
    assert_eq!(rgb_to_gray(0, 255, 0), 150);
    assert_eq!(rgb_to_gray(0, 0, 255), 28);
    assert_eq!(rgb_to_gray(0, 0, 0), 0);
    assert_eq!(rgb_to_gray(255, 255, 255), 255);
    assert_eq!(rgb_to_gray(100, 100, 100), 100);
}

#[test]
fn gray_round_trip_is_exact() {
    for g in 0u8..=255 {
        let p = Pixel::Gray(g)
            .convert(ColorType::RGBAlpha())
            .convert(ColorType::Gray());
        assert_eq!(p, Pixel::Gray(g));
    }
}

#[test]
fn alpha_defaults_to_opaque() {
    assert_eq!(
        Pixel::Gray(5).convert(ColorType::RGBAlpha()),
        Pixel::RGBAlpha(5, 5, 5, 255)
    );
    assert_eq!(
        Pixel::Gray(5).convert(ColorType::GrayAlpha()),
        Pixel::GrayAlpha(5, 255)
    );
    assert_eq!(
        Pixel::RGB(1, 2, 3).convert(ColorType::RGBAlpha()),
        Pixel::RGBAlpha(1, 2, 3, 255)
    );
    assert_eq!(
        Pixel::RGB(10, 20, 30).convert(ColorType::GrayAlpha()),
        Pixel::GrayAlpha(rgb_to_gray(10, 20, 30), 255)
    );
}

#[test]
fn alpha_is_preserved_between_alpha_layouts() {
    assert_eq!(
        Pixel::RGBAlpha(10, 20, 30, 7).convert(ColorType::GrayAlpha()),
        Pixel::GrayAlpha(rgb_to_gray(10, 20, 30), 7)
    );
    assert_eq!(
        Pixel::GrayAlpha(9, 3).convert(ColorType::RGBAlpha()),
        Pixel::RGBAlpha(9, 9, 9, 3)
    );
}

#[test]
fn alpha_is_dropped_not_blended() {
    assert_eq!(
        Pixel::RGBAlpha(10, 20, 30, 0).convert(ColorType::RGB()),
        Pixel::RGB(10, 20, 30)
    );
    assert_eq!(
        Pixel::RGBAlpha(255, 0, 0, 0).convert(ColorType::Gray()),
        Pixel::Gray(76)
    );
    assert_eq!(Pixel::GrayAlpha(8, 0).convert(ColorType::Gray()), Pixel::Gray(8));
    assert_eq!(
        Pixel::GrayAlpha(8, 0).convert(ColorType::RGB()),
        Pixel::RGB(8, 8, 8)
    );
}

#[test]
fn conversion_to_own_layout_is_identity() {
    assert_eq!(Pixel::Gray(1).convert(ColorType::Gray()), Pixel::Gray(1));
    assert_eq!(
        Pixel::RGB(1, 2, 3).convert(ColorType::RGB()),
        Pixel::RGB(1, 2, 3)
    );
    assert_eq!(
        Pixel::RGBAlpha(1, 2, 3, 4).convert(ColorType::RGBAlpha()),
        Pixel::RGBAlpha(1, 2, 3, 4)
    );
    assert_eq!(
        Pixel::GrayAlpha(1, 2).convert(ColorType::GrayAlpha()),
        Pixel::GrayAlpha(1, 2)
    );
}

#[test]
fn into_vec_lists_channels_in_order() {
    assert_eq!(Pixel::Gray(9).into_vec(), vec![9]);
    assert_eq!(Pixel::RGB(1, 2, 3).into_vec(), vec![1, 2, 3]);
    assert_eq!(Pixel::RGBAlpha(1, 2, 3, 4).into_vec(), vec![1, 2, 3, 4]);
    assert_eq!(Pixel::GrayAlpha(7, 8).into_vec(), vec![7, 8]);
}
