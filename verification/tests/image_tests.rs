use png_image::{ColorType, Image, ImageError, Pixel};

fn rgb_2x1() -> Image {
    Image {
        height: 1,
        width: 2,
        color_type: ColorType::RGB(),
        data: vec![255, 0, 0, 0, 255, 0],
    }
}

fn gray_3x3() -> Image {
    Image {
        height: 3,
        width: 3,
        color_type: ColorType::Gray(),
        data: vec![1, 2, 3, 4, 5, 6, 7, 8, 9],
    }
}

#[test]
fn get_pixel_reads_each_layout() {
    let img = rgb_2x1();
    assert_eq!(img.get_pixel(0, 0), Ok(Pixel::RGB(255, 0, 0)));
    assert_eq!(img.get_pixel(1, 0), Ok(Pixel::RGB(0, 255, 0)));

    let gray = gray_3x3();
    assert_eq!(gray.get_pixel(0, 0), Ok(Pixel::Gray(1)));
    assert_eq!(gray.get_pixel(2, 1), Ok(Pixel::Gray(6)));
    assert_eq!(gray.get_pixel(1, 2), Ok(Pixel::Gray(8)));

    let ga = Image {
        height: 1,
        width: 2,
        color_type: ColorType::GrayAlpha(),
        data: vec![10, 200, 20, 100],
    };
    assert_eq!(ga.get_pixel(1, 0), Ok(Pixel::GrayAlpha(20, 100)));

    let rgba = Image {
        height: 2,
        width: 1,
        color_type: ColorType::RGBAlpha(),
        data: vec![1, 2, 3, 4, 5, 6, 7, 8],
    };
    assert_eq!(rgba.get_pixel(0, 1), Ok(Pixel::RGBAlpha(5, 6, 7, 8)));
}

#[test]
fn get_pixel_out_of_bounds_fails() {
    let img = gray_3x3();
    assert_eq!(img.get_pixel(3, 0), Err(ImageError::IndexOutOfRange));
    assert_eq!(img.get_pixel(0, 3), Err(ImageError::IndexOutOfRange));
    assert_eq!(img.get_pixel(3, 3), Err(ImageError::IndexOutOfRange));
    let rgb = rgb_2x1();
    assert_eq!(rgb.get_pixel(2, 0), Err(ImageError::IndexOutOfRange));
    assert_eq!(rgb.get_pixel(0, 1), Err(ImageError::IndexOutOfRange));
}

#[test]
fn corrupt_buffer_is_reported() {
    let bad = Image {
        height: 2,
        width: 2,
        color_type: ColorType::RGB(),
        data: vec![1, 2, 3],
    };
    assert!(!bad.is_well_formed());
    assert!(gray_3x3().is_well_formed());
    assert_eq!(bad.get_pixel(0, 0), Err(ImageError::CorruptBuffer));
    assert!(matches!(bad.flip_vertical(), Err(ImageError::CorruptBuffer)));
    assert!(matches!(bad.flip_horizontal(), Err(ImageError::CorruptBuffer)));
    assert!(matches!(bad.convert(ColorType::Gray()), Err(ImageError::CorruptBuffer)));
    assert!(matches!(bad.crop(0, 0, 0, 0), Err(ImageError::CorruptBuffer)));
}

#[test]
fn convert_rgb_to_gray_uses_luminance() {
    let img = rgb_2x1();
    let gray = img.convert(ColorType::Gray()).unwrap();
    assert_eq!(gray.width, 2);
    assert_eq!(gray.height, 1);
    assert_eq!(gray.color_type, ColorType::Gray());
    assert_eq!(gray.data, vec![76, 150]);
}

#[test]
fn convert_gray_to_rgba_replicates_and_defaults_alpha() {
    let img = Image {
        height: 1,
        width: 2,
        color_type: ColorType::Gray(),
        data: vec![10, 20],
    };
    let rgba = img.convert(ColorType::RGBAlpha()).unwrap();
    assert_eq!(rgba.color_type, ColorType::RGBAlpha());
    assert_eq!(rgba.data, vec![10, 10, 10, 255, 20, 20, 20, 255]);
}

#[test]
fn convert_round_trip_recovers_gray_image() {
    let img = Image {
        height: 2,
        width: 2,
        color_type: ColorType::Gray(),
        data: vec![0, 55, 200, 255],
    };
    let back = img
        .convert(ColorType::RGBAlpha())
        .unwrap()
        .convert(ColorType::Gray())
        .unwrap();
    assert_eq!(back.width, img.width);
    assert_eq!(back.height, img.height);
    assert_eq!(back.color_type, img.color_type);
    assert_eq!(back.data, img.data);
}

#[test]
fn convert_rgba_to_rgb_drops_alpha() {
    let img = Image {
        height: 1,
        width: 2,
        color_type: ColorType::RGBAlpha(),
        data: vec![1, 2, 3, 9, 4, 5, 6, 0],
    };
    let rgb = img.convert(ColorType::RGB()).unwrap();
    assert_eq!(rgb.data, vec![1, 2, 3, 4, 5, 6]);
}

#[test]
fn convert_to_own_layout_copies_data() {
    let img = rgb_2x1();
    let same = img.convert(ColorType::RGB()).unwrap();
    assert_eq!(same.data, img.data);
    assert_eq!(same.width, img.width);
    assert_eq!(same.height, img.height);
}

#[test]
fn flip_vertical_reverses_rows() {
    let img = Image {
        height: 2,
        width: 1,
        color_type: ColorType::Gray(),
        data: vec![10, 20],
    };
    let flipped = img.flip_vertical().unwrap();
    assert_eq!(flipped.data, vec![20, 10]);
    assert_eq!(flipped.width, 1);
    assert_eq!(flipped.height, 2);
    assert_eq!(flipped.color_type, ColorType::Gray());
}

#[test]
fn flip_vertical_keeps_rows_intact() {
    let img = Image {
        height: 2,
        width: 2,
        color_type: ColorType::RGB(),
        data: vec![1, 2, 3, 4, 5, 6, 7, 8, 9, 10, 11, 12],
    };
    let flipped = img.flip_vertical().unwrap();
    assert_eq!(flipped.data, vec![7, 8, 9, 10, 11, 12, 1, 2, 3, 4, 5, 6]);
}

#[test]
fn flip_vertical_twice_is_identity() {
    let img = gray_3x3();
    let back = img.flip_vertical().unwrap().flip_vertical().unwrap();
    assert_eq!(back.width, img.width);
    assert_eq!(back.height, img.height);
    assert_eq!(back.color_type, img.color_type);
    assert_eq!(back.data, img.data);
}

#[test]
fn flip_horizontal_reverses_gray_rows() {
    let img = Image {
        height: 2,
        width: 3,
        color_type: ColorType::Gray(),
        data: vec![1, 2, 3, 4, 5, 6],
    };
    let flipped = img.flip_horizontal().unwrap();
    assert_eq!(flipped.data, vec![3, 2, 1, 6, 5, 4]);
}

#[test]
fn flip_horizontal_reverses_bytes_not_pixels() {
    let img = rgb_2x1();
    let flipped = img.flip_horizontal().unwrap();
    assert_eq!(flipped.data, vec![0, 255, 0, 0, 0, 255]);
}

#[test]
fn crop_of_zero_amounts_is_identity() {
    let img = gray_3x3();
    let same = img.crop(0, 0, 0, 0).unwrap();
    assert_eq!(same.width, img.width);
    assert_eq!(same.height, img.height);
    assert_eq!(same.color_type, img.color_type);
    assert_eq!(same.data, img.data);
}

#[test]
fn crop_beyond_extent_returns_input_unchanged() {
    let img = gray_3x3();
    let same = img.crop(3, 0, 0, 0).unwrap();
    assert_eq!(same.width, 3);
    assert_eq!(same.data, img.data);
    let same = img.crop(100, 0, 0, 0).unwrap();
    assert_eq!(same.width, 3);
    assert_eq!(same.data, img.data);
    let same = img.crop(0, 0, 7, 0).unwrap();
    assert_eq!(same.height, 3);
    assert_eq!(same.data, img.data);
}

#[test]
fn crop_each_edge() {
    let img = gray_3x3();
    let left = img.crop(1, 0, 0, 0).unwrap();
    assert_eq!((left.width, left.height), (2, 3));
    assert_eq!(left.data, vec![2, 3, 5, 6, 8, 9]);
    let right = img.crop(0, 1, 0, 0).unwrap();
    assert_eq!((right.width, right.height), (2, 3));
    assert_eq!(right.data, vec![1, 2, 4, 5, 7, 8]);
    let top = img.crop(0, 0, 1, 0).unwrap();
    assert_eq!((top.width, top.height), (3, 2));
    assert_eq!(top.data, vec![4, 5, 6, 7, 8, 9]);
    let bottom = img.crop(0, 0, 0, 1).unwrap();
    assert_eq!((bottom.width, bottom.height), (3, 2));
    assert_eq!(bottom.data, vec![1, 2, 3, 4, 5, 6]);
}

#[test]
fn crop_all_edges_leaves_center() {
    let img = gray_3x3();
    let center = img.crop(1, 1, 1, 1).unwrap();
    assert_eq!((center.width, center.height), (1, 1));
    assert_eq!(center.data, vec![5]);
}

#[test]
fn crop_multichannel_rows() {
    let img = Image {
        height: 2,
        width: 2,
        color_type: ColorType::RGB(),
        data: vec![1, 2, 3, 4, 5, 6, 7, 8, 9, 10, 11, 12],
    };
    let left = img.crop(1, 0, 0, 0).unwrap();
    assert_eq!((left.width, left.height), (1, 2));
    assert_eq!(left.data, vec![4, 5, 6, 10, 11, 12]);
}

#[test]
fn empty_image_transforms() {
    let img = Image {
        height: 0,
        width: 0,
        color_type: ColorType::RGB(),
        data: vec![],
    };
    assert_eq!(img.flip_vertical().unwrap().data, Vec::<u8>::new());
    assert_eq!(img.flip_horizontal().unwrap().data, Vec::<u8>::new());
    assert_eq!(img.convert(ColorType::Gray()).unwrap().data, Vec::<u8>::new());
    assert_eq!(img.crop(1, 2, 3, 4).unwrap().data, Vec::<u8>::new());
    assert_eq!(img.get_pixel(0, 0), Err(ImageError::IndexOutOfRange));
}
