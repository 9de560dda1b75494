use ray_tracing_utils::image::{Image, Pixel};
use ray_tracing_utils::ppm::{ppm_encode, ppm_parse, PpmError};

#[test]
fn parse_minimal_valid_document() {
    let img = ppm_parse(&b"P3\n1 1\n255\n7 8 9\n".to_vec()).unwrap();
    assert_eq!(img.width, 1);
    assert_eq!(img.height, 1);
    assert_eq!(img.data, vec![Pixel { r: 7, g: 8, b: 9, a: 255 }]);
}

#[test]
fn parse_accepts_missing_final_newline() {
    let img = ppm_parse(&b"P3\n1 1\n255\n7 8 9".to_vec()).unwrap();
    assert_eq!(img.data, vec![Pixel { r: 7, g: 8, b: 9, a: 255 }]);
}

#[test]
fn parse_keeps_row_major_order() {
    let img = ppm_parse(&b"P3\n2 2\n255\n1 0 0\n0 2 0\n0 0 3\n4 4 4\n".to_vec()).unwrap();
    assert_eq!(img.width, 2);
    assert_eq!(img.height, 2);
    assert_eq!(img.data.len(), 4);
    assert_eq!(img.data[0], Pixel { r: 1, g: 0, b: 0, a: 255 });
    assert_eq!(img.data[1], Pixel { r: 0, g: 2, b: 0, a: 255 });
    assert_eq!(img.data[2], Pixel { r: 0, g: 0, b: 3, a: 255 });
    assert_eq!(img.data[3], Pixel { r: 4, g: 4, b: 4, a: 255 });
}

#[test]
fn parse_accepts_leading_zeros() {
    let img = ppm_parse(&b"P3\n1 1\n255\n007 000 255\n".to_vec()).unwrap();
    assert_eq!(img.data, vec![Pixel { r: 7, g: 0, b: 255, a: 255 }]);
}

#[test]
fn parse_accepts_zero_pixel_document() {
    let img = ppm_parse(&b"P3\n0 0\n255\n".to_vec()).unwrap();
    assert_eq!(img.width, 0);
    assert_eq!(img.height, 0);
    assert_eq!(img.data.len(), 0);
}

#[test]
fn parse_accepts_widest_declarable_size_with_no_rows() {
    let img = ppm_parse(&b"P3\n4294967295 0\n255\n".to_vec()).unwrap();
    assert_eq!(img.width, 4294967295);
    assert_eq!(img.height, 0);
    assert_eq!(img.data.len(), 0);
}

#[test]
fn empty_input_is_truncated() {
    assert_eq!(ppm_parse(&b"".to_vec()), Err(PpmError::Truncated));
}

#[test]
fn two_header_lines_are_truncated() {
    assert_eq!(ppm_parse(&b"P3\n1 1\n".to_vec()), Err(PpmError::Truncated));
}

#[test]
fn wrong_magic_is_rejected() {
    assert_eq!(ppm_parse(&b"P6\n1 1\n255\n0 0 0\n".to_vec()), Err(PpmError::BadMagic));
}

#[test]
fn lowercase_magic_is_rejected() {
    assert_eq!(ppm_parse(&b"p3\n1 1\n255\n0 0 0\n".to_vec()), Err(PpmError::BadMagic));
}

#[test]
fn non_numeric_dimensions_are_rejected() {
    assert_eq!(ppm_parse(&b"P3\nw h\n255\n0 0 0\n".to_vec()), Err(PpmError::BadDims));
}

#[test]
fn one_dimension_token_is_rejected() {
    assert_eq!(ppm_parse(&b"P3\n2\n255\n0 0 0\n".to_vec()), Err(PpmError::BadDims));
}

#[test]
fn three_dimension_tokens_are_rejected() {
    assert_eq!(ppm_parse(&b"P3\n1 1 1\n255\n0 0 0\n".to_vec()), Err(PpmError::BadDims));
}

#[test]
fn oversized_width_is_rejected() {
    assert_eq!(
        ppm_parse(&b"P3\n4294967296 1\n255\n0 0 0\n".to_vec()),
        Err(PpmError::BadDims)
    );
}

#[test]
fn wrong_maximum_channel_line_is_rejected() {
    assert_eq!(ppm_parse(&b"P3\n1 1\n254\n0 0 0\n".to_vec()), Err(PpmError::BadMaxVal));
}

#[test]
fn padded_maximum_channel_line_is_rejected() {
    assert_eq!(ppm_parse(&b"P3\n1 1\n255 \n0 0 0\n".to_vec()), Err(PpmError::BadMaxVal));
}

#[test]
fn oversized_channel_value_is_rejected() {
    assert_eq!(ppm_parse(&b"P3\n1 1\n255\n256 0 0\n".to_vec()), Err(PpmError::BadPixel));
}

#[test]
fn two_channel_pixel_line_is_rejected() {
    assert_eq!(ppm_parse(&b"P3\n1 1\n255\n1 2\n".to_vec()), Err(PpmError::BadPixel));
}

#[test]
fn empty_pixel_line_is_rejected() {
    assert_eq!(ppm_parse(&b"P3\n1 1\n255\n\n".to_vec()), Err(PpmError::BadPixel));
}

#[test]
fn too_few_pixel_lines_are_rejected() {
    assert_eq!(ppm_parse(&b"P3\n2 1\n255\n0 0 0\n".to_vec()), Err(PpmError::PixelCount));
}

#[test]
fn too_many_pixel_lines_are_rejected() {
    assert_eq!(
        ppm_parse(&b"P3\n1 1\n255\n0 0 0\n1 1 1\n".to_vec()),
        Err(PpmError::PixelCount)
    );
}

#[test]
fn encode_writes_the_exact_document() {
    let img = Image {
        width: 1,
        height: 1,
        data: vec![Pixel { r: 1, g: 2, b: 3, a: 255 }],
    };
    assert_eq!(ppm_encode(&img), b"P3\n1 1\n255\n1 2 3\n".to_vec());
}

#[test]
fn encode_writes_multi_digit_channels() {
    let img = Image {
        width: 1,
        height: 1,
        data: vec![Pixel { r: 255, g: 0, b: 17, a: 255 }],
    };
    assert_eq!(ppm_encode(&img), b"P3\n1 1\n255\n255 0 17\n".to_vec());
}

#[test]
fn encode_of_empty_image_is_header_only() {
    let img = Image { width: 0, height: 0, data: vec![] };
    assert_eq!(ppm_encode(&img), b"P3\n0 0\n255\n".to_vec());
}

#[test]
fn encode_then_parse_recovers_the_image() {
    let img = Image {
        width: 2,
        height: 2,
        data: vec![
            Pixel { r: 10, g: 20, b: 30, a: 255 },
            Pixel { r: 0, g: 255, b: 7, a: 255 },
            Pixel { r: 101, g: 102, b: 103, a: 255 },
            Pixel { r: 9, g: 0, b: 0, a: 255 },
        ],
    };
    assert_eq!(ppm_parse(&ppm_encode(&img)), Ok(img));
}
