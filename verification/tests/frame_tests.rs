use ray_tracing_utils::frame::draw;
use ray_tracing_utils::image::{Image, Pixel};
use ray_tracing_utils::ppm::ppm_parse;

#[test]
fn draw_writes_rgba_quadruples_in_order() {
    let img = Image {
        width: 2,
        height: 1,
        data: vec![
            Pixel { r: 1, g: 2, b: 3, a: 4 },
            Pixel { r: 5, g: 6, b: 7, a: 8 },
        ],
    };
    let mut frame = vec![0u8; 8];
    draw(&mut frame, &img);
    assert_eq!(frame, vec![1, 2, 3, 4, 5, 6, 7, 8]);
}

#[test]
fn draw_keeps_bytes_after_the_last_quadruple() {
    let img = Image {
        width: 2,
        height: 1,
        data: vec![
            Pixel { r: 1, g: 2, b: 3, a: 4 },
            Pixel { r: 5, g: 6, b: 7, a: 8 },
        ],
    };
    let mut frame = vec![9u8; 10];
    draw(&mut frame, &img);
    assert_eq!(frame, vec![1, 2, 3, 4, 5, 6, 7, 8, 9, 9]);
}

#[test]
fn draw_fills_only_the_frame_it_is_given() {
    let img = Image {
        width: 2,
        height: 1,
        data: vec![
            Pixel { r: 1, g: 2, b: 3, a: 4 },
            Pixel { r: 5, g: 6, b: 7, a: 8 },
        ],
    };
    let mut frame = vec![0u8; 4];
    draw(&mut frame, &img);
    assert_eq!(frame, vec![1, 2, 3, 4]);
}

#[test]
fn parsed_document_blits_as_opaque_rgba() {
    let img = ppm_parse(&b"P3\n1 2\n255\n11 22 33\n44 55 66\n".to_vec()).unwrap();
    let mut frame = vec![0u8; 8];
    draw(&mut frame, &img);
    assert_eq!(frame, vec![11, 22, 33, 255, 44, 55, 66, 255]);
}
