use ray_tracing_utils::image::{Image, Pixel};

#[test]
fn pixel_default_is_opaque_black() {
    let p = Pixel::default();
    assert_eq!(p, Pixel { r: 0x00, g: 0x00, b: 0x00, a: 0xff });
}

#[test]
fn new_image_has_one_default_pixel_per_cell() {
    let img = Image::new(3, 2);
    assert_eq!(img.width, 3);
    assert_eq!(img.height, 2);
    assert_eq!(img.data.len(), 6);
    for k in 0..6 {
        assert_eq!(img.get_pixel(k), Pixel::default());
    }
}

#[test]
fn zero_size_image_is_empty() {
    let img = Image::new(0, 5);
    assert_eq!(img.width, 0);
    assert_eq!(img.height, 5);
    assert_eq!(img.data.len(), 0);
}

#[test]
fn get_pixel_returns_the_indexed_pixel() {
    let img = Image {
        width: 2,
        height: 1,
        data: vec![
            Pixel { r: 1, g: 2, b: 3, a: 255 },
            Pixel { r: 4, g: 5, b: 6, a: 255 },
        ],
    };
    assert_eq!(img.get_pixel(0), Pixel { r: 1, g: 2, b: 3, a: 255 });
    assert_eq!(img.get_pixel(1), Pixel { r: 4, g: 5, b: 6, a: 255 });
}
