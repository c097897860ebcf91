use pixel_snapper::error::PixelSnapperError;
use pixel_snapper::picture::{
    accept_image, check_profile_size, image_from_samples, pixels_from_samples, read_image,
    samples_from_pixels, validate_image_dimensions, write_image, Color, Image, Pixel,
};

fn refusal<T: std::fmt::Debug>(result: Result<T, PixelSnapperError>) -> String {
    match result {
        Err(PixelSnapperError::InvalidInput(words)) => words,
        other => panic!("{:?}", other),
    }
}

fn sample_image() -> Image {
    Image {
        width: 3,
        height: 2,
        pixels: (0u8..6).map(|i| Pixel { r: i, g: 10 * i, b: 200 - i, a: 40 * i }).collect(),
    }
}

#[test]
fn numbers_of_colours_and_pixels() {
    assert_eq!(Color { r: 1, g: 2, b: 3 }.to_number(), 0x010203);
    assert_eq!(Color::from_number(0xfe0102), Color { r: 254, g: 1, b: 2 });
    assert_eq!(Pixel { r: 1, g: 2, b: 3, a: 4 }.to_number(), 0x01020304);
    assert_eq!(Pixel { r: 1, g: 2, b: 3, a: 4 }.to_color(), Color { r: 1, g: 2, b: 3 });
}

#[test]
fn samples_and_pixels() {
    let samples = vec![1, 2, 3, 4, 5, 6, 7, 8];
    let pixels = pixels_from_samples(&samples);
    assert_eq!(pixels[1], Pixel { r: 5, g: 6, b: 7, a: 8 });
    assert_eq!(samples_from_pixels(&pixels), samples);
}

#[test]
fn looking_up_and_copying() {
    let image = sample_image();
    assert_eq!(image.get(2, 1), image.pixels[5]);
    assert_eq!(image.get(0, 1), image.pixels[3]);
    assert_eq!(image.copy().pixels, image.pixels);
}

#[test]
fn sizes_that_are_refused() {
    assert_eq!(refusal(validate_image_dimensions(0, 5)), "Image dimensions cannot be zero");
    assert_eq!(refusal(validate_image_dimensions(20000, 0)), "Image dimensions cannot be zero");
    assert_eq!(
        refusal(validate_image_dimensions(10001, 5)),
        "Image dimensions too large (max 10000x10000)"
    );
    assert!(validate_image_dimensions(10000, 1).is_ok());
    assert_eq!(refusal(check_profile_size(2, 9)), "Image too small (minimum 3x3)");
    assert_eq!(refusal(check_profile_size(9, 2)), "Image too small (minimum 3x3)");
    assert!(check_profile_size(3, 3).is_ok());
}

#[test]
fn an_image_of_samples() {
    let image = image_from_samples(1, 2, &vec![1, 2, 3, 4, 5, 6, 7, 8]);
    assert_eq!((image.width, image.height), (1, 2));
    assert_eq!(image.pixels[0], Pixel { r: 1, g: 2, b: 3, a: 4 });
}

#[test]
fn accepting_decoded_images() {
    let buffer = image::RgbImage::from_raw(1, 2, vec![1, 2, 3, 5, 6, 7]).unwrap();
    let image = accept_image(&image::DynamicImage::ImageRgb8(buffer)).unwrap();
    assert_eq!((image.width, image.height), (1, 2));
    assert_eq!(
        image.pixels,
        vec![Pixel { r: 1, g: 2, b: 3, a: 255 }, Pixel { r: 5, g: 6, b: 7, a: 255 }]
    );
    let empty = image::DynamicImage::ImageLuma8(image::GrayImage::new(3, 0));
    assert_eq!(refusal(accept_image(&empty)), "Image dimensions cannot be zero");
}

#[test]
fn a_wide_image_without_rows_is_refused_by_its_size() {
    let bytes = b"P5\n1073741824 0\n255\n";
    assert_eq!(refusal(read_image(bytes)), "Image dimensions cannot be zero");
}

#[test]
fn what_is_written_is_read_back() {
    let image = sample_image();
    let bytes = write_image(&image).unwrap();
    assert_eq!(bytes[..4], [0x89, b'P', b'N', b'G']);
    let read = read_image(&bytes).unwrap();
    assert_eq!((read.width, read.height), (3, 2));
    assert_eq!(read.pixels, image.pixels);
}

#[test]
fn images_without_opacity_are_read_as_opaque() {
    let grey = image::GrayImage::from_raw(2, 1, vec![7, 250]).unwrap();
    let mut bytes = Vec::new();
    grey.write_to(&mut std::io::Cursor::new(&mut bytes), image::ImageFormat::Png).unwrap();
    let read = read_image(&bytes).unwrap();
    assert_eq!(
        read.pixels,
        vec![Pixel { r: 7, g: 7, b: 7, a: 255 }, Pixel { r: 250, g: 250, b: 250, a: 255 }]
    );
}

#[test]
fn an_image_that_is_too_large_is_refused() {
    let wide = image::GrayImage::new(10001, 1);
    let mut bytes = Vec::new();
    wide.write_to(&mut std::io::Cursor::new(&mut bytes), image::ImageFormat::Png).unwrap();
    assert_eq!(refusal(read_image(&bytes)), "Image dimensions too large (max 10000x10000)");
}

#[test]
fn bytes_that_are_no_image() {
    let error = read_image(&[1, 2, 3]).unwrap_err();
    assert!(matches!(error, PixelSnapperError::ImageError(_)));
    assert!(error.message().starts_with("Image error: "));
}

#[test]
fn an_empty_image_cannot_be_written() {
    let image = Image { width: 0, height: 0, pixels: vec![] };
    assert!(matches!(write_image(&image), Err(PixelSnapperError::ImageError(_))));
}

#[test]
fn errors_in_words() {
    let invalid = PixelSnapperError::InvalidInput("a".to_string());
    assert_eq!(invalid.message(), "Invalid input: a");
    let undone = PixelSnapperError::ProcessingError("b".to_string());
    assert_eq!(undone.message(), "Processing error: b");
}

#[test]
fn image_errors_are_told_in_their_own_words() {
    let inner = image::load_from_memory(&[1, 2, 3]).unwrap_err();
    let words = inner.to_string();
    assert_eq!(PixelSnapperError::from(inner).message(), format!("Image error: {}", words));
}
