//! Colours, pixels and images, and how images are read and written.

use image::GenericImageView;
use vstd::prelude::*;
use crate::error::{invalid_input, PixelSnapperError};

verus! {

/// A colour.
#[derive(Clone, Copy, Debug, PartialEq, Eq, Structural)]
pub struct Color {
    pub r: u8,
    pub g: u8,
    pub b: u8,
}

impl Color {
    /// The colour as one number. Numbers order as the colours do, by red, then green, then blue.
    pub open spec fn number(self) -> int {
        self.r * 65536 + self.g * 256 + self.b
    }

    /// The colour as one number.
    pub fn to_number(&self) -> (n: usize)
        ensures
            n == self.number(),
            n < 0x100_0000,
    {
        self.r as usize * 65536 + self.g as usize * 256 + self.b as usize
    }

    /// The colour of a number.
    pub fn from_number(n: usize) -> (c: Color)
        requires
            n < 0x100_0000,
        ensures
            c.number() == n,
    {
        Color { r: (n / 65536) as u8, g: (n / 256 % 256) as u8, b: (n % 256) as u8 }
    }
}

/// Two colours with the same number are the same.
pub proof fn color_number_is_unique(a: Color, b: Color)
    requires
        a.number() == b.number(),
    ensures
        a == b,
{
}

/// A colour with its opacity.
#[derive(Clone, Copy, Debug, PartialEq, Eq, Structural)]
pub struct Pixel {
    pub r: u8,
    pub g: u8,
    pub b: u8,
    pub a: u8,
}

impl Pixel {
    /// The pixel without its opacity.
    pub open spec fn color(self) -> Color {
        Color { r: self.r, g: self.g, b: self.b }
    }

    /// The pixel as one number. Numbers order as the pixels do, by red, green, blue, then opacity.
    pub open spec fn number(self) -> int {
        self.r * 16777216 + self.g * 65536 + self.b * 256 + self.a
    }

    /// The pixel without its opacity.
    pub fn to_color(&self) -> (c: Color)
        ensures
            c == self.color(),
    {
        Color { r: self.r, g: self.g, b: self.b }
    }

    /// The pixel as one number.
    pub fn to_number(&self) -> (n: u32)
        ensures
            n == self.number(),
    {
        self.r as u32 * 16777216 + self.g as u32 * 65536 + self.b as u32 * 256 + self.a as u32
    }
}

/// Two pixels with the same number are the same.
pub proof fn pixel_number_is_unique(a: Pixel, b: Pixel)
    requires
        a.number() == b.number(),
    ensures
        a == b,
{
    let low_a = a.g * 65536 + a.b * 256 + a.a;
    let low_b = b.g * 65536 + b.b * 256 + b.a;
    assert(a.r == b.r) by {
        assert(0 <= low_a < 16777216 && 0 <= low_b < 16777216);
    }
    assert(low_a == low_b);
    assert(a.g == b.g) by {
        assert(0 <= a.b * 256 + a.a < 65536 && 0 <= b.b * 256 + b.a < 65536);
    }
    assert(a.b == b.b);
}

/// The pixel that nothing was painted on.
pub open spec fn clear() -> Pixel {
    Pixel { r: 0, g: 0, b: 0, a: 0 }
}

/// The pixel that nothing was painted on.
pub fn clear_pixel() -> (p: Pixel)
    ensures
        p == clear(),
{
    Pixel { r: 0, g: 0, b: 0, a: 0 }
}

/// An image, row by row from the top.
#[derive(Debug)]
pub struct Image {
    pub width: u32,
    pub height: u32,
    pub pixels: Vec<Pixel>,
}

/// The place of a pixel in the list of rows is in the list, and its row comes before.
pub proof fn place_in_rows(x: int, y: int, width: int, height: int)
    requires
        0 <= x < width,
        0 <= y < height,
    ensures
        0 <= y * width,
        y * width + x < width * height,
{
    assert(y * width + x < width * height) by (nonlinear_arith)
        requires
            0 <= x < width,
            0 <= y < height,
    ;
    assert(0 <= y * width) by (nonlinear_arith)
        requires
            0 <= y,
            0 < width,
    ;
}

impl Image {
    /// There is one pixel for each place.
    pub open spec fn wf(self) -> bool {
        self.pixels@.len() == self.width * self.height
    }

    /// The pixel of column `x` in row `y`.
    pub open spec fn at(self, x: int, y: int) -> Pixel {
        self.pixels@[y * self.width + x]
    }

    /// The two images show the same.
    pub open spec fn same(self, other: Image) -> bool {
        &&& self.width == other.width
        &&& self.height == other.height
        &&& self.pixels@ == other.pixels@
    }

    /// Looks up a pixel.
    pub fn get(&self, x: usize, y: usize) -> (p: Pixel)
        requires
            self.wf(),
            x < self.width,
            y < self.height,
        ensures
            p == self.at(x as int, y as int),
    {
        let count: usize = self.pixels.len();
        proof {
            place_in_rows(x as int, y as int, self.width as int, self.height as int);
            assert(y * self.width + x < count);
        }
        self.pixels[y * self.width as usize + x]
    }

    /// Copies the image.
    pub fn copy(&self) -> (image: Image)
        ensures
            image.same(*self),
    {
        let mut pixels: Vec<Pixel> = Vec::new();
        let mut i: usize = 0;
        while i < self.pixels.len()
            invariant
                i <= self.pixels@.len(),
                pixels@ == self.pixels@.take(i as int),
            decreases self.pixels.len() - i,
        {
            pixels.push(self.pixels[i]);
            i += 1;
            proof {
                assert(pixels@ =~= self.pixels@.take(i as int));
            }
        }
        proof {
            assert(pixels@ =~= self.pixels@);
        }
        Image { width: self.width, height: self.height, pixels }
    }
}

/// The samples of pixels: red, green, blue and opacity of each in turn.
pub open spec fn samples_of(pixels: Seq<Pixel>) -> Seq<u8> {
    Seq::new(
        4 * pixels.len(),
        |i: int|
            if i % 4 == 0 {
                pixels[i / 4].r
            } else if i % 4 == 1 {
                pixels[i / 4].g
            } else if i % 4 == 2 {
                pixels[i / 4].b
            } else {
                pixels[i / 4].a
            },
    )
}

/// Makes pixels of samples.
pub fn pixels_from_samples(samples: &Vec<u8>) -> (pixels: Vec<Pixel>)
    requires
        samples@.len() % 4 == 0,
    ensures
        samples_of(pixels@) == samples@,
        4 * pixels@.len() == samples@.len(),
{
    let mut pixels: Vec<Pixel> = Vec::new();
    let mut i: usize = 0;
    while i < samples.len()
        invariant
            i <= samples@.len(),
            i % 4 == 0,
            samples@.len() % 4 == 0,
            4 * pixels@.len() == i,
            samples_of(pixels@) == samples@.take(i as int),
        decreases samples.len() - i,
    {
        let ghost before = pixels@;
        pixels.push(
            Pixel { r: samples[i], g: samples[i + 1], b: samples[i + 2], a: samples[i + 3] },
        );
        proof {
            assert forall|k: int| 0 <= k < i + 4 implies samples_of(pixels@)[k] == samples@[k] by {
                if k < i {
                    assert(samples_of(before)[k] == samples@.take(i as int)[k]);
                    assert(pixels@[k / 4] == before[k / 4]);
                }
            }
            assert(samples_of(pixels@) =~= samples@.take(i + 4));
        }
        i += 4;
    }
    proof {
        assert(samples@.take(i as int) =~= samples@);
    }
    pixels
}

/// Lists the samples of pixels.
pub fn samples_from_pixels(pixels: &Vec<Pixel>) -> (samples: Vec<u8>)
    ensures
        samples@ == samples_of(pixels@),
{
    let mut samples: Vec<u8> = Vec::new();
    let mut i: usize = 0;
    while i < pixels.len()
        invariant
            i <= pixels@.len(),
            samples@ == samples_of(pixels@.take(i as int)),
        decreases pixels.len() - i,
    {
        let p: Pixel = pixels[i];
        let ghost before = samples@;
        samples.push(p.r);
        samples.push(p.g);
        samples.push(p.b);
        samples.push(p.a);
        proof {
            let whole = samples_of(pixels@.take(i + 1));
            assert forall|k: int| 0 <= k < samples@.len() implies samples@[k] == whole[k] by {
                if k < before.len() {
                    assert(samples@[k] == before[k]);
                    assert(pixels@.take(i + 1)[k / 4] == pixels@.take(i as int)[k / 4]);
                }
            }
            assert(samples@ =~= whole);
        }
        i += 1;
    }
    proof {
        assert(pixels@.take(i as int) =~= pixels@);
    }
    samples
}

/// The samples of an image determine its pixels.
pub proof fn samples_determine_pixels(a: Seq<Pixel>, b: Seq<Pixel>)
    requires
        samples_of(a) == samples_of(b),
    ensures
        a == b,
{
    assert(samples_of(a).len() == 4 * a.len());
    assert(samples_of(b).len() == 4 * b.len());
    assert forall|i: int| 0 <= i < a.len() implies a[i] == b[i] by {
        assert((4 * i) / 4 == i && (4 * i + 1) / 4 == i && (4 * i + 2) / 4 == i && (4 * i + 3) / 4
            == i);
        assert(samples_of(a)[4 * i] == a[i].r && samples_of(b)[4 * i] == b[i].r);
        assert(samples_of(a)[4 * i + 1] == a[i].g && samples_of(b)[4 * i + 1] == b[i].g);
        assert(samples_of(a)[4 * i + 2] == a[i].b && samples_of(b)[4 * i + 2] == b[i].b);
        assert(samples_of(a)[4 * i + 3] == a[i].a && samples_of(b)[4 * i + 3] == b[i].a);
    }
    assert(a =~= b);
}

/// A decoded image of the `image` crate. Nothing is claimed of what is inside.
#[verifier::external_type_specification]
#[verifier::external_body]
pub struct ExDynamicImage(image::DynamicImage);

/// The bytes of an image file can be decoded to an image. It relates and does not equate, because
/// formats may also be decoded by hooks that a program registers while it runs.
pub uninterp spec fn decodes_to(bytes: Seq<u8>, decoded: image::DynamicImage) -> bool;

/// The decoding of bytes can be refused with an error. It relates for the same reason.
pub uninterp spec fn refused_with(bytes: Seq<u8>, error: image::ImageError) -> bool;

/// Calls `image::load_from_memory`. An image is one that the bytes can be decoded to, and an error is
/// one that they can be refused with. Which bytes are refused, and which image the others give, is up
/// to the decoders and is not stated.
#[verifier::external_body]
fn load_from_memory(bytes: &[u8]) -> (loaded: Result<image::DynamicImage, image::ImageError>)
    ensures
        match loaded {
            Ok(decoded) => decodes_to(bytes@, decoded),
            Err(e) => refused_with(bytes@, e),
        },
{
    image::load_from_memory(bytes)
}

/// The width and the height of a decoded image.
pub uninterp spec fn dimensions_of(decoded: image::DynamicImage) -> (u32, u32);

/// Calls `GenericImageView::dimensions`. The width and the height follow from the image alone.
#[verifier::external_body]
fn dimensions(decoded: &image::DynamicImage) -> (size: (u32, u32))
    ensures
        size == dimensions_of(*decoded),
{
    decoded.dimensions()
}

/// The samples of a decoded image: red, green, blue and opacity of each pixel, row by row.
pub uninterp spec fn rgba8_of(decoded: image::DynamicImage) -> Seq<u8>;

/// Calls `DynamicImage::to_rgba8`, and hands out the samples of every pixel of the image that it gives,
/// row by row. There are four to a pixel, and they follow from the decoded image alone. The size must
/// be a workable one: the samples of a larger image may be more than can be counted.
#[verifier::external_body]
fn to_rgba8(decoded: &image::DynamicImage) -> (samples: Vec<u8>)
    requires
        is_workable(dimensions_of(*decoded).0, dimensions_of(*decoded).1),
    ensures
        samples@ == rgba8_of(*decoded),
        samples@.len() == 4 * (dimensions_of(*decoded).0 * dimensions_of(*decoded).1),
{
    decoded.to_rgba8().pixels().flat_map(|pixel| pixel.0).collect()
}

/// The bytes of the PNG file that an image of these samples is encoded to, or nothing where the
/// encoder refuses it.
pub uninterp spec fn png_bytes(width: u32, height: u32, samples: Seq<u8>) -> Option<Seq<u8>>;

/// Calls `image::ImageBuffer::write_to` with the PNG format and a buffer in memory. The bytes
/// written, or that the encoder refuses, follow from the size and the samples alone. Of an image without
/// rows, one row must still be short enough to be counted.
#[verifier::external_body]
fn write_to_png(width: u32, height: u32, samples: Vec<u8>) -> (written: Result<
    Vec<u8>,
    image::ImageError,
>)
    requires
        samples@.len() == 4 * (width * height),
        height > 0 || 4 * width <= usize::MAX,
    ensures
        match written {
            Ok(bytes) => png_bytes(width, height, samples@) == Some(bytes@),
            Err(_) => png_bytes(width, height, samples@) is None,
        },
{
    let buffer = image::RgbaImage::from_raw(width, height, samples).unwrap();
    let mut bytes = Vec::new();
    buffer.write_to(&mut std::io::Cursor::new(&mut bytes), image::ImageFormat::Png)?;
    Ok(bytes)
}

/// The size is one that is worked on: neither side is empty or longer than ten thousand.
pub open spec fn is_workable(width: u32, height: u32) -> bool {
    0 < width <= 10000 && 0 < height <= 10000
}

/// What an image of a size that is not workable is refused with.
pub open spec fn size_refusal(width: u32, height: u32) -> Seq<char> {
    if width == 0 || height == 0 {
        "Image dimensions cannot be zero"@
    } else {
        "Image dimensions too large (max 10000x10000)"@
    }
}

/// Refuses images that are empty or too large.
pub fn validate_image_dimensions(width: u32, height: u32) -> (checked: Result<
    (),
    PixelSnapperError,
>)
    ensures
        checked is Ok <==> is_workable(width, height),
        checked matches Err(e) ==> e.is_invalid_input(size_refusal(width, height)),
{
    if width == 0 || height == 0 {
        return Err(invalid_input("Image dimensions cannot be zero"));
    }
    if width > 10000 || height > 10000 {
        return Err(invalid_input("Image dimensions too large (max 10000x10000)"));
    }
    Ok(())
}

/// Refuses images that are too small for edges to be looked for in them.
pub fn check_profile_size(width: u32, height: u32) -> (checked: Result<(), PixelSnapperError>)
    ensures
        checked is Ok <==> width >= 3 && height >= 3,
        checked matches Err(e) ==> e.is_invalid_input("Image too small (minimum 3x3)"@),
{
    if width < 3 || height < 3 {
        return Err(invalid_input("Image too small (minimum 3x3)"));
    }
    Ok(())
}

/// Makes an image of samples.
pub fn image_from_samples(width: u32, height: u32, samples: &Vec<u8>) -> (image: Image)
    requires
        samples@.len() == 4 * (width * height),
    ensures
        image.wf(),
        image.width == width,
        image.height == height,
        samples_of(image.pixels@) == samples@,
{
    Image { width, height, pixels: pixels_from_samples(samples) }
}

/// The image is what a decoded image shows.
pub open spec fn shows_decoded(image: Image, decoded: image::DynamicImage) -> bool {
    &&& image.wf()
    &&& (image.width, image.height) == dimensions_of(decoded)
    &&& samples_of(image.pixels@) == rgba8_of(decoded)
}

/// Takes an image that was decoded, if its size is workable. The size is looked at first.
pub fn accept_image(decoded: &image::DynamicImage) -> (accepted: Result<Image, PixelSnapperError>)
    ensures
        accepted is Ok <==> is_workable(dimensions_of(*decoded).0, dimensions_of(*decoded).1),
        match accepted {
            Ok(image) => shows_decoded(image, *decoded),
            Err(e) => e.is_invalid_input(
                size_refusal(dimensions_of(*decoded).0, dimensions_of(*decoded).1),
            ),
        },
{
    let (width, height): (u32, u32) = dimensions(decoded);
    match validate_image_dimensions(width, height) {
        Ok(()) => Ok(image_from_samples(width, height, &to_rgba8(decoded))),
        Err(e) => Err(e),
    }
}

/// Reads the image of an image file.
pub fn read_image(bytes: &[u8]) -> (read: Result<Image, PixelSnapperError>)
    ensures
        match read {
            Ok(image) => is_workable(image.width, image.height) && exists|decoded:
                image::DynamicImage| #[trigger]
                decodes_to(bytes@, decoded) && shows_decoded(image, decoded),
            Err(PixelSnapperError::ImageError(e)) => refused_with(bytes@, e),
            Err(e) => exists|decoded: image::DynamicImage| #[trigger]
                decodes_to(bytes@, decoded) && {
                    let (width, height) = dimensions_of(decoded);
                    !is_workable(width, height) && e.is_invalid_input(size_refusal(width, height))
                },
        },
{
    match load_from_memory(bytes) {
        Ok(decoded) => accept_image(&decoded),
        Err(e) => Err(PixelSnapperError::from(e)),
    }
}

/// Writes an image as a PNG file.
pub fn write_image(image: &Image) -> (written: Result<Vec<u8>, PixelSnapperError>)
    requires
        image.wf(),
        image.height > 0 || 4 * image.width <= usize::MAX,
    ensures
        match written {
            Ok(bytes) => png_bytes(image.width, image.height, samples_of(image.pixels@)) == Some(
                bytes@,
            ),
            Err(e) => e is ImageError && png_bytes(
                image.width,
                image.height,
                samples_of(image.pixels@),
            ) is None,
        },
{
    let samples: Vec<u8> = samples_from_pixels(&image.pixels);
    match write_to_png(image.width, image.height, samples) {
        Ok(bytes) => Ok(bytes),
        Err(e) => Err(PixelSnapperError::from(e)),
    }
}

/// Colours are numbered by red, then green, then blue.
pub proof fn colors_are_numbered_in_order(a: Color, b: Color)
    ensures
        a.number() < b.number() <==> a.r < b.r || (a.r == b.r && (a.g < b.g || (a.g == b.g && a.b
            < b.b))),
{
}

/// Pixels are numbered by red, then green, then blue, then opacity.
pub proof fn pixels_are_numbered_in_order(a: Pixel, b: Pixel)
    ensures
        a.number() < b.number() <==> a.r < b.r || (a.r == b.r && (a.g < b.g || (a.g == b.g && (a.b
            < b.b || (a.b == b.b && a.a < b.a))))),
{
    let low_a = a.g * 65536 + a.b * 256 + a.a;
    let low_b = b.g * 65536 + b.b * 256 + b.a;
    assert(0 <= low_a < 16777216 && 0 <= low_b < 16777216);
    let (end_a, end_b) = (a.b * 256 + a.a, b.b * 256 + b.a);
    assert(0 <= end_a < 65536 && 0 <= end_b < 65536);
    assert(low_a < low_b <==> a.g < b.g || (a.g == b.g && end_a < end_b));
    assert(end_a < end_b <==> a.b < b.b || (a.b == b.b && a.a < b.a));
}

/// Each pixel gives four samples, in the order of red, green, blue and opacity.
pub proof fn samples_are_channels(pixels: Seq<Pixel>, i: int)
    requires
        0 <= i < pixels.len(),
    ensures
        samples_of(pixels).len() == 4 * pixels.len(),
        samples_of(pixels)[4 * i] == pixels[i].r,
        samples_of(pixels)[4 * i + 1] == pixels[i].g,
        samples_of(pixels)[4 * i + 2] == pixels[i].b,
        samples_of(pixels)[4 * i + 3] == pixels[i].a,
{
    assert((4 * i) / 4 == i && (4 * i + 1) / 4 == i && (4 * i + 2) / 4 == i && (4 * i + 3) / 4 == i);
}

/// Pixels lie row by row: one further to the right is one further in the list, and one further down is a
/// row further.
pub proof fn pixels_lie_row_by_row(image: Image, x: int, y: int)
    requires
        image.wf(),
        0 <= x < image.width,
        0 <= y < image.height,
    ensures
        0 <= y * image.width + x < image.pixels@.len(),
        image.at(x, y) == image.pixels@[y * image.width + x],
        image.at(0, 0) == image.pixels@[0],
{
    place_in_rows(x, y, image.width as int, image.height as int);
}

/// The sizes that are worked on have sides from one to ten thousand. Of the others, an empty one is told to
/// be empty and any other to be too large.
pub proof fn workable_sizes(width: u32, height: u32)
    ensures
        is_workable(width, height) <==> 1 <= width && width <= 10000 && 1 <= height && height <= 10000,
        width == 0 || height == 0 ==> size_refusal(width, height)
            == "Image dimensions cannot be zero"@,
        width > 0 && height > 0 ==> size_refusal(width, height)
            == "Image dimensions too large (max 10000x10000)"@,
{
}

/// The image of a decoded one has its width and its height, and the pixel in column `x` and row `y` has the four
/// samples that stand in that place.
pub proof fn decoded_samples_are_pixels(image: Image, decoded: image::DynamicImage, x: int, y: int)
    requires
        shows_decoded(image, decoded),
        0 <= x < image.width,
        0 <= y < image.height,
    ensures
        image.width == dimensions_of(decoded).0,
        image.height == dimensions_of(decoded).1,
        ({
            let at = 4 * (y * image.width + x);
            let samples = rgba8_of(decoded);
            let p = image.pixels@[y * image.width + x];
            &&& 0 <= at && at + 3 < samples.len()
            &&& p.r == samples[at]
            &&& p.g == samples[at + 1]
            &&& p.b == samples[at + 2]
            &&& p.a == samples[at + 3]
        }),
{
    pixels_lie_row_by_row(image, x, y);
    samples_are_channels(image.pixels@, y * image.width + x);
}

} // verus!
