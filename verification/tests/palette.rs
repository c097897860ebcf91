use pixel_snapper::error::PixelSnapperError;
use pixel_snapper::palette::{
    color_distance, map_image_to_palette, nearest_palette_color, parse_hex_color,
    parse_palette_colors,
};
use pixel_snapper::picture::{Color, Image, Pixel};

fn color(r: u8, g: u8, b: u8) -> Color {
    Color { r, g, b }
}

fn hex(text: &str) -> Option<Color> {
    parse_hex_color(&text.chars().collect())
}

#[test]
fn hex_colours() {
    assert_eq!(hex("#ff8000"), Some(color(255, 128, 0)));
    assert_eq!(hex("Ff8000"), Some(color(255, 128, 0)));
    assert_eq!(hex(" ##010203 "), Some(color(1, 2, 3)));
    assert_eq!(hex("#fff"), None);
    assert_eq!(hex("#ff80zz"), None);
    assert_eq!(hex("#ff80001"), None);
}

#[test]
fn palettes_are_sorted_without_repetitions() {
    let read = parse_palette_colors("#ff0000 #00ff00;0000ff,#FF0000").unwrap();
    assert_eq!(read, vec![color(0, 0, 255), color(0, 255, 0), color(255, 0, 0)]);
}

#[test]
fn palette_lines_of_numbers() {
    let read = parse_palette_colors("10,20,30\r\n a,b,c, 1 ,+2,3 \n\n#040506").unwrap();
    assert_eq!(read, vec![color(1, 2, 3), color(4, 5, 6), color(10, 20, 30)]);
    // Six fields of numbers: the last three are the colour.
    assert_eq!(parse_palette_colors("1,2,3,4,5,6").unwrap(), vec![color(4, 5, 6)]);
    // Where those are no colour, the first three are.
    assert_eq!(parse_palette_colors("1,2,3,4,5,600").unwrap(), vec![color(1, 2, 3)]);
}

#[test]
fn words_that_are_no_colours_are_passed_over() {
    assert_eq!(parse_palette_colors("red #0000ff 300,0,0").unwrap(), vec![color(0, 0, 255)]);
}

#[test]
fn a_palette_without_colours_is_refused() {
    for text in ["", "  \n", "red green", "300,1,1"] {
        match parse_palette_colors(text) {
            Err(PixelSnapperError::InvalidInput(words)) => {
                assert_eq!(words, "palette must contain at least one RGB color")
            }
            other => panic!("{:?}", other),
        }
    }
}

#[test]
fn distances_are_sums_of_squares() {
    assert_eq!(color_distance(color(0, 0, 0), color(255, 255, 255)), 195075);
    assert_eq!(color_distance(color(1, 5, 9), color(4, 1, 9)), 25);
}

#[test]
fn the_first_of_equally_near_colours_is_taken() {
    let palette = vec![color(0, 0, 0), color(20, 0, 0)];
    assert_eq!(nearest_palette_color(color(10, 0, 0), &palette), color(0, 0, 0));
    assert_eq!(nearest_palette_color(color(11, 0, 0), &palette), color(20, 0, 0));
    assert_eq!(nearest_palette_color(color(11, 0, 0), &vec![]), color(0, 0, 0));
}

#[test]
fn mapping_keeps_opacity_and_hidden_pixels() {
    let image = Image {
        width: 2,
        height: 1,
        pixels: vec![Pixel { r: 250, g: 9, b: 9, a: 7 }, Pixel { r: 1, g: 2, b: 3, a: 0 }],
    };
    let palette = vec![color(0, 0, 0), color(255, 0, 0)];
    let painted = map_image_to_palette(&image, &palette);
    assert_eq!((painted.width, painted.height), (2, 1));
    assert_eq!(
        painted.pixels,
        vec![Pixel { r: 255, g: 0, b: 0, a: 7 }, Pixel { r: 1, g: 2, b: 3, a: 0 }]
    );
    assert_eq!(map_image_to_palette(&painted, &palette).pixels, painted.pixels);
}
