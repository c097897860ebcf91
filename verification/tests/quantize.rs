use pixel_snapper::config::Config;
use pixel_snapper::error::PixelSnapperError;
use pixel_snapper::picture::{Color, Image, Pixel};
use pixel_snapper::quantize::{
    paint, quantize_image, refines_again, sample_index, visible_colors, Draw, Quantized, Seeding,
};
use rand::{Rng, SeedableRng};
use rand_chacha::ChaCha8Rng;

fn grey(level: u8) -> Color {
    Color { r: level, g: level, b: level }
}

fn pixel(level: u8, a: u8) -> Pixel {
    Pixel { r: level, g: level, b: level, a }
}

fn row(pixels: Vec<Pixel>) -> Image {
    Image { width: pixels.len() as u32, height: 1, pixels }
}

#[test]
fn hidden_pixels_have_no_colour() {
    let pixels = vec![pixel(1, 255), pixel(2, 0), pixel(3, 1)];
    assert_eq!(visible_colors(&pixels), vec![grey(1), grey(3)]);
}

#[test]
fn no_colours_at_all_are_refused() {
    let mut config = Config::default();
    config.k_colors = 0;
    config.palette = Some(vec![grey(0)]);
    match quantize_image(&row(vec![pixel(1, 255)]), &config) {
        Err(PixelSnapperError::InvalidInput(words)) => {
            assert_eq!(words, "Number of colors must be greater than 0")
        }
        other => panic!("{:?}", other),
    }
}

#[test]
fn a_palette_is_used_as_it_is() {
    let mut config = Config::default();
    config.palette = Some(vec![grey(0), grey(100)]);
    match quantize_image(&row(vec![pixel(90, 9), pixel(7, 0)]), &config) {
        Ok(Quantized::Done(image)) => assert_eq!(image.pixels, vec![pixel(100, 9), pixel(7, 0)]),
        other => panic!("{:?}", other),
    }
}

#[test]
fn an_image_that_cannot_be_seen_stays() {
    let image = row(vec![pixel(90, 0), pixel(7, 0)]);
    match quantize_image(&image, &Config::default()) {
        Ok(Quantized::Done(same)) => assert_eq!(same.pixels, image.pixels),
        other => panic!("{:?}", other),
    }
}

#[test]
fn no_more_colours_than_pixels() {
    let image = row(vec![pixel(90, 255), pixel(7, 0), pixel(8, 255)]);
    let mut config = Config::default();
    for (asked, given) in [(1, 1), (2, 2), (16, 2)] {
        config.k_colors = asked;
        match quantize_image(&image, &config) {
            Ok(Quantized::Reduce { colors, count }) => {
                assert_eq!(colors, vec![grey(90), grey(8)]);
                assert_eq!(count, given);
            }
            other => panic!("{:?}", other),
        }
    }
}

#[test]
fn what_is_hidden_and_how_opaque_pixels_are_does_not_matter() {
    let a = row(vec![pixel(90, 255), pixel(7, 0), pixel(8, 255)]);
    let b = row(vec![pixel(90, 1), pixel(99, 0), pixel(8, 30)]);
    let colors = |image: &Image| match quantize_image(image, &Config::default()) {
        Ok(Quantized::Reduce { colors, count }) => (colors, count),
        other => panic!("{:?}", other),
    };
    assert_eq!(colors(&a), colors(&b));
    let (labels, palette) = (vec![1, 0], vec![grey(50), grey(60)]);
    let painted_a = paint(&a, &labels, &palette).pixels;
    let painted_b = paint(&b, &labels, &palette).pixels;
    for i in [0usize, 2] {
        assert_eq!(painted_a[i].to_color(), painted_b[i].to_color());
    }
}

#[test]
fn as_many_are_chosen_as_are_asked_for() {
    let mut seeding = Seeding::start(vec![grey(0), grey(2), grey(10)], 0);
    assert!(!seeding.wants_more(1));
    assert!(seeding.wants_more(2));
    seeding.choose_color(2);
    assert!(!seeding.wants_more(2));
    assert!(seeding.wants_more(3));
}

#[test]
fn a_painted_image_shows_no_more_colours_than_it_is_painted_with() {
    let image = row((0u8..30).map(|n| pixel(n, 255)).collect());
    let labels: Vec<usize> = (0..30).map(|n| n % 3).collect();
    let painted = paint(&image, &labels, &vec![grey(1), grey(5), grey(1)]);
    let mut shown: Vec<usize> =
        visible_colors(&painted.pixels).iter().map(|c| c.to_number()).collect();
    shown.sort_unstable();
    shown.dedup();
    assert_eq!(shown, vec![grey(1).to_number(), grey(5).to_number()]);
}

#[test]
fn places_are_drawn_as_the_generator_gives_them() {
    let mut drawn = ChaCha8Rng::seed_from_u64(9);
    let mut plain = ChaCha8Rng::seed_from_u64(9);
    for upper in 1usize..200 {
        let index = sample_index(&mut drawn, upper);
        assert!(index < upper);
        assert_eq!(index as u64, plain.gen_range(0..upper as u64));
    }
}

#[test]
fn the_first_colour_follows_from_the_seed() {
    let colors: Vec<Color> = (0u8..200).map(grey).collect();
    let mut firsts = Vec::new();
    for seed in 0u64..20 {
        let (seeding, mut rng) = Seeding::begin(colors.clone(), seed);
        let mut plain = ChaCha8Rng::seed_from_u64(seed);
        assert_eq!(seeding.chosen, vec![plain.gen_range(0..200u64) as usize]);
        assert_eq!(rng.gen_range(0..1000u64), plain.gen_range(0..1000u64));
        firsts.push(seeding.chosen[0]);
    }
    firsts.sort_unstable();
    firsts.dedup();
    assert!(firsts.len() > 1);
}

#[test]
fn distances_are_those_to_the_nearest() {
    let mut seeding = Seeding::start(vec![grey(0), grey(2), grey(10)], 0);
    assert_eq!(seeding.distances, vec![0, 12, 300]);
    assert_eq!(seeding.next_draw(), Draw::Weighted);
    seeding.choose_color(2);
    assert_eq!(seeding.distances, vec![0, 12, 0]);
    assert_eq!(seeding.next_draw(), Draw::Weighted);
    seeding.choose_color(1);
    assert_eq!(seeding.distances, vec![0, 0, 0]);
    assert_eq!(seeding.next_draw(), Draw::Uniform);
    assert_eq!(seeding.chosen_colors(), vec![grey(0), grey(10), grey(2)]);
}

#[test]
fn where_all_are_covered_any_may_be_chosen() {
    let (mut seeding, mut rng) = Seeding::begin(vec![grey(5); 50], 3);
    let mut plain = rng.clone();
    assert_eq!(seeding.next_draw(), Draw::Uniform);
    seeding.choose_any(&mut rng);
    assert_eq!(seeding.chosen.len(), 2);
    assert_eq!(seeding.chosen[1] as u64, plain.gen_range(0..50u64));
    assert_eq!(seeding.chosen_colors(), vec![grey(5), grey(5)]);
}

#[test]
fn refining_ends() {
    assert!(refines_again(0, 15, true));
    assert!(refines_again(1, 15, false));
    assert!(!refines_again(1, 15, true));
    assert!(!refines_again(14, 15, false));
    assert!(!refines_again(0, 1, false));
    assert!(!refines_again(0, 0, false));
}

#[test]
fn painting_skips_hidden_pixels() {
    let image = row(vec![pixel(1, 200), pixel(2, 0), pixel(3, 100)]);
    let painted = paint(&image, &vec![1, 0], &vec![grey(50), grey(60)]);
    assert_eq!(painted.pixels, vec![pixel(60, 200), pixel(2, 0), pixel(50, 100)]);
    assert_eq!((painted.width, painted.height), (3, 1));
}

#[test]
fn painting_with_own_colours_changes_nothing() {
    let image = row(vec![pixel(50, 200), pixel(2, 0), pixel(60, 100), pixel(50, 1)]);
    let painted = paint(&image, &vec![1, 0, 1], &vec![grey(60), grey(50)]);
    assert_eq!(painted.pixels, image.pixels);
}
