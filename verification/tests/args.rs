use pixel_snapper::args::{parse_args, Directive, Flag};
use pixel_snapper::config::{Config, ResampleMode};

fn read(words: &[&str]) -> Vec<Directive> {
    let mut args = vec!["snapper".to_string(), "in.png".to_string(), "out.png".to_string()];
    args.extend(words.iter().map(|word| word.to_string()));
    let line = parse_args(&args).unwrap();
    assert_eq!(line.input_path, "in.png");
    assert_eq!(line.output_path, "out.png");
    line.directives
}

#[test]
fn two_file_names_are_needed() {
    assert!(parse_args(&vec!["snapper".to_string(), "in.png".to_string()]).is_none());
    assert!(parse_args(&vec![]).is_none());
    assert_eq!(read(&[]), vec![]);
}

#[test]
fn numbers_of_colours() {
    assert_eq!(read(&["8"]), vec![Directive::Colors(8)]);
    assert_eq!(read(&["0", "x"]), vec![Directive::BadColors(3), Directive::BadColors(4)]);
    assert_eq!(read(&["-8"]), vec![Directive::BadColors(3)]);
}

#[test]
fn options_with_values() {
    assert_eq!(
        read(&[
            "--grid-size", "4x5", "--resample", "mean", "--pixel-size", "2.5", "--edge-weight", "1",
            "--palette", "#fff", "7",
        ]),
        vec![
            Directive::GridSize(4, 5),
            Directive::Resample(ResampleMode::Mean),
            Directive::PixelSize(8),
            Directive::EdgeWeight(10),
            Directive::Palette(12),
            Directive::Colors(7),
        ]
    );
}

#[test]
fn options_with_bad_values() {
    assert_eq!(
        read(&["--grid-size", "4", "--resample", "blur"]),
        vec![Directive::BadGridSize(4), Directive::BadResample(6)]
    );
    // An option may take another option as its value.
    assert_eq!(
        read(&["--resample", "--palette", "3"]),
        vec![Directive::BadResample(4), Directive::Colors(3)]
    );
}

#[test]
fn options_that_are_not_known() {
    assert_eq!(read(&["--fast", "3"]), vec![Directive::Unknown(3), Directive::Colors(3)]);
    assert_eq!(read(&["--"]), vec![Directive::Unknown(3)]);
}

#[test]
fn an_option_without_its_value_ends_the_reading() {
    let flags = [
        ("--pixel-size", Flag::PixelSize),
        ("--grid-size", Flag::GridSize),
        ("--resample", Flag::Resample),
        ("--edge-weight", Flag::EdgeWeight),
        ("--palette", Flag::Palette),
    ];
    for (word, flag) in flags {
        assert_eq!(read(&["3", word]), vec![Directive::Colors(3), Directive::MissingValue(flag)]);
    }
}

#[test]
fn directives_are_followed() {
    let mut config = Config::default();
    for directive in read(&["8", "--grid-size", "4x5", "--resample", "center", "--fast"]) {
        config.follow(directive);
    }
    assert_eq!(config.k_colors, 8);
    assert_eq!(config.target_grid_width, Some(4));
    assert_eq!(config.target_grid_height, Some(5));
    assert_eq!(config.resample_mode, ResampleMode::Center);
}
