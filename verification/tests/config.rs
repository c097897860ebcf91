use pixel_snapper::config::{
    parse_grid_size, validate_target_grid_size, Config, ResampleMode, Route,
};
use pixel_snapper::error::PixelSnapperError;
use pixel_snapper::picture::Color;
use pixel_snapper::steps::Step;

fn refusal(result: Result<(), PixelSnapperError>) -> String {
    match result {
        Err(PixelSnapperError::InvalidInput(words)) => words,
        other => panic!("{:?}", other),
    }
}

#[test]
fn defaults() {
    let config = Config::default();
    assert_eq!(config.k_colors, 16);
    assert_eq!(config.k_seed, 42);
    assert_eq!(config.input_path, "samples/2/skeleton.png");
    assert_eq!(config.output_path, "samples/2/skeleton_fixed_clean2.png");
    assert_eq!(config.max_kmeans_iterations, 15);
    assert_eq!(config.peak_distance_filter, 4);
    assert_eq!(config.min_cuts_per_axis, 4);
    assert_eq!(config.fallback_target_segments, 64);
    assert_eq!(config.max_step_ratio, Step { num: 9, den: 5 });
    assert_eq!(config.target_grid_width, None);
    assert_eq!(config.target_grid_height, None);
    assert_eq!(config.resample_mode, ResampleMode::Majority);
    assert_eq!(config.palette, None);
}

#[test]
fn names_of_modes() {
    let names = [
        ("majority", ResampleMode::Majority),
        (" VOTE ", ResampleMode::Majority),
        ("mode", ResampleMode::Majority),
        ("Center", ResampleMode::Center),
        ("centre", ResampleMode::Center),
        ("mean", ResampleMode::Mean),
        ("average", ResampleMode::Mean),
        ("avg", ResampleMode::Mean),
        ("edge", ResampleMode::EdgeAware),
        ("edge-aware", ResampleMode::EdgeAware),
        ("edgeaware", ResampleMode::EdgeAware),
        ("palette", ResampleMode::PaletteAware),
        ("palette-aware", ResampleMode::PaletteAware),
        ("paletteaware", ResampleMode::PaletteAware),
    ];
    for (name, mode) in names {
        assert_eq!(ResampleMode::parse(name), Some(mode));
        assert_eq!(ResampleMode::parse(mode.label()), Some(mode));
    }
    assert_eq!(ResampleMode::parse("median"), None);
    assert_eq!(ResampleMode::parse(""), None);
}

#[test]
fn labels_of_modes() {
    assert_eq!(ResampleMode::EdgeAware.label(), "edge-aware");
    assert_eq!(ResampleMode::PaletteAware.label(), "palette-aware");
}

#[test]
fn sizes_of_grids() {
    assert_eq!(parse_grid_size("32x24"), Some((32, 24)));
    assert_eq!(parse_grid_size(" 8X9 "), Some((8, 9)));
    assert_eq!(parse_grid_size("+8x9"), Some((8, 9)));
    for text in ["0x9", "8x0", "8", "8x", "x8", "8x9x10", "8 x9", "-8x9", ""] {
        assert_eq!(parse_grid_size(text), None);
    }
}

#[test]
fn grids_that_do_not_fit() {
    assert!(validate_target_grid_size(10, 20, 10, 20).is_ok());
    assert_eq!(
        refusal(validate_target_grid_size(0, 20, 10, 20)),
        "Target grid dimensions must be greater than zero"
    );
    assert_eq!(
        refusal(validate_target_grid_size(11, 20, 10, 20)),
        "Target grid size 11x20 cannot exceed input size 10x20"
    );
}

#[test]
fn requests_that_do_not_go_together() {
    let mut config = Config::default();
    assert!(config.check(50, 60).is_ok());
    config.request_grid(Some(5), None);
    assert_eq!(
        refusal(config.check(50, 60)),
        "target grid width and height must both be provided"
    );
    config.request_grid(Some(5), Some(61));
    assert_eq!(
        refusal(config.check(50, 60)),
        "Target grid size 5x61 cannot exceed input size 50x60"
    );
    config.request_grid(Some(5), Some(6));
    config.resample_mode = ResampleMode::PaletteAware;
    assert_eq!(refusal(config.check(50, 60)), "palette-aware resampling requires --palette");
    config.palette = Some(vec![Color { r: 0, g: 0, b: 0 }]);
    assert!(config.check(50, 60).is_ok());
}

#[test]
fn the_way_to_the_cuts() {
    let mut config = Config::default();
    assert_eq!(config.route(false), Route::Search);
    assert_eq!(config.route(true), Route::Walk);
    config.request_grid(Some(5), Some(6));
    assert_eq!(config.route(true), Route::Divide { columns: 5, rows: 6 });
    assert_eq!(config.route(false), Route::Divide { columns: 5, rows: 6 });
}

#[test]
fn requested_colours() {
    let mut config = Config::default();
    assert_eq!(config.request_colors(Some(0)), Err("k_colors must be greater than 0".to_string()));
    assert_eq!(config.request_colors(None), Ok(()));
    assert_eq!(config.k_colors, 16);
    assert_eq!(config.request_colors(Some(5)), Ok(()));
    assert_eq!(config.k_colors, 5);
}

#[test]
fn requested_mode() {
    let mut config = Config::default();
    assert_eq!(
        config.request_mode(Some("blur".to_string())),
        Err("resample_mode must be one of: majority, center, mean, edge-aware".to_string())
    );
    assert_eq!(config.resample_mode, ResampleMode::Majority);
    assert_eq!(config.request_mode(Some("Avg".to_string())), Ok(()));
    assert_eq!(config.request_mode(None), Ok(()));
    assert_eq!(config.resample_mode, ResampleMode::Mean);
}

#[test]
fn requested_palette() {
    let mut config = Config::default();
    assert_eq!(
        config.request_palette(Some("none".to_string())),
        Err("invalid palette: Invalid input: palette must contain at least one RGB color"
            .to_string())
    );
    assert_eq!(config.palette, None);
    assert_eq!(config.request_palette(Some("#010203".to_string())), Ok(()));
    assert_eq!(config.request_palette(None), Ok(()));
    assert_eq!(config.palette, Some(vec![Color { r: 1, g: 2, b: 3 }]));
}

fn shown(config: &Config) -> String {
    format!("{:?}", config)
}

#[test]
fn everything_requested_at_once() {
    let all = Config::default()
        .request_options(
            Some(5),
            Some(6),
            None,
            Some("mean".to_string()),
            true,
            Some("#010203".to_string()),
        )
        .unwrap();
    assert_eq!(all.k_colors, 5);
    assert_eq!((all.target_grid_width, all.target_grid_height), (Some(6), None));
    assert_eq!(all.resample_mode, ResampleMode::Mean);
    assert_eq!(all.palette, Some(vec![Color { r: 1, g: 2, b: 3 }]));
}

#[test]
fn the_first_refusal_is_told() {
    let ask = |k: Option<u32>, mode: &str, weight: bool, palette: &str| {
        Config::default()
            .request_options(k, None, None, Some(mode.to_string()), weight, Some(palette.to_string()))
            .unwrap_err()
    };
    assert_eq!(ask(Some(0), "blur", false, ""), "k_colors must be greater than 0");
    assert_eq!(
        ask(None, "blur", false, ""),
        "resample_mode must be one of: majority, center, mean, edge-aware"
    );
    assert_eq!(
        ask(None, "mean", false, ""),
        "edge_weight must be a finite number greater than or equal to 0"
    );
    assert_eq!(
        ask(None, "mean", true, ""),
        "invalid palette: Invalid input: palette must contain at least one RGB color"
    );
}

#[test]
fn requests_for_a_grid_or_for_colours_alone() {
    let mut grid = Config::default();
    grid.request_colors(Some(7)).unwrap();
    grid.request_grid(Some(8), Some(9));
    let all = Config::default()
        .request_options(Some(7), Some(8), Some(9), None, true, None)
        .unwrap();
    assert_eq!(shown(&grid), shown(&all));
    let mut colors = Config::default();
    colors.request_colors(Some(7)).unwrap();
    let all = Config::default().request_options(Some(7), None, None, None, true, None).unwrap();
    assert_eq!(shown(&colors), shown(&all));
}

#[test]
fn names_of_files_do_not_matter() {
    let mut config = Config::default();
    config.request_grid(Some(5), None);
    let mut moved = Config::default();
    moved.request_grid(Some(5), None);
    moved.input_path = "a".to_string();
    moved.output_path = "b".to_string();
    assert_eq!(refusal(config.check(50, 60)), refusal(moved.check(50, 60)));
    assert_eq!(config.route(true), moved.route(true));
}

#[test]
fn settings_can_be_cloned() {
    let mut config = Config::default();
    config.palette = Some(vec![Color { r: 1, g: 2, b: 3 }]);
    assert_eq!(shown(&config.clone()), shown(&config));
}
