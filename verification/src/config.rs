//! What is asked for: settings, and the arguments that change them.

use vstd::prelude::*;
use vstd::string::*;
use crate::error::{invalid_input, PixelSnapperError};
use crate::palette::{is_palette_of, listed_colors, palette_is_in_order, parse_palette_colors};
use crate::picture::Color;
use crate::steps::Step;
use crate::text::{
    decimal, lowered, number_string, number_text, parse_decimal, part, same_text, to_chars, to_lower,
    trim, trimmed, trimmed_keeps_tight,
};

verus! {

/// How the pixels of a cell become one.
#[derive(Clone, Copy, Debug, PartialEq, Eq, Structural)]
pub enum ResampleMode {
    /// The pixel that occurs most often.
    Majority,
    /// The pixel in the middle.
    Center,
    /// The mean of all pixels.
    Mean,
    /// The pixel with the most votes, where pixels at edges have more weight.
    EdgeAware,
    /// The colour of the palette that is nearest to the mean.
    PaletteAware,
}

/// The mode that a name stands for.
pub open spec fn mode_named(name: Seq<char>) -> Option<ResampleMode> {
    if name == "majority"@ || name == "vote"@ || name == "mode"@ {
        Some(ResampleMode::Majority)
    } else if name == "center"@ || name == "centre"@ {
        Some(ResampleMode::Center)
    } else if name == "mean"@ || name == "average"@ || name == "avg"@ {
        Some(ResampleMode::Mean)
    } else if name == "edge"@ || name == "edge-aware"@ || name == "edgeaware"@ {
        Some(ResampleMode::EdgeAware)
    } else if name == "palette"@ || name == "palette-aware"@ || name == "paletteaware"@ {
        Some(ResampleMode::PaletteAware)
    } else {
        None
    }
}

/// The mode that a text asks for. White space around the name and capital letters do not matter.
pub open spec fn mode_asked(text: Seq<char>) -> Option<ResampleMode> {
    mode_named(lowered(trimmed(text)))
}

impl ResampleMode {
    /// The name that the mode is shown under.
    pub open spec fn name(self) -> Seq<char> {
        match self {
            ResampleMode::Majority => "majority"@,
            ResampleMode::Center => "center"@,
            ResampleMode::Mean => "mean"@,
            ResampleMode::EdgeAware => "edge-aware"@,
            ResampleMode::PaletteAware => "palette-aware"@,
        }
    }

    /// Reads the name of a mode.
    pub fn parse(value: &str) -> (mode: Option<ResampleMode>)
        ensures
            mode == mode_asked(value@),
    {
        let name: Vec<char> = to_lower(&trim(&to_chars(value)));
        if same_text(&name, "majority") || same_text(&name, "vote") || same_text(&name, "mode") {
            Some(ResampleMode::Majority)
        } else if same_text(&name, "center") || same_text(&name, "centre") {
            Some(ResampleMode::Center)
        } else if same_text(&name, "mean") || same_text(&name, "average") || same_text(
            &name,
            "avg",
        ) {
            Some(ResampleMode::Mean)
        } else if same_text(&name, "edge") || same_text(&name, "edge-aware") || same_text(
            &name,
            "edgeaware",
        ) {
            Some(ResampleMode::EdgeAware)
        } else if same_text(&name, "palette") || same_text(&name, "palette-aware") || same_text(
            &name,
            "paletteaware",
        ) {
            Some(ResampleMode::PaletteAware)
        } else {
            None
        }
    }

    /// Names the mode.
    pub fn label(self) -> (name: &'static str)
        ensures
            name@ == self.name(),
    {
        match self {
            ResampleMode::Majority => "majority",
            ResampleMode::Center => "center",
            ResampleMode::Mean => "mean",
            ResampleMode::EdgeAware => "edge-aware",
            ResampleMode::PaletteAware => "palette-aware",
        }
    }
}

/// The name that a mode is shown under asks for that mode.
pub proof fn name_asks_for_mode(mode: ResampleMode)
    ensures
        mode_asked(mode.name()) == Some(mode),
{
    reveal_strlit("majority");
    reveal_strlit("vote");
    reveal_strlit("mode");
    reveal_strlit("center");
    reveal_strlit("centre");
    reveal_strlit("mean");
    reveal_strlit("average");
    reveal_strlit("avg");
    reveal_strlit("edge");
    reveal_strlit("edge-aware");
    reveal_strlit("edgeaware");
    reveal_strlit("palette");
    reveal_strlit("palette-aware");
    reveal_strlit("paletteaware");
    let name = mode.name();
    trimmed_keeps_tight(name);
    assert(lowered(name) =~= name);
    match mode {
        ResampleMode::Majority => {},
        ResampleMode::Center => {
            assert(name[0] != "majority"@[0] && name[0] != "vote"@[0] && name[0] != "mode"@[0]);
        },
        ResampleMode::Mean => {
            assert(name.len() != "majority"@.len());
            assert(name[0] != "vote"@[0] && name[1] != "mode"@[1]);
            assert(name[0] != "center"@[0] && name[0] != "centre"@[0]);
        },
        ResampleMode::EdgeAware => {
            assert(name[0] != "majority"@[0] && name[0] != "vote"@[0] && name[0] != "mode"@[0]);
            assert(name[0] != "center"@[0] && name[0] != "centre"@[0]);
            assert(name[0] != "mean"@[0] && name[0] != "average"@[0] && name[0] != "avg"@[0]);
        },
        ResampleMode::PaletteAware => {
            assert(name[0] != "majority"@[0] && name[0] != "vote"@[0] && name[0] != "mode"@[0]);
            assert(name[0] != "center"@[0] && name[0] != "centre"@[0]);
            assert(name[0] != "mean"@[0] && name[0] != "average"@[0] && name[0] != "avg"@[0]);
            assert(name[0] != "edge"@[0] && name[0] != "edge-aware"@[0] && name[0]
                != "edgeaware"@[0]);
        },
    }
}

/// The settings that are whole numbers, names and colours.
#[derive(Clone, Debug)]
pub struct Config {
    /// How many colours are kept.
    pub k_colors: usize,
    /// How many columns of cells are asked for.
    pub target_grid_width: Option<usize>,
    /// How many rows of cells are asked for.
    pub target_grid_height: Option<usize>,
    /// How the pixels of a cell become one.
    pub resample_mode: ResampleMode,
    /// The only colours to be used.
    pub palette: Option<Vec<Color>>,
    /// The seed of the random choices.
    pub k_seed: u64,
    /// The file to be read.
    pub input_path: String,
    /// The file to be written.
    pub output_path: String,
    /// How often the kept colours are refined at most.
    pub max_kmeans_iterations: usize,
    /// How far apart two peaks must be.
    pub peak_distance_filter: usize,
    /// How many cuts an axis must have, its ends among them.
    pub min_cuts_per_axis: usize,
    /// Into how many cells an axis is divided where no step size is known.
    pub fallback_target_segments: usize,
    /// How much the step sizes of the two axes may differ.
    pub max_step_ratio: Step,
}

impl Default for Config {
    fn default() -> (config: Config)
        ensures
            config.k_colors == 16,
            config.target_grid_width is None,
            config.target_grid_height is None,
            config.resample_mode == ResampleMode::Majority,
            config.palette is None,
            config.k_seed == 42,
            config.input_path@ == "samples/2/skeleton.png"@,
            config.output_path@ == "samples/2/skeleton_fixed_clean2.png"@,
            config.max_kmeans_iterations == 15,
            config.peak_distance_filter == 4,
            config.min_cuts_per_axis == 4,
            config.fallback_target_segments == 64,
            config.max_step_ratio == (Step { num: 9, den: 5 }),
    {
        Config {
            k_colors: 16,
            target_grid_width: None,
            target_grid_height: None,
            resample_mode: ResampleMode::Majority,
            palette: None,
            k_seed: 42,
            input_path: "samples/2/skeleton.png".to_owned(),
            output_path: "samples/2/skeleton_fixed_clean2.png".to_owned(),
            max_kmeans_iterations: 15,
            peak_distance_filter: 4,
            min_cuts_per_axis: 4,
            fallback_target_segments: 64,
            max_step_ratio: Step { num: 9, den: 5 },
        }
    }
}

/// The text that says by how much a grid is too large.
pub open spec fn oversize_text(
    target_w: usize,
    target_h: usize,
    input_w: usize,
    input_h: usize,
) -> Seq<char> {
    "Target grid size "@ + number_text(target_w as nat) + "x"@ + number_text(target_h as nat)
        + " cannot exceed input size "@ + number_text(input_w as nat) + "x"@ + number_text(
        input_h as nat,
    )
}

/// What is wrong with a grid of the given size on an image of the given size.
pub open spec fn grid_problem(
    target_w: usize,
    target_h: usize,
    input_w: usize,
    input_h: usize,
) -> Option<Seq<char>> {
    if target_w == 0 || target_h == 0 {
        Some("Target grid dimensions must be greater than zero"@)
    } else if target_w > input_w || target_h > input_h {
        Some(oversize_text(target_w, target_h, input_w, input_h))
    } else {
        None
    }
}

/// Refuses grids that have no cells, or cells smaller than a pixel.
pub fn validate_target_grid_size(
    target_w: usize,
    target_h: usize,
    input_w: usize,
    input_h: usize,
) -> (checked: Result<(), PixelSnapperError>)
    ensures
        match grid_problem(target_w, target_h, input_w, input_h) {
            Some(text) => checked matches Err(e) && e.is_invalid_input(text),
            None => checked is Ok,
        },
{
    if target_w == 0 || target_h == 0 {
        return Err(invalid_input("Target grid dimensions must be greater than zero"));
    }
    if target_w > input_w || target_h > input_h {
        let mut text: String = "Target grid size ".to_owned();
        text.append(number_string(target_w).as_str());
        text.append("x");
        text.append(number_string(target_h).as_str());
        text.append(" cannot exceed input size ");
        text.append(number_string(input_w).as_str());
        text.append("x");
        text.append(number_string(input_h).as_str());
        return Err(PixelSnapperError::InvalidInput(text));
    }
    Ok(())
}

/// How the cuts of a grid are found.
#[derive(Clone, Copy, Debug, PartialEq, Eq, Structural)]
pub enum Route {
    /// Divide the axes into so many cells.
    Divide { columns: usize, rows: usize },
    /// Look for the best grid.
    Search,
    /// Walk along the axes with the step that is asked for.
    Walk,
}

impl Config {
    /// How the cuts are to be found. A grid of a given size comes before a given step.
    pub open spec fn way(self, has_step: bool) -> Route {
        match (self.target_grid_width, self.target_grid_height) {
            (Some(columns), Some(rows)) => Route::Divide { columns, rows },
            _ => if has_step {
                Route::Walk
            } else {
                Route::Search
            },
        }
    }

    /// Decides how the cuts are found.
    pub fn route(&self, has_step: bool) -> (route: Route)
        ensures
            route == self.way(has_step),
    {
        match (self.target_grid_width, self.target_grid_height) {
            (Some(columns), Some(rows)) => Route::Divide { columns, rows },
            _ => if has_step {
                Route::Walk
            } else {
                Route::Search
            },
        }
    }

    /// The first thing that is wrong with what is asked for, on an image of the given size.
    pub open spec fn problem(self, width: usize, height: usize) -> Option<Seq<char>> {
        let grid = match (self.target_grid_width, self.target_grid_height) {
            (Some(w), Some(h)) => grid_problem(w, h, width, height),
            (None, None) => None,
            _ => Some("target grid width and height must both be provided"@),
        };
        match grid {
            Some(text) => Some(text),
            None => if self.resample_mode == ResampleMode::PaletteAware && self.palette is None {
                Some("palette-aware resampling requires --palette"@)
            } else {
                None
            },
        }
    }

    /// Refuses what cannot be done on an image of the given size.
    pub fn check(&self, width: usize, height: usize) -> (checked: Result<(), PixelSnapperError>)
        ensures
            match self.problem(width, height) {
                Some(text) => checked matches Err(e) && e.is_invalid_input(text),
                None => checked is Ok,
            },
    {
        match (self.target_grid_width, self.target_grid_height) {
            (Some(w), Some(h)) => match validate_target_grid_size(w, h, width, height) {
                Ok(()) => {},
                Err(e) => return Err(e),
            },
            (None, None) => {},
            _ => return Err(invalid_input("target grid width and height must both be provided")),
        }
        if self.resample_mode == ResampleMode::PaletteAware && self.palette.is_none() {
            return Err(invalid_input("palette-aware resampling requires --palette"));
        }
        Ok(())
    }

    /// The settings with a number of colours that is asked for, or why it is refused.
    pub open spec fn with_colors(self, k_colors: Option<u32>) -> Result<Config, Seq<char>> {
        match k_colors {
            Some(k) => if k == 0 {
                Err("k_colors must be greater than 0"@)
            } else {
                Ok(Config { k_colors: k as usize, ..self })
            },
            None => Ok(self),
        }
    }

    /// The settings with a size of the grid that is asked for.
    pub open spec fn with_grid(self, width: Option<u32>, height: Option<u32>) -> Config {
        Config {
            target_grid_width: match width {
                Some(w) => Some(w as usize),
                None => None,
            },
            target_grid_height: match height {
                Some(h) => Some(h as usize),
                None => None,
            },
            ..self
        }
    }

    /// The settings with a mode that is asked for by its name, or why it is refused.
    pub open spec fn with_mode(self, name: Option<Seq<char>>) -> Result<Config, Seq<char>> {
        match name {
            Some(text) => match mode_asked(text) {
                Some(mode) => Ok(Config { resample_mode: mode, ..self }),
                None => Err("resample_mode must be one of: majority, center, mean, edge-aware"@),
            },
            None => Ok(self),
        }
    }

    /// The settings are those with a palette that is asked for by its text, or its refusal is told.
    pub open spec fn is_with_palette(
        self,
        palette: Option<Seq<char>>,
        done: Result<Config, Seq<char>>,
    ) -> bool {
        match palette {
            Some(text) => if listed_colors(text).len() > 0 {
                &&& done matches Ok(config)
                &&& config == (Config { palette: config.palette, ..self })
                &&& config.palette matches Some(colors)
                &&& is_palette_of(colors@, listed_colors(text))
            } else {
                done == Err::<Config, _>(
                    "invalid palette: "@ + ("Invalid input: "@
                        + "palette must contain at least one RGB color"@),
                )
            },
            None => done == Ok::<_, Seq<char>>(self),
        }
    }

    /// The settings with all that is asked for but the palette, or the first refusal. The weight of edges
    /// is no whole number: it is kept elsewhere, and here it is only told whether it is in order.
    pub open spec fn with_options(
        self,
        k_colors: Option<u32>,
        width: Option<u32>,
        height: Option<u32>,
        mode: Option<Seq<char>>,
        weight_in_order: bool,
    ) -> Result<Config, Seq<char>> {
        match self.with_colors(k_colors) {
            Ok(colored) => match colored.with_grid(width, height).with_mode(mode) {
                Ok(config) => if weight_in_order {
                    Ok(config)
                } else {
                    Err("edge_weight must be a finite number greater than or equal to 0"@)
                },
                Err(text) => Err(text),
            },
            Err(text) => Err(text),
        }
    }

    /// Asks for a number of colours. None at all is refused.
    pub fn request_colors(&mut self, k_colors: Option<u32>) -> (done: Result<(), String>)
        ensures
            match old(self).with_colors(k_colors) {
                Ok(config) => done is Ok && *final(self) == config,
                Err(text) => done matches Err(e) && e@ == text && *final(self) == *old(self),
            },
    {
        if let Some(k) = k_colors {
            if k == 0 {
                return Err("k_colors must be greater than 0".to_owned());
            }
            self.k_colors = k as usize;
        }
        Ok(())
    }

    /// Asks for a size of the grid.
    pub fn request_grid(&mut self, width: Option<u32>, height: Option<u32>)
        ensures
            *final(self) == old(self).with_grid(width, height),
    {
        self.target_grid_width = match width {
            Some(w) => Some(w as usize),
            None => None,
        };
        self.target_grid_height = match height {
            Some(h) => Some(h as usize),
            None => None,
        };
    }

    /// Asks for a mode by its name. A name that stands for none is refused.
    pub fn request_mode(&mut self, name: Option<String>) -> (done: Result<(), String>)
        ensures
            match old(self).with_mode(view_of(name)) {
                Ok(config) => done is Ok && *final(self) == config,
                Err(text) => done matches Err(e) && e@ == text && *final(self) == *old(self),
            },
    {
        if let Some(text) = name {
            match ResampleMode::parse(text.as_str()) {
                Some(mode) => {
                    self.resample_mode = mode;
                },
                None => return Err(
                    "resample_mode must be one of: majority, center, mean, edge-aware".to_owned(),
                ),
            }
        }
        Ok(())
    }

    /// Asks for a palette by its text. A text that lists no colour is refused.
    pub fn request_palette(&mut self, palette: Option<String>) -> (done: Result<(), String>)
        ensures
            match done {
                Ok(()) => old(self).is_with_palette(view_of(palette), Ok(*final(self))),
                Err(e) => old(self).is_with_palette(view_of(palette), Err(e@)) && *final(self)
                    == *old(self),
            },
    {
        if let Some(text) = palette {
            match parse_palette_colors(text.as_str()) {
                Ok(colors) => {
                    self.palette = Some(colors);
                },
                Err(e) => {
                    let mut words: String = "invalid palette: ".to_owned();
                    words.append(e.message().as_str());
                    return Err(words);
                },
            }
        }
        Ok(())
    }

    /// Asks for everything at once. The first refusal is told.
    pub fn request_options(
        self,
        k_colors: Option<u32>,
        width: Option<u32>,
        height: Option<u32>,
        mode: Option<String>,
        weight_in_order: bool,
        palette: Option<String>,
    ) -> (done: Result<Config, String>)
        ensures
            match self.with_options(k_colors, width, height, view_of(mode), weight_in_order) {
                Ok(config) => match done {
                    Ok(all) => config.is_with_palette(view_of(palette), Ok(all)),
                    Err(e) => config.is_with_palette(view_of(palette), Err(e@)),
                },
                Err(text) => done matches Err(e) && e@ == text,
            },
    {
        let mut config: Config = self;
        if let Err(e) = config.request_colors(k_colors) {
            return Err(e);
        }
        config.request_grid(width, height);
        if let Err(e) = config.request_mode(mode) {
            return Err(e);
        }
        if !weight_in_order {
            return Err("edge_weight must be a finite number greater than or equal to 0".to_owned());
        }
        match config.request_palette(palette) {
            Ok(()) => Ok(config),
            Err(e) => Err(e),
        }
    }
}

/// The text, if there is one.
pub open spec fn view_of(text: Option<String>) -> Option<Seq<char>> {
    match text {
        Some(text) => Some(text@),
        None => None,
    }
}

/// To ask for a number of colours and a grid is to ask for everything at once with no more than those.
pub proof fn grid_request_is_all_requests(
    start: Config,
    k_colors: Option<u32>,
    width: u32,
    height: u32,
    done: Result<Config, Seq<char>>,
)
    ensures
        start.with_options(k_colors, Some(width), Some(height), None, true) == match start.with_colors(
            k_colors,
        ) {
            Ok(config) => Ok::<_, Seq<char>>(config.with_grid(Some(width), Some(height))),
            Err(text) => Err(text),
        },
        start.with_options(k_colors, Some(width), Some(height), None, true) matches Ok(config) ==> (
        config.is_with_palette(None, done) <==> done == Ok::<_, Seq<char>>(config)),
{
}

/// Where no grid was asked for before, to ask for a number of colours is to ask for everything at once
/// with no more than that.
pub proof fn colors_request_is_all_requests(
    start: Config,
    k_colors: Option<u32>,
    done: Result<Config, Seq<char>>,
)
    requires
        start.target_grid_width is None,
        start.target_grid_height is None,
    ensures
        start.with_options(k_colors, None, None, None, true) == start.with_colors(k_colors),
        start.with_colors(k_colors) matches Ok(config) ==> (config.is_with_palette(None, done)
            <==> done == Ok::<_, Seq<char>>(config)),
{
}

/// The two settings are the same but for the names of files.
pub open spec fn differ_in_paths_only(a: Config, b: Config) -> bool {
    b == (Config { input_path: b.input_path, output_path: b.output_path, ..a })
}

/// What is refused, and the way to the cuts, do not depend on the names of files.
pub proof fn requests_do_not_depend_on_paths(
    a: Config,
    b: Config,
    width: usize,
    height: usize,
    has_step: bool,
)
    requires
        differ_in_paths_only(a, b),
    ensures
        a.problem(width, height) == b.problem(width, height),
        a.way(has_step) == b.way(has_step),
{
}

/// The size of a grid that a text writes: two numbers, neither of them zero, with an x between them.
pub open spec fn grid_size(text: Seq<char>) -> Option<(usize, usize)> {
    let t = lowered(trimmed(text));
    match t.index_of_first('x') {
        Some(at) => match (decimal(t.take(at), usize::MAX), decimal(t.skip(at + 1), usize::MAX)) {
            (Some(w), Some(h)) => if w == 0 || h == 0 {
                None
            } else {
                Some((w, h))
            },
            _ => None,
        },
        None => None,
    }
}

/// Reads the size of a grid.
pub fn parse_grid_size(value: &str) -> (size: Option<(usize, usize)>)
    ensures
        size == grid_size(value@),
{
    let text: Vec<char> = to_lower(&trim(&to_chars(value)));
    proof {
        text@.index_of_first_ensures('x');
    }
    let mut at: usize = 0;
    while at < text.len() && text[at] != 'x'
        invariant
            at <= text@.len(),
            forall|k: int| 0 <= k < at ==> text@[k] != 'x',
        decreases text.len() - at,
    {
        at += 1;
    }
    if at == text.len() {
        proof {
            assert(!text@.contains('x'));
        }
        return None;
    }
    proof {
        assert(text@[at as int] == 'x');
        assert(text@.contains('x'));
        let first = text@.index_of_first('x')->0;
        assert(first == at);
        assert(text@.subrange(0, at as int) =~= text@.take(at as int));
        assert(text@.subrange(at + 1, text@.len() as int) =~= text@.skip(at + 1));
    }
    let w: Option<usize> = parse_decimal(&part(&text, 0, at), usize::MAX);
    let h: Option<usize> = parse_decimal(&part(&text, at + 1, text.len()), usize::MAX);
    match (w, h) {
        (Some(w), Some(h)) => if w == 0 || h == 0 {
            None
        } else {
            Some((w, h))
        },
        _ => None,
    }
}

/// Which names stand for which mode. White space around a name and capital letters make no difference, and any
/// other text stands for none.
pub proof fn modes_have_these_names(text: Seq<char>)
    ensures
        ({
            let name = lowered(trimmed(text));
            let vote = name == "majority"@ || name == "vote"@ || name == "mode"@;
            let middle = name == "center"@ || name == "centre"@;
            let mean = name == "mean"@ || name == "average"@ || name == "avg"@;
            let edge = name == "edge"@ || name == "edge-aware"@ || name == "edgeaware"@;
            let palette = name == "palette"@ || name == "palette-aware"@ || name == "paletteaware"@;
            &&& mode_asked(text) is None <==> !vote && !middle && !mean && !edge && !palette
            &&& mode_asked(text) == Some(ResampleMode::Majority) <==> vote
            &&& mode_asked(text) == Some(ResampleMode::Center) ==> middle
            &&& mode_asked(text) == Some(ResampleMode::Mean) ==> mean
            &&& mode_asked(text) == Some(ResampleMode::EdgeAware) ==> edge
            &&& mode_asked(text) == Some(ResampleMode::PaletteAware) ==> palette
        }),
{
}

/// A text writes the size of a grid if, without the white space around it and with small letters, it is a
/// number, an x, and a number, neither of them zero. The x is the first one. A text without an x writes none.
pub proof fn grid_sizes_are_written_with_an_x(text: Seq<char>, a: Seq<char>, b: Seq<char>)
    ensures
        lowered(trimmed(text)) == a.push('x') + b && (forall|i: int|
            0 <= i < a.len() ==> #[trigger] a[i] != 'x') ==> match (
            decimal(a, usize::MAX),
            decimal(b, usize::MAX),
        ) {
            (Some(w), Some(h)) => if w > 0 && h > 0 {
                grid_size(text) == Some((w, h))
            } else {
                grid_size(text) is None
            },
            _ => grid_size(text) is None,
        },
        (forall|i: int|
            0 <= i < lowered(trimmed(text)).len() ==> #[trigger] lowered(trimmed(text))[i] != 'x')
            ==> grid_size(text) is None,
{
    let t = lowered(trimmed(text));
    t.index_of_first_ensures('x');
    if t == a.push('x') + b && (forall|i: int| 0 <= i < a.len() ==> #[trigger] a[i] != 'x') {
        assert(t[a.len() as int] == 'x');
        assert(t.contains('x'));
        let at = t.index_of_first('x')->0;
        assert(at == a.len()) by {
            if at < a.len() {
                assert(t[at] == a[at]);
            }
        }
        assert(t.take(at) =~= a);
        assert(t.skip(at + 1) =~= b);
    }
}

/// What is refused, and with which words. A grid must have both its sides given or neither; neither may be
/// zero, nor longer than the side of the image. Painting with the mean of a palette needs a palette.
pub proof fn problems_are_told(config: Config, width: usize, height: usize)
    ensures
        ({
            let told = config.problem(width, height);
            match (config.target_grid_width, config.target_grid_height) {
                (Some(w), Some(h)) => {
                    &&& w == 0 || h == 0 ==> told == Some(
                        "Target grid dimensions must be greater than zero"@,
                    )
                    &&& w > 0 && h > 0 && (w > width || h > height) ==> told == Some(
                        "Target grid size "@ + number_text(w as nat) + "x"@ + number_text(h as nat)
                            + " cannot exceed input size "@ + number_text(width as nat) + "x"@
                            + number_text(height as nat),
                    )
                    &&& 0 < w <= width && 0 < h <= height ==> told == if config.resample_mode
                        == ResampleMode::PaletteAware && config.palette is None {
                        Some("palette-aware resampling requires --palette"@)
                    } else {
                        None
                    }
                },
                (None, None) => told == if config.resample_mode == ResampleMode::PaletteAware
                    && config.palette is None {
                    Some("palette-aware resampling requires --palette"@)
                } else {
                    None
                },
                _ => told == Some("target grid width and height must both be provided"@),
            }
        }),
{
}

/// The cuts are found by dividing where a size is given for both sides, else by walking where a step is given,
/// and else by searching.
pub proof fn routes_go_by_what_is_given(config: Config, has_step: bool)
    ensures
        ({
            let both = config.target_grid_width is Some && config.target_grid_height is Some;
            &&& config.way(has_step) is Divide <==> both
            &&& config.way(has_step) is Walk <==> !both && has_step
            &&& config.way(has_step) is Search <==> !both && !has_step
            &&& config.way(has_step) matches Route::Divide { columns, rows } ==> Some(columns)
                == config.target_grid_width && Some(rows) == config.target_grid_height
        }),
{
}

/// Each request changes the one setting that it asks for, or none where it asks for nothing, and is refused
/// only where it asks for no colours at all or for a mode that there is not.
pub proof fn requests_change_one_setting(
    config: Config,
    k_colors: Option<u32>,
    width: Option<u32>,
    height: Option<u32>,
    name: Option<Seq<char>>,
)
    ensures
        config.with_colors(k_colors) is Err <==> k_colors == Some(0u32),
        config.with_colors(k_colors) matches Ok(c) ==> c == (Config { k_colors: c.k_colors, ..config })
            && match k_colors {
            Some(k) => c.k_colors == k,
            None => c.k_colors == config.k_colors,
        },
        config.with_grid(width, height) == (Config {
            target_grid_width: config.with_grid(width, height).target_grid_width,
            target_grid_height: config.with_grid(width, height).target_grid_height,
            ..config
        }),
        match width {
            Some(w) => config.with_grid(width, height).target_grid_width == Some(w as usize),
            None => config.with_grid(width, height).target_grid_width is None,
        },
        match height {
            Some(h) => config.with_grid(width, height).target_grid_height == Some(h as usize),
            None => config.with_grid(width, height).target_grid_height is None,
        },
        config.with_mode(name) is Err <==> (name matches Some(text) && mode_asked(text) is None),
        config.with_mode(name) matches Ok(c) ==> c == (Config {
            resample_mode: c.resample_mode,
            ..config
        }) && match name {
            Some(text) => Some(c.resample_mode) == mode_asked(text),
            None => c.resample_mode == config.resample_mode,
        },
{
}

/// Of everything that is asked for, the number of colours is looked at first, then the mode, then the weight of
/// edges. The first that is refused is told. What is not refused is all done.
pub proof fn first_refusal_is_told(
    config: Config,
    k_colors: Option<u32>,
    width: Option<u32>,
    height: Option<u32>,
    mode: Option<Seq<char>>,
    weight_in_order: bool,
)
    ensures
        ({
            let done = config.with_options(k_colors, width, height, mode, weight_in_order);
            let no_mode = (mode matches Some(text) && mode_asked(text) is None);
            &&& k_colors == Some(0u32) ==> done == Err::<Config, _>(
                "k_colors must be greater than 0"@,
            )
            &&& k_colors != Some(0u32) && no_mode ==> done == Err::<Config, _>(
                "resample_mode must be one of: majority, center, mean, edge-aware"@,
            )
            &&& k_colors != Some(0u32) && !no_mode && !weight_in_order ==> done == Err::<Config, _>(
                "edge_weight must be a finite number greater than or equal to 0"@,
            )
            &&& k_colors != Some(0u32) && !no_mode && weight_in_order ==> (done matches Ok(c) && {
                &&& c == (Config {
                    k_colors: c.k_colors,
                    target_grid_width: c.target_grid_width,
                    target_grid_height: c.target_grid_height,
                    resample_mode: c.resample_mode,
                    ..config
                })
                &&& match k_colors {
                    Some(k) => c.k_colors == k,
                    None => c.k_colors == config.k_colors,
                }
                &&& match width {
                    Some(w) => c.target_grid_width == Some(w as usize),
                    None => c.target_grid_width is None,
                }
                &&& match height {
                    Some(h) => c.target_grid_height == Some(h as usize),
                    None => c.target_grid_height is None,
                }
                &&& match mode {
                    Some(text) => Some(c.resample_mode) == mode_asked(text),
                    None => c.resample_mode == config.resample_mode,
                }
            })
        }),
{
}

/// A palette that is asked for becomes the palette, each of its colours once and in order, and changes nothing
/// else. It is refused just when its text lists no colour.
pub proof fn requested_palettes_are_taken(
    config: Config,
    text: Seq<char>,
    done: Result<Config, Seq<char>>,
)
    requires
        config.is_with_palette(Some(text), done),
    ensures
        done is Ok <==> listed_colors(text).len() > 0,
        done matches Ok(c) ==> {
            &&& c == (Config { palette: c.palette, ..config })
            &&& c.palette matches Some(palette)
            &&& forall|color: Color| #[trigger]
                palette@.contains(color) <==> listed_colors(text).contains(color)
            &&& forall|i: int, j: int|
                0 <= i < j < palette@.len() ==> {
                    let (a, b) = (#[trigger] palette@[i], #[trigger] palette@[j]);
                    a.r < b.r || (a.r == b.r && (a.g < b.g || (a.g == b.g && a.b < b.b)))
                }
        },
{
    if let Ok(c) = done {
        let palette = c.palette->0;
        assert forall|i: int, j: int| 0 <= i < j < palette@.len() implies {
            let (a, b) = (#[trigger] palette@[i], #[trigger] palette@[j]);
            a.r < b.r || (a.r == b.r && (a.g < b.g || (a.g == b.g && a.b < b.b)))
        } by {
            palette_is_in_order(palette@, listed_colors(text), i, j);
        }
    }
}

} // verus!
