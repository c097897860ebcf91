//! The arguments of the command line.
//!
//! Arguments are read into directives. A directive names an argument by its place, so that what
//! it says can still be looked up.

use vstd::prelude::*;
use crate::config::{grid_size, mode_asked, parse_grid_size, Config, ResampleMode};
use crate::text::{decimal, parse_decimal, same_text, to_chars};

verus! {

/// An option that takes a value.
#[derive(Clone, Copy, Debug, PartialEq, Eq, Structural)]
pub enum Flag {
    PixelSize,
    GridSize,
    Resample,
    EdgeWeight,
    Palette,
}

/// What one argument, or an option with its value, asks for.
#[derive(Clone, Copy, Debug, PartialEq, Eq, Structural)]
pub enum Directive {
    /// The pixel size that the argument at this place writes.
    PixelSize(usize),
    /// A grid of this size.
    GridSize(usize, usize),
    /// The argument at this place writes no size of a grid.
    BadGridSize(usize),
    /// This way to resample.
    Resample(ResampleMode),
    /// The argument at this place names no way to resample.
    BadResample(usize),
    /// The edge weight that the argument at this place writes.
    EdgeWeight(usize),
    /// The palette that the argument at this place lists or names a file of.
    Palette(usize),
    /// This many colours.
    Colors(usize),
    /// The argument at this place writes no number of colours.
    BadColors(usize),
    /// The argument at this place is an option that is not known.
    Unknown(usize),
    /// The value of the option is missing.
    MissingValue(Flag),
}

/// The option that an argument is.
pub open spec fn flag_named(arg: Seq<char>) -> Option<Flag> {
    if arg == "--pixel-size"@ {
        Some(Flag::PixelSize)
    } else if arg == "--grid-size"@ {
        Some(Flag::GridSize)
    } else if arg == "--resample"@ {
        Some(Flag::Resample)
    } else if arg == "--edge-weight"@ {
        Some(Flag::EdgeWeight)
    } else if arg == "--palette"@ {
        Some(Flag::Palette)
    } else {
        None
    }
}

/// The argument has the form of an option.
pub open spec fn is_option(arg: Seq<char>) -> bool {
    arg.len() >= 2 && arg[0] == '-' && arg[1] == '-'
}

/// What an option asks for with the value at place `at`.
pub open spec fn with_value(flag: Flag, value: Seq<char>, at: int) -> Directive {
    match flag {
        Flag::PixelSize => Directive::PixelSize(at as usize),
        Flag::GridSize => match grid_size(value) {
            Some((w, h)) => Directive::GridSize(w, h),
            None => Directive::BadGridSize(at as usize),
        },
        Flag::Resample => match mode_asked(value) {
            Some(mode) => Directive::Resample(mode),
            None => Directive::BadResample(at as usize),
        },
        Flag::EdgeWeight => Directive::EdgeWeight(at as usize),
        Flag::Palette => Directive::Palette(at as usize),
    }
}

/// What an argument at place `at` asks for that is no option with a value.
pub open spec fn alone(arg: Seq<char>, at: int) -> Directive {
    if is_option(arg) {
        Directive::Unknown(at as usize)
    } else {
        match decimal(arg, usize::MAX) {
            Some(k) => if k > 0 {
                Directive::Colors(k)
            } else {
                Directive::BadColors(at as usize)
            },
            None => Directive::BadColors(at as usize),
        }
    }
}

/// What the arguments from place `at` on ask for, in order. An option whose value is missing is the
/// last thing read.
pub open spec fn directives(args: Seq<Seq<char>>, at: int) -> Seq<Directive>
    decreases args.len() - at,
{
    if at < 0 || at >= args.len() {
        seq![]
    } else {
        match flag_named(args[at]) {
            Some(flag) => if at + 1 >= args.len() {
                seq![Directive::MissingValue(flag)]
            } else {
                seq![with_value(flag, args[at + 1], at + 1)] + directives(args, at + 2)
            },
            None => seq![alone(args[at], at)] + directives(args, at + 1),
        }
    }
}

/// What the arguments hold.
pub open spec fn texts(args: Seq<String>) -> Seq<Seq<char>> {
    args.map_values(|arg: String| arg@)
}

/// Tells which option an argument is.
fn find_flag(arg: &Vec<char>) -> (flag: Option<Flag>)
    ensures
        flag == flag_named(arg@),
{
    if same_text(arg, "--pixel-size") {
        Some(Flag::PixelSize)
    } else if same_text(arg, "--grid-size") {
        Some(Flag::GridSize)
    } else if same_text(arg, "--resample") {
        Some(Flag::Resample)
    } else if same_text(arg, "--edge-weight") {
        Some(Flag::EdgeWeight)
    } else if same_text(arg, "--palette") {
        Some(Flag::Palette)
    } else {
        None
    }
}

/// Reads an option with its value.
fn read_with_value(flag: Flag, value: &str, at: usize) -> (directive: Directive)
    ensures
        directive == with_value(flag, value@, at as int),
{
    match flag {
        Flag::PixelSize => Directive::PixelSize(at),
        Flag::GridSize => match parse_grid_size(value) {
            Some((w, h)) => Directive::GridSize(w, h),
            None => Directive::BadGridSize(at),
        },
        Flag::Resample => match ResampleMode::parse(value) {
            Some(mode) => Directive::Resample(mode),
            None => Directive::BadResample(at),
        },
        Flag::EdgeWeight => Directive::EdgeWeight(at),
        Flag::Palette => Directive::Palette(at),
    }
}

/// Reads an argument that is no option with a value.
fn read_alone(arg: &Vec<char>, at: usize) -> (directive: Directive)
    ensures
        directive == alone(arg@, at as int),
{
    if arg.len() >= 2 && arg[0] == '-' && arg[1] == '-' {
        return Directive::Unknown(at);
    }
    match parse_decimal(arg, usize::MAX) {
        Some(k) => if k > 0 {
            Directive::Colors(k)
        } else {
            Directive::BadColors(at)
        },
        None => Directive::BadColors(at),
    }
}

/// What a command line asks for. The first argument is the name of the program; without two file
/// names after it nothing is asked for.
#[derive(Debug)]
pub struct CommandLine {
    pub input_path: String,
    pub output_path: String,
    pub directives: Vec<Directive>,
}

/// Reads the arguments of a command line.
pub fn parse_args(args: &Vec<String>) -> (read: Option<CommandLine>)
    ensures
        read is Some <==> args@.len() >= 3,
        read matches Some(line) ==> {
            &&& line.input_path@ == args@[1]@
            &&& line.output_path@ == args@[2]@
            &&& line.directives@ == directives(texts(args@), 3)
        },
{
    let count: usize = args.len();
    if count < 3 {
        return None;
    }
    let ghost views = texts(args@);
    let mut list: Vec<Directive> = Vec::new();
    let mut at: usize = 3;
    let mut done: bool = false;
    proof {
        assert(list@ + directives(views, 3) =~= directives(views, 3));
    }
    while at < count && !done
        invariant
            3 <= at <= count,
            count == args@.len(),
            views == texts(args@),
            !done ==> list@ + directives(views, at as int) == directives(views, 3),
            done ==> list@ == directives(views, 3),
        decreases count - at, if done { 0int } else { 1int },
    {
        let arg: Vec<char> = to_chars(args[at].as_str());
        let ghost before = list@;
        proof {
            assert(views[at as int] == arg@);
        }
        match find_flag(&arg) {
            Some(flag) => {
                if count - at == 1 {
                    list.push(Directive::MissingValue(flag));
                    done = true;
                    proof {
                        assert(list@ =~= before + directives(views, at as int));
                    }
                } else {
                    proof {
                        assert(views[at + 1] == args@[at + 1]@);
                    }
                    let directive: Directive = read_with_value(
                        flag,
                        args[at + 1].as_str(),
                        at + 1,
                    );
                    list.push(directive);
                    proof {
                        assert(list@ + directives(views, at + 2) =~= before + (seq![directive]
                            + directives(views, at + 2)));
                    }
                    at += 2;
                }
            },
            None => {
                let directive: Directive = read_alone(&arg, at);
                list.push(directive);
                proof {
                    assert(list@ + directives(views, at + 1) =~= before + (seq![directive]
                        + directives(views, at + 1)));
                }
                at += 1;
            },
        }
    }
    proof {
        if !done {
            assert(directives(views, at as int) =~= Seq::<Directive>::empty());
            assert(list@ + directives(views, at as int) =~= list@);
        }
    }
    Some(
        CommandLine {
            input_path: args[1].clone(),
            output_path: args[2].clone(),
            directives: list,
        },
    )
}

impl Config {
    /// Follows a directive that asks for a grid, a way to resample or a number of colours. Others
    /// change nothing here: they need a file or a fraction, or are mistakes to be reported.
    pub fn follow(&mut self, directive: Directive)
        ensures
            *final(self) == match directive {
                Directive::GridSize(w, h) => Config {
                    target_grid_width: Some(w),
                    target_grid_height: Some(h),
                    ..*old(self)
                },
                Directive::Resample(mode) => Config { resample_mode: mode, ..*old(self) },
                Directive::Colors(k) => Config { k_colors: k, ..*old(self) },
                _ => *old(self),
            },
    {
        match directive {
            Directive::GridSize(w, h) => {
                self.target_grid_width = Some(w);
                self.target_grid_height = Some(h);
            },
            Directive::Resample(mode) => {
                self.resample_mode = mode;
            },
            Directive::Colors(k) => {
                self.k_colors = k;
            },
            _ => {},
        }
    }
}

/// The place that a directive names.
pub open spec fn place(directive: Directive) -> Option<usize> {
    match directive {
        Directive::PixelSize(at) => Some(at),
        Directive::BadGridSize(at) => Some(at),
        Directive::BadResample(at) => Some(at),
        Directive::EdgeWeight(at) => Some(at),
        Directive::Palette(at) => Some(at),
        Directive::BadColors(at) => Some(at),
        Directive::Unknown(at) => Some(at),
        _ => None,
    }
}

/// Every place that a directive names is that of an argument.
pub proof fn places_are_arguments(args: Seq<Seq<char>>, at: int)
    requires
        0 <= at,
        args.len() <= usize::MAX,
    ensures
        forall|i: int|
            0 <= i < directives(args, at).len() ==> (place(#[trigger] directives(args, at)[i])
                matches Some(p) ==> at <= p < args.len()),
    decreases args.len() + 1 - at,
{
    if at < args.len() {
        let next = if flag_named(args[at]) is Some {
            at + 2
        } else {
            at + 1
        };
        places_are_arguments(args, next);
        let list = directives(args, at);
        assert forall|i: int| 0 <= i < list.len() implies (place(#[trigger] list[i]) matches Some(p)
            ==> at <= p < args.len()) by {
            if i > 0 {
                assert(list[i] == directives(args, next)[i - 1]);
            }
        }
    }
}

/// What the arguments after a complete option, or after an argument that is none, ask for does not
/// depend on what came before them.
pub proof fn directives_are_read_in_turn(args: Seq<Seq<char>>, at: int)
    requires
        0 <= at < args.len(),
        flag_named(args[at]) is Some ==> at + 1 < args.len(),
    ensures
        directives(args, at).len() > 0,
        directives(args, at).drop_first() == directives(
            args,
            if flag_named(args[at]) is Some {
                at + 2
            } else {
                at + 1
            },
        ),
{
    let next = if flag_named(args[at]) is Some {
        at + 2
    } else {
        at + 1
    };
    assert(directives(args, at).drop_first() =~= directives(args, next));
}

/// What the argument in place `at` asks for, and where the reading goes on. An option takes the next argument
/// as its value and the reading goes on after that; if there is none, the reading ends. An argument that
/// starts with two hyphens and is no such option is not known. Any other is a number of colours, which must
/// be above zero.
pub proof fn arguments_are_understood(args: Seq<Seq<char>>, at: int)
    requires
        0 <= at < args.len() <= usize::MAX,
    ensures
        ({
            let all = directives(args, at);
            let arg = args[at];
            let size = arg == "--pixel-size"@;
            let grid = arg == "--grid-size"@;
            let mode = arg == "--resample"@;
            let weight = arg == "--edge-weight"@;
            let palette = arg == "--palette"@;
            let option = size || grid || mode || weight || palette;
            let value = args[at + 1];
            &&& option && at + 1 == args.len() ==> all.len() == 1 && all[0] is MissingValue
            &&& option && at + 1 < args.len() ==> all == seq![all[0]] + directives(args, at + 2)
            &&& !option ==> all == seq![all[0]] + directives(args, at + 1)
            &&& size && at + 1 < args.len() ==> all[0] == Directive::PixelSize((at + 1) as usize)
            &&& grid && !size && at + 1 < args.len() ==> match grid_size(value) {
                Some((w, h)) => all[0] == Directive::GridSize(w, h),
                None => all[0] == Directive::BadGridSize((at + 1) as usize),
            }
            &&& mode && !size && !grid && at + 1 < args.len() ==> match mode_asked(value) {
                Some(m) => all[0] == Directive::Resample(m),
                None => all[0] == Directive::BadResample((at + 1) as usize),
            }
            &&& weight && !size && !grid && !mode && at + 1 < args.len() ==> all[0]
                == Directive::EdgeWeight((at + 1) as usize)
            &&& palette && !size && !grid && !mode && !weight && at + 1 < args.len() ==> all[0]
                == Directive::Palette((at + 1) as usize)
            &&& !option && arg.len() >= 2 && arg[0] == '-' && arg[1] == '-' ==> all[0]
                == Directive::Unknown(at as usize)
            &&& !option && !(arg.len() >= 2 && arg[0] == '-' && arg[1] == '-') ==> match decimal(
                arg,
                usize::MAX,
            ) {
                Some(k) => if k > 0 {
                    all[0] == Directive::Colors(k)
                } else {
                    all[0] == Directive::BadColors(at as usize)
                },
                None => all[0] == Directive::BadColors(at as usize),
            }
        }),
        directives(args, args.len() as int).len() == 0,
{
    let all = directives(args, at);
    let next = if flag_named(args[at]) is Some {
        at + 2
    } else {
        at + 1
    };
    if !(flag_named(args[at]) is Some && at + 1 == args.len()) {
        assert(all =~= seq![all[0]] + directives(args, next));
    }
}

/// The option that is told to lack its value is the one that was given.
pub proof fn missing_values_are_told(args: Seq<Seq<char>>)
    requires
        args.len() > 0,
    ensures
        ({
            let at = args.len() - 1;
            let all = directives(args, at);
            &&& all == seq![Directive::MissingValue(Flag::PixelSize)] ==> args[at]
                == "--pixel-size"@
            &&& all == seq![Directive::MissingValue(Flag::GridSize)] ==> args[at] == "--grid-size"@
            &&& all == seq![Directive::MissingValue(Flag::Resample)] ==> args[at] == "--resample"@
            &&& all == seq![Directive::MissingValue(Flag::EdgeWeight)] ==> args[at]
                == "--edge-weight"@
            &&& all == seq![Directive::MissingValue(Flag::Palette)] ==> args[at] == "--palette"@
        }),
{
    let at = args.len() - 1;
    let all = directives(args, at);
    assert(all[0] == all[0]);
    if let Some(flag) = flag_named(args[at]) {
        assert(all == seq![Directive::MissingValue(flag)]);
        assert(all[0] == Directive::MissingValue(flag));
    } else {
        assert(all[0] == alone(args[at], at));
    }
    assert(seq![Directive::MissingValue(Flag::PixelSize)][0] == Directive::MissingValue(
        Flag::PixelSize,
    ));
    assert(seq![Directive::MissingValue(Flag::GridSize)][0] == Directive::MissingValue(
        Flag::GridSize,
    ));
    assert(seq![Directive::MissingValue(Flag::Resample)][0] == Directive::MissingValue(
        Flag::Resample,
    ));
    assert(seq![Directive::MissingValue(Flag::EdgeWeight)][0] == Directive::MissingValue(
        Flag::EdgeWeight,
    ));
    assert(seq![Directive::MissingValue(Flag::Palette)][0] == Directive::MissingValue(Flag::Palette));
}

/// The texts of arguments are what they hold, in order.
pub proof fn texts_are_what_arguments_hold(args: Seq<String>, i: int)
    requires
        0 <= i < args.len(),
    ensures
        texts(args).len() == args.len(),
        texts(args)[i] == args[i]@,
{
}

} // verus!
