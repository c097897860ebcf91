//! Reducing an image to a few colours.
//!
//! Colours to start from are drawn among the pixels, far ones rather than near ones. Refining them is
//! done in fractions and so outside; here it is decided what is drawn from what, and pixels are
//! painted.

use rand::Rng;
use rand::SeedableRng;
use vstd::prelude::*;
use crate::config::{differ_in_paths_only, Config};
use crate::error::{invalid_input, PixelSnapperError};
use crate::palette::{
    color_distance, distance, distance_bounds, map_image_to_palette, mapped, nearest_is_nearest,
};
use crate::picture::{Color, Image, Pixel};

verus! {

/// The random number generator of the `rand_chacha` crate. Nothing is claimed of what is inside.
#[verifier::external_type_specification]
#[verifier::external_body]
pub struct ExChaCha8Rng(rand_chacha::ChaCha8Rng);

/// The generator that a seed gives.
pub uninterp spec fn seeded(seed: u64) -> rand_chacha::ChaCha8Rng;

/// Calls `ChaCha8Rng::seed_from_u64`. The generator follows from the seed alone; which numbers it will
/// give is not stated.
#[verifier::external_body]
fn seed_from_u64(seed: u64) -> (rng: rand_chacha::ChaCha8Rng)
    ensures
        rng == seeded(seed),
{
    rand_chacha::ChaCha8Rng::seed_from_u64(seed)
}

/// The number that a generator gives from 0 up to, not including, `upper`, and the generator after it.
pub uninterp spec fn draw(rng: rand_chacha::ChaCha8Rng, upper: u64) -> (
    u64,
    rand_chacha::ChaCha8Rng,
);

/// Calls `Rng::gen_range` on the range from 0 up to, not including, `upper`, which must not be empty.
/// The number drawn is in the range. It and the generator after it follow from the generator before and
/// from `upper`; which number it is, is not stated.
#[verifier::external_body]
fn gen_range(rng: &mut rand_chacha::ChaCha8Rng, upper: u64) -> (drawn: u64)
    requires
        0 < upper,
    ensures
        drawn < upper,
        (drawn, *final(rng)) == draw(*old(rng), upper),
{
    rng.gen_range(0..upper)
}

/// Draws one of `upper` places.
pub fn sample_index(rng: &mut rand_chacha::ChaCha8Rng, upper: usize) -> (index: usize)
    requires
        0 < upper,
    ensures
        index < upper,
        (index as u64, *final(rng)) == draw(*old(rng), upper as u64),
{
    gen_range(rng, upper as u64) as usize
}

/// The colours of the pixels that can be seen, in order.
pub open spec fn visible(pixels: Seq<Pixel>) -> Seq<Color>
    decreases pixels.len(),
{
    if pixels.len() == 0 {
        seq![]
    } else {
        let before = visible(pixels.drop_last());
        if pixels.last().a == 0 {
            before
        } else {
            before.push(pixels.last().color())
        }
    }
}

/// Lists the colours of the pixels that can be seen.
pub fn visible_colors(pixels: &Vec<Pixel>) -> (colors: Vec<Color>)
    ensures
        colors@ == visible(pixels@),
{
    let mut colors: Vec<Color> = Vec::new();
    let mut i: usize = 0;
    proof {
        assert(pixels@.take(0) =~= Seq::<Pixel>::empty());
        assert(colors@ =~= visible(pixels@.take(0)));
    }
    while i < pixels.len()
        invariant
            i <= pixels@.len(),
            colors@ == visible(pixels@.take(i as int)),
        decreases pixels.len() - i,
    {
        let p: Pixel = pixels[i];
        proof {
            assert(pixels@.take(i + 1).drop_last() =~= pixels@.take(i as int));
            assert(pixels@.take(i + 1).last() == p);
        }
        if p.a != 0 {
            colors.push(p.to_color());
        }
        i += 1;
    }
    proof {
        assert(pixels@.take(i as int) =~= pixels@);
    }
    colors
}

/// An image that needs no more work, or the colours to work on.
#[derive(Debug)]
pub enum Quantized {
    /// The image is done.
    Done(Image),
    /// These colours are to be reduced to this many.
    Reduce { colors: Vec<Color>, count: usize },
}

/// What the reduction of an image to a few colours begins with. With a palette the image is painted with
/// it; where no pixel can be seen the image stays; else there is work to do, for no more colours than
/// pixels.
pub open spec fn is_begun(
    image: Image,
    config: Config,
    begun: Result<Quantized, PixelSnapperError>,
) -> bool {
    match begun {
        Err(e) => config.k_colors == 0 && e.is_invalid_input(
            "Number of colors must be greater than 0"@,
        ),
        Ok(next) => config.k_colors > 0 && match config.palette {
            Some(palette) => next matches Quantized::Done(done) && done.width == image.width
                && done.height == image.height && done.pixels@ == image.pixels@.map_values(
                |p: Pixel| mapped(p, palette@),
            ),
            None => if visible(image.pixels@).len() == 0 {
                next matches Quantized::Done(done) && done.same(image)
            } else {
                next matches Quantized::Reduce { colors, count } && colors@ == visible(
                    image.pixels@,
                ) && count == if config.k_colors < colors@.len() {
                    config.k_colors as int
                } else {
                    colors@.len() as int
                }
            },
        },
    }
}

/// Begins to reduce an image to a few colours.
pub fn quantize_image(image: &Image, config: &Config) -> (begun: Result<
    Quantized,
    PixelSnapperError,
>)
    ensures
        is_begun(*image, *config, begun),
{
    if config.k_colors == 0 {
        return Err(invalid_input("Number of colors must be greater than 0"));
    }
    if let Some(palette) = &config.palette {
        return Ok(Quantized::Done(map_image_to_palette(image, palette)));
    }
    let colors: Vec<Color> = visible_colors(&image.pixels);
    if colors.len() == 0 {
        return Ok(Quantized::Done(image.copy()));
    }
    let count: usize = if config.k_colors < colors.len() {
        config.k_colors
    } else {
        colors.len()
    };
    Ok(Quantized::Reduce { colors, count })
}

/// The same pixels can be seen in both, with the same colours. How opaque they are, and what is hidden,
/// may differ.
pub open spec fn look_alike(a: Seq<Pixel>, b: Seq<Pixel>) -> bool {
    &&& a.len() == b.len()
    &&& forall|i: int|
        0 <= i < a.len() ==> (#[trigger] a[i].a == 0 <==> b[i].a == 0) && (a[i].a != 0
            ==> a[i].color() == b[i].color())
}

/// In pixels that look alike the same colours can be seen.
pub proof fn look_alikes_have_the_same_colors(a: Seq<Pixel>, b: Seq<Pixel>)
    requires
        look_alike(a, b),
    ensures
        visible(a) == visible(b),
    decreases a.len(),
{
    if a.len() > 0 {
        let last = a.len() - 1;
        assert(a[last].a == 0 <==> b[last].a == 0);
        assert forall|i: int| 0 <= i < last implies (#[trigger] a.drop_last()[i].a == 0
            <==> b.drop_last()[i].a == 0) && (a.drop_last()[i].a != 0 ==> a.drop_last()[i].color()
            == b.drop_last()[i].color()) by {
            assert(a[i].a == 0 <==> b[i].a == 0);
        }
        look_alikes_have_the_same_colors(a.drop_last(), b.drop_last());
    }
}

/// With the same settings, two images in which the same colours can be seen, in the same order, hand out
/// the same colours and the same number of them to be kept, and where one is done with so is the other.
/// Images that look alike still do so when done with.
pub proof fn same_colors_begin_alike(
    a: Image,
    b: Image,
    config: Config,
    begun_a: Result<Quantized, PixelSnapperError>,
    begun_b: Result<Quantized, PixelSnapperError>,
)
    requires
        visible(a.pixels@) == visible(b.pixels@),
        is_begun(a, config, begun_a),
        is_begun(b, config, begun_b),
    ensures
        match (begun_a, begun_b) {
            (Err(_), Err(_)) => true,
            (
                Ok(Quantized::Reduce { colors: colors_a, count: count_a }),
                Ok(Quantized::Reduce { colors: colors_b, count: count_b }),
            ) => colors_a@ == colors_b@ && count_a == count_b,
            (Ok(Quantized::Done(done_a)), Ok(Quantized::Done(done_b))) => look_alike(
                a.pixels@,
                b.pixels@,
            ) ==> look_alike(done_a.pixels@, done_b.pixels@),
            _ => false,
        },
{
    if look_alike(a.pixels@, b.pixels@) {
        if let (Ok(Quantized::Done(done_a)), Ok(Quantized::Done(done_b))) = (begun_a, begun_b) {
            assert forall|i: int| 0 <= i < done_a.pixels@.len() implies (
            #[trigger] done_a.pixels@[i].a == 0 <==> done_b.pixels@[i].a == 0) && (
            done_a.pixels@[i].a != 0 ==> done_a.pixels@[i].color()
                == done_b.pixels@[i].color()) by {
                assert(a.pixels@[i].a == 0 <==> b.pixels@[i].a == 0);
            }
        }
    }
}

/// How the reduction begins does not depend on the names of files.
pub proof fn colors_do_not_depend_on_paths(
    image: Image,
    a: Config,
    b: Config,
    begun: Result<Quantized, PixelSnapperError>,
)
    requires
        differ_in_paths_only(a, b),
    ensures
        is_begun(image, a, begun) == is_begun(image, b, begun),
{
}

/// How far a colour is from the nearest of those chosen, squared.
pub open spec fn gap(colors: Seq<Color>, chosen: Seq<usize>, i: int) -> int
    decreases chosen.len(),
{
    if chosen.len() <= 1 {
        distance(colors[i], colors[chosen[0] as int])
    } else {
        let before = gap(colors, chosen.drop_last(), i);
        let here = distance(colors[i], colors[chosen.last() as int]);
        if here < before {
            here
        } else {
            before
        }
    }
}

/// The colours that are chosen to start from.
#[derive(Debug)]
pub struct Seeding {
    /// The colours to choose from.
    pub colors: Vec<Color>,
    /// The places of those chosen.
    pub chosen: Vec<usize>,
    /// How far each colour is from the nearest of those chosen, squared.
    pub distances: Vec<u64>,
}

/// From what the next colour is drawn.
#[derive(Clone, Copy, Debug, PartialEq, Eq, Structural)]
pub enum Draw {
    /// From all, each with the same chance.
    Uniform,
    /// From all, with their distances as weights.
    Weighted,
}

impl Seeding {
    /// At least one colour is chosen, and the distances are those to the nearest.
    pub open spec fn wf(self) -> bool {
        &&& self.chosen@.len() > 0
        &&& forall|k: int|
            0 <= k < self.chosen@.len() ==> #[trigger] self.chosen@[k] < self.colors@.len()
        &&& self.distances@.len() == self.colors@.len()
        &&& forall|i: int|
            0 <= i < self.colors@.len() ==> #[trigger] self.distances@[i] == gap(
                self.colors@,
                self.chosen@,
                i,
            )
    }

    /// Every colour is among those chosen.
    pub open spec fn covers(self) -> bool {
        forall|i: int| 0 <= i < self.distances@.len() ==> #[trigger] self.distances@[i] == 0
    }

    /// Starts with one colour.
    pub fn start(colors: Vec<Color>, first: usize) -> (seeding: Seeding)
        requires
            first < colors@.len(),
        ensures
            seeding.wf(),
            seeding.colors == colors,
            seeding.chosen@ == seq![first],
    {
        let mut chosen: Vec<usize> = Vec::new();
        chosen.push(first);
        let mut distances: Vec<u64> = Vec::new();
        let mut i: usize = 0;
        proof {
            assert(chosen@ =~= seq![first]);
        }
        while i < colors.len()
            invariant
                i <= colors@.len(),
                first < colors@.len(),
                chosen@ == seq![first],
                distances@.len() == i,
                forall|k: int|
                    0 <= k < i ==> #[trigger] distances@[k] == gap(colors@, chosen@, k),
            decreases colors.len() - i,
        {
            distances.push(color_distance(colors[i], colors[first]));
            i += 1;
        }
        Seeding { colors, chosen, distances }
    }

    /// Starts with a colour that is drawn with the generator of a seed, and hands out the generator.
    pub fn begin(colors: Vec<Color>, seed: u64) -> (begun: (Seeding, rand_chacha::ChaCha8Rng))
        requires
            colors@.len() > 0,
        ensures
            begun.0.wf(),
            begun.0.colors == colors,
            ({
                let (first, rng) = draw(seeded(seed), colors@.len() as u64);
                first < colors@.len() && begun.0.chosen@ == seq![first as usize] && begun.1 == rng
            }),
    {
        let mut rng: rand_chacha::ChaCha8Rng = seed_from_u64(seed);
        let first: usize = sample_index(&mut rng, colors.len());
        (Seeding::start(colors, first), rng)
    }

    /// Decides whether one more colour is drawn, where so many are to be chosen.
    pub fn wants_more(&self, count: usize) -> (more: bool)
        ensures
            more == (self.chosen@.len() < count),
    {
        self.chosen.len() < count
    }

    /// Decides from what the next colour is drawn: by distance, unless none is at a distance.
    pub fn next_draw(&self) -> (draw: Draw)
        ensures
            draw == if self.covers() {
                Draw::Uniform
            } else {
                Draw::Weighted
            },
            draw == Draw::Uniform <==> forall|i: int|
                0 <= i < self.distances@.len() ==> #[trigger] self.distances@[i] == 0,
    {
        let mut i: usize = 0;
        while i < self.distances.len()
            invariant
                i <= self.distances@.len(),
                forall|k: int| 0 <= k < i ==> #[trigger] self.distances@[k] == 0,
            decreases self.distances.len() - i,
        {
            if self.distances[i] != 0 {
                return Draw::Weighted;
            }
            i += 1;
        }
        Draw::Uniform
    }

    /// Chooses one more colour.
    pub fn choose_color(&mut self, index: usize)
        requires
            old(self).wf(),
            index < old(self).colors@.len(),
        ensures
            final(self).wf(),
            final(self).colors == old(self).colors,
            final(self).chosen@ == old(self).chosen@.push(index),
    {
        let ghost before = self.chosen@;
        let ghost old_distances = self.distances@;
        self.chosen.push(index);
        let ghost after = self.chosen@;
        proof {
            assert(after.drop_last() =~= before);
        }
        let mut i: usize = 0;
        while i < self.colors.len()
            invariant
                i <= self.colors@.len(),
                index < self.colors@.len(),
                self.colors == old(self).colors,
                self.chosen@ == after,
                after == before.push(index),
                after.drop_last() == before,
                before.len() > 0,
                self.distances@.len() == self.colors@.len(),
                old_distances.len() == self.colors@.len(),
                forall|k: int|
                    0 <= k < self.colors@.len() ==> #[trigger] old_distances[k] == gap(
                        self.colors@,
                        before,
                        k,
                    ),
                forall|k: int|
                    0 <= k < i ==> #[trigger] self.distances@[k] == gap(self.colors@, after, k),
                forall|k: int|
                    i <= k < self.colors@.len() ==> #[trigger] self.distances@[k]
                        == old_distances[k],
            decreases self.colors.len() - i,
        {
            let here: u64 = color_distance(self.colors[i], self.colors[index]);
            if here < self.distances[i] {
                self.distances.set(i, here);
            }
            i += 1;
        }
    }

    /// Chooses one more colour, each with the same chance.
    pub fn choose_any(&mut self, rng: &mut rand_chacha::ChaCha8Rng)
        requires
            old(self).wf(),
        ensures
            final(self).wf(),
            final(self).colors == old(self).colors,
            ({
                let (index, after) = draw(*old(rng), old(self).colors@.len() as u64);
                index < old(self).colors@.len() && final(self).chosen@ == old(self).chosen@.push(
                    index as usize,
                ) && *final(rng) == after
            }),
    {
        proof {
            assert(self.chosen@[0] < self.colors@.len());
        }
        let index: usize = sample_index(rng, self.colors.len());
        self.choose_color(index);
    }

    /// Lists the colours chosen.
    pub fn chosen_colors(&self) -> (list: Vec<Color>)
        requires
            self.wf(),
        ensures
            list@ == self.chosen@.map_values(|k: usize| self.colors@[k as int]),
    {
        let mut list: Vec<Color> = Vec::new();
        let mut i: usize = 0;
        while i < self.chosen.len()
            invariant
                self.wf(),
                i <= self.chosen@.len(),
                list@.len() == i,
                forall|k: int|
                    0 <= k < i ==> #[trigger] list@[k] == self.colors@[self.chosen@[k] as int],
            decreases self.chosen.len() - i,
        {
            proof {
                assert(self.chosen@[i as int] < self.colors@.len());
            }
            list.push(self.colors[self.chosen[i]]);
            i += 1;
        }
        proof {
            assert(list@ =~= self.chosen@.map_values(|k: usize| self.colors@[k as int]));
        }
        list
    }
}

/// The distance to the nearest chosen colour is that to one of them, and not above that to any.
pub proof fn gap_is_nearest(colors: Seq<Color>, chosen: Seq<usize>, i: int)
    requires
        chosen.len() > 0,
    ensures
        exists|k: int|
            0 <= k < chosen.len() && gap(colors, chosen, i) == distance(
                colors[i],
                colors[#[trigger] chosen[k] as int],
            ),
        forall|k: int|
            0 <= k < chosen.len() ==> gap(colors, chosen, i) <= distance(
                colors[i],
                colors[#[trigger] chosen[k] as int],
            ),
    decreases chosen.len(),
{
    if chosen.len() == 1 {
        assert(gap(colors, chosen, i) == distance(colors[i], colors[chosen[0] as int]));
    } else {
        let before = chosen.drop_last();
        gap_is_nearest(colors, before, i);
        let j = choose|j: int|
            0 <= j < before.len() && gap(colors, before, i) == distance(
                colors[i],
                colors[#[trigger] before[j] as int],
            );
        let last = chosen.len() - 1;
        assert(chosen[j] == before[j]);
        assert(chosen[last] == chosen.last());
        assert forall|k: int| 0 <= k < chosen.len() implies gap(colors, chosen, i) <= distance(
            colors[i],
            colors[#[trigger] chosen[k] as int],
        ) by {
            if k < last {
                assert(before[k] == chosen[k]);
            }
        }
    }
}

/// Where no colour is at a distance from those chosen, every colour is one of them.
pub proof fn covered_colors_are_chosen(seeding: Seeding, i: int)
    requires
        seeding.wf(),
        seeding.covers(),
        0 <= i < seeding.colors@.len(),
    ensures
        exists|k: int|
            0 <= k < seeding.chosen@.len() && seeding.colors@[i]
                == seeding.colors@[#[trigger] seeding.chosen@[k] as int],
{
    gap_is_nearest(seeding.colors@, seeding.chosen@, i);
    assert(seeding.distances@[i] == 0);
    let k = choose|k: int|
        0 <= k < seeding.chosen@.len() && gap(seeding.colors@, seeding.chosen@, i) == distance(
            seeding.colors@[i],
            seeding.colors@[#[trigger] seeding.chosen@[k] as int],
        );
    distance_bounds(seeding.colors@[i], seeding.colors@[seeding.chosen@[k] as int]);
}

/// Colours are refined once more after a round: not after the last one, and not where they hardly moved, but
/// the first round does not count for that.
pub open spec fn goes_on(round: usize, rounds: usize, still: bool) -> bool {
    round + 1 < rounds && (round == 0 || !still)
}

/// Refining ends after the given number of rounds at the latest. Before that it goes on after the first round,
/// and after any other just when the colours moved.
pub proof fn refining_ends_when_still(round: usize, rounds: usize, still: bool)
    ensures
        round + 1 >= rounds ==> !goes_on(round, rounds, still),
        round + 1 < rounds && round == 0 ==> goes_on(round, rounds, still),
        round + 1 < rounds && round > 0 ==> (goes_on(round, rounds, still) <==> !still),
{
}

/// Decides whether colours are refined once more after a round.
pub fn refines_again(round: usize, rounds: usize, still: bool) -> (again: bool)
    ensures
        again == goes_on(round, rounds, still),
        again == (round + 1 < rounds && (round == 0 || !still)),
{
    round < rounds && rounds - round > 1 && (round == 0 || !still)
}

/// The pixels with each one that can be seen painted with the colour of its label. Labels are for those
/// pixels alone, in order.
pub open spec fn painted(pixels: Seq<Pixel>, labels: Seq<usize>, colors: Seq<Color>) -> Seq<Pixel>
    decreases pixels.len(),
{
    if pixels.len() == 0 {
        seq![]
    } else {
        let rest = pixels.drop_last();
        let p = pixels.last();
        painted(rest, labels, colors).push(
            if p.a == 0 {
                p
            } else {
                let c = colors[labels[visible(rest).len() as int] as int];
                Pixel { r: c.r, g: c.g, b: c.b, a: p.a }
            },
        )
    }
}

/// Painting keeps the number of pixels and what can be seen of each, and leaves alone those that cannot
/// be seen.
pub proof fn painting_keeps_opacity(pixels: Seq<Pixel>, labels: Seq<usize>, colors: Seq<Color>)
    ensures
        painted(pixels, labels, colors).len() == pixels.len(),
        forall|i: int|
            0 <= i < pixels.len() ==> (#[trigger] painted(pixels, labels, colors)[i]).a
                == pixels[i].a,
        forall|i: int|
            0 <= i < pixels.len() && pixels[i].a == 0 ==> #[trigger] painted(
                pixels,
                labels,
                colors,
            )[i] == pixels[i],
    decreases pixels.len(),
{
    if pixels.len() > 0 {
        painting_keeps_opacity(pixels.drop_last(), labels, colors);
        let before = painted(pixels.drop_last(), labels, colors);
        let all = painted(pixels, labels, colors);
        assert forall|i: int| 0 <= i < pixels.len() implies (#[trigger] all[i]).a == pixels[i].a && (
        pixels[i].a == 0 ==> all[i] == pixels[i]) by {
            if i < before.len() {
                assert(all[i] == before[i]);
                assert(pixels.drop_last()[i] == pixels[i]);
            }
        }
    }
}

/// What can be seen after painting are the colours of the labels.
pub proof fn painting_shows_labels(pixels: Seq<Pixel>, labels: Seq<usize>, colors: Seq<Color>)
    ensures
        visible(painted(pixels, labels, colors)) == Seq::new(
            visible(pixels).len(),
            |j: int| colors[labels[j] as int],
        ),
    decreases pixels.len(),
{
    let shown = Seq::new(visible(pixels).len(), |j: int| colors[labels[j] as int]);
    if pixels.len() > 0 {
        let rest = pixels.drop_last();
        painting_shows_labels(rest, labels, colors);
        let all = painted(pixels, labels, colors);
        assert(all.drop_last() =~= painted(rest, labels, colors));
        assert(visible(all) =~= shown);
    } else {
        assert(visible(painted(pixels, labels, colors)) =~= shown);
    }
}

/// Painting every pixel with the colour that it has changes nothing.
pub proof fn painting_with_own_colors_changes_nothing(
    pixels: Seq<Pixel>,
    labels: Seq<usize>,
    colors: Seq<Color>,
)
    requires
        forall|j: int|
            0 <= j < visible(pixels).len() ==> colors[#[trigger] labels[j] as int] == visible(
                pixels,
            )[j],
    ensures
        painted(pixels, labels, colors) == pixels,
    decreases pixels.len(),
{
    if pixels.len() > 0 {
        let rest = pixels.drop_last();
        let before = visible(rest);
        assert forall|j: int| 0 <= j < before.len() implies colors[#[trigger] labels[j] as int]
            == before[j] by {
            assert(visible(pixels)[j] == before[j]);
        }
        painting_with_own_colors_changes_nothing(rest, labels, colors);
        if pixels.last().a != 0 {
            let j = before.len() as int;
            assert(colors[labels[j] as int] == visible(pixels)[j]);
        }
    }
    assert(painted(pixels, labels, colors) =~= pixels);
}

/// An image that is painted with no more than so many colours shows no more than so many.
pub proof fn painting_shows_few_colors(
    pixels: Seq<Pixel>,
    labels: Seq<usize>,
    colors: Seq<Color>,
    count: nat,
)
    requires
        labels.len() == visible(pixels).len(),
        forall|k: int| 0 <= k < labels.len() ==> #[trigger] labels[k] < colors.len(),
        colors.len() <= count,
    ensures
        visible(painted(pixels, labels, colors)).to_set().len() <= count,
{
    painting_shows_labels(pixels, labels, colors);
    let shown = visible(painted(pixels, labels, colors));
    vstd::seq_lib::seq_to_set_is_finite(shown);
    vstd::seq_lib::seq_to_set_is_finite(colors);
    assert forall|c: Color| #[trigger] shown.to_set().contains(c) implies colors.to_set().contains(
        c,
    ) by {
        let j = choose|j: int| 0 <= j < shown.len() && shown[j] == c;
        assert(labels[j] < colors.len());
        assert(colors.contains(c));
    }
    vstd::set_lib::lemma_len_subset(shown.to_set(), colors.to_set());
    colors.lemma_cardinality_of_set();
}

/// Pixels that look alike still do so after they are painted with the same labels.
pub proof fn painting_keeps_likeness(
    a: Seq<Pixel>,
    b: Seq<Pixel>,
    labels: Seq<usize>,
    colors: Seq<Color>,
)
    requires
        look_alike(a, b),
    ensures
        look_alike(painted(a, labels, colors), painted(b, labels, colors)),
    decreases a.len(),
{
    painting_keeps_opacity(a, labels, colors);
    painting_keeps_opacity(b, labels, colors);
    if a.len() > 0 {
        let last = a.len() - 1;
        let (rest_a, rest_b) = (a.drop_last(), b.drop_last());
        assert forall|i: int| 0 <= i < last implies (#[trigger] rest_a[i].a == 0 <==> rest_b[i].a
            == 0) && (rest_a[i].a != 0 ==> rest_a[i].color() == rest_b[i].color()) by {
            assert(a[i].a == 0 <==> b[i].a == 0);
        }
        painting_keeps_likeness(rest_a, rest_b, labels, colors);
        look_alikes_have_the_same_colors(rest_a, rest_b);
        let (all_a, all_b) = (painted(a, labels, colors), painted(b, labels, colors));
        let (some_a, some_b) = (painted(rest_a, labels, colors), painted(rest_b, labels, colors));
        assert forall|i: int| 0 <= i < all_a.len() implies (#[trigger] all_a[i].a == 0
            <==> all_b[i].a == 0) && (all_a[i].a != 0 ==> all_a[i].color() == all_b[i].color()) by {
            assert(a[i].a == 0 <==> b[i].a == 0);
            if i < last {
                assert(all_a[i] == some_a[i] && all_b[i] == some_b[i]);
                assert(some_a[i].a == 0 <==> some_b[i].a == 0);
            }
        }
    }
}

/// No more can be seen in the first pixels than in all, and less where the next one can be seen.
proof fn lemma_visible_prefix(pixels: Seq<Pixel>, n: int)
    requires
        0 <= n <= pixels.len(),
    ensures
        visible(pixels.take(n)).len() <= visible(pixels).len(),
        n < pixels.len() && pixels[n].a != 0 ==> visible(pixels.take(n)).len() < visible(
            pixels,
        ).len(),
    decreases pixels.len() - n,
{
    if n < pixels.len() {
        lemma_visible_prefix(pixels, n + 1);
        assert(pixels.take(n + 1).drop_last() =~= pixels.take(n));
        assert(pixels.take(n + 1).last() == pixels[n]);
    } else {
        assert(pixels.take(n) =~= pixels);
    }
}

/// Paints the pixels of an image that can be seen with the colours of their labels.
pub fn paint(image: &Image, labels: &Vec<usize>, colors: &Vec<Color>) -> (done: Image)
    requires
        labels@.len() == visible(image.pixels@).len(),
        forall|k: int| 0 <= k < labels@.len() ==> #[trigger] labels@[k] < colors@.len(),
    ensures
        done.width == image.width,
        done.height == image.height,
        done.pixels@ == painted(image.pixels@, labels@, colors@),
        image.wf() ==> done.wf(),
{
    let mut pixels: Vec<Pixel> = Vec::new();
    let mut next: usize = 0;
    let mut i: usize = 0;
    proof {
        assert(image.pixels@.take(0) =~= Seq::<Pixel>::empty());
        assert(pixels@ =~= painted(image.pixels@.take(0), labels@, colors@));
    }
    while i < image.pixels.len()
        invariant
            i <= image.pixels@.len(),
            labels@.len() == visible(image.pixels@).len(),
            forall|k: int| 0 <= k < labels@.len() ==> #[trigger] labels@[k] < colors@.len(),
            next == visible(image.pixels@.take(i as int)).len(),
            pixels@ == painted(image.pixels@.take(i as int), labels@, colors@),
        decreases image.pixels.len() - i,
    {
        let p: Pixel = image.pixels[i];
        proof {
            assert(image.pixels@.take(i + 1).drop_last() =~= image.pixels@.take(i as int));
            assert(image.pixels@.take(i + 1).last() == p);
            lemma_visible_prefix(image.pixels@, i as int);
        }
        if p.a == 0 {
            pixels.push(p);
        } else {
            let count: usize = labels.len();
            let c: Color = colors[labels[next]];
            pixels.push(Pixel { r: c.r, g: c.g, b: c.b, a: p.a });
            proof {
                assert(next < count);
            }
            next += 1;
        }
        i += 1;
    }
    proof {
        assert(image.pixels@.take(i as int) =~= image.pixels@);
        painting_keeps_opacity(image.pixels@, labels@, colors@);
    }
    Image { width: image.width, height: image.height, pixels }
}

/// What can be seen are the colours of the pixels that are not fully transparent, in order.
pub proof fn visible_colors_are_of_opaque_pixels(pixels: Seq<Pixel>)
    ensures
        visible(pixels) == pixels.filter(|p: Pixel| p.a != 0).map_values(
            |p: Pixel| Color { r: p.r, g: p.g, b: p.b },
        ),
    decreases pixels.len(),
{
    reveal(Seq::filter);
    let keep = |p: Pixel| p.a != 0;
    let tint = |p: Pixel| Color { r: p.r, g: p.g, b: p.b };
    if pixels.len() > 0 {
        visible_colors_are_of_opaque_pixels(pixels.drop_last());
    }
    assert(visible(pixels) =~= pixels.filter(keep).map_values(tint));
}

/// A painted pixel has the opacity that it had. If it can be seen, its colour is the one of its label, and
/// its label is found by counting the pixels before it that can be seen. If it cannot, it stays.
pub proof fn painting_counts_opaque_pixels(
    pixels: Seq<Pixel>,
    labels: Seq<usize>,
    colors: Seq<Color>,
    i: int,
)
    requires
        0 <= i < pixels.len(),
    ensures
        painted(pixels, labels, colors).len() == pixels.len(),
        painted(pixels, labels, colors)[i].a == pixels[i].a,
        pixels[i].a == 0 ==> painted(pixels, labels, colors)[i] == pixels[i],
        pixels[i].a != 0 ==> {
            let before = pixels.take(i).filter(|p: Pixel| p.a != 0).len();
            let color = colors[labels[before as int] as int];
            let p = painted(pixels, labels, colors)[i];
            p.r == color.r && p.g == color.g && p.b == color.b
        },
    decreases pixels.len(),
{
    painting_keeps_opacity(pixels, labels, colors);
    let last = pixels.len() - 1;
    let rest = pixels.drop_last();
    painting_keeps_opacity(rest, labels, colors);
    if i < last {
        painting_counts_opaque_pixels(rest, labels, colors, i);
        assert(rest.take(i) =~= pixels.take(i));
        assert(painted(pixels, labels, colors)[i] == painted(rest, labels, colors)[i]);
    } else {
        assert(pixels.take(i) =~= rest);
        visible_colors_are_of_opaque_pixels(rest);
    }
}

/// The distance that is kept for a colour is the least of the sums of squared differences to the chosen
/// colours.
pub proof fn kept_distances_are_least(seeding: Seeding, i: int)
    requires
        seeding.wf(),
        0 <= i < seeding.colors@.len(),
    ensures
        forall|k: int|
            0 <= k < seeding.chosen@.len() ==> {
                let (a, b) = (seeding.colors@[i], seeding.colors@[#[trigger] seeding.chosen@[k] as int]);
                seeding.distances@[i] <= (a.r - b.r) * (a.r - b.r) + (a.g - b.g) * (a.g - b.g) + (a.b
                    - b.b) * (a.b - b.b)
            },
        exists|k: int|
            0 <= k < seeding.chosen@.len() && {
                let (a, b) = (seeding.colors@[i], seeding.colors@[#[trigger] seeding.chosen@[k] as int]);
                seeding.distances@[i] == (a.r - b.r) * (a.r - b.r) + (a.g - b.g) * (a.g - b.g) + (a.b
                    - b.b) * (a.b - b.b)
            },
{
    gap_is_nearest(seeding.colors@, seeding.chosen@, i);
    assert(seeding.distances@[i] == gap(seeding.colors@, seeding.chosen@, i));
}

/// How a reduction begins. It is refused just when no colours are asked for. A palette is painted with.
/// Else, if no pixel can be seen, nothing changes. Else the colours of all pixels that can be seen are
/// handed out, with the number asked for or their own number, whichever is smaller.
pub proof fn reduction_begins_as_asked(
    image: Image,
    config: Config,
    begun: Result<Quantized, PixelSnapperError>,
)
    requires
        is_begun(image, config, begun),
    ensures
        begun is Err <==> config.k_colors == 0,
        begun matches Ok(Quantized::Reduce { colors, count }) ==> {
            &&& config.palette is None
            &&& colors@ == image.pixels@.filter(|p: Pixel| p.a != 0).map_values(
                |p: Pixel| Color { r: p.r, g: p.g, b: p.b },
            )
            &&& 1 <= count <= colors@.len()
            &&& count <= config.k_colors
            &&& count == colors@.len() || count == config.k_colors
        },
        begun matches Ok(Quantized::Done(done)) ==> {
            &&& done.width == image.width && done.height == image.height
            &&& done.pixels@.len() == image.pixels@.len()
            &&& config.palette is None ==> done.pixels@ == image.pixels@ && forall|i: int|
                0 <= i < image.pixels@.len() ==> (#[trigger] image.pixels@[i]).a == 0
            &&& forall|i: int|
                0 <= i < image.pixels@.len() ==> (#[trigger] done.pixels@[i]).a == image.pixels@[i].a
            &&& config.palette matches Some(palette) ==> forall|i: int|
                0 <= i < image.pixels@.len() && palette@.len() > 0 && image.pixels@[i].a != 0
                    ==> palette@.contains(
                    Color {
                        r: (#[trigger] done.pixels@[i]).r,
                        g: done.pixels@[i].g,
                        b: done.pixels@[i].b,
                    },
                )
        },
{
    visible_colors_are_of_opaque_pixels(image.pixels@);
    if let Ok(Quantized::Done(done)) = begun {
        if let Some(palette) = config.palette {
            assert forall|i: int|
                0 <= i < image.pixels@.len() && palette@.len() > 0 && image.pixels@[i].a
                    != 0 implies palette@.contains(
                Color {
                    r: (#[trigger] done.pixels@[i]).r,
                    g: done.pixels@[i].g,
                    b: done.pixels@[i].b,
                },
            ) by {
                nearest_is_nearest(image.pixels@[i].color(), palette@);
            }
        } else {
            let keep = |p: Pixel| p.a != 0;
            assert forall|i: int| 0 <= i < image.pixels@.len() implies (
            #[trigger] image.pixels@[i]).a == 0 by {
                if image.pixels@[i].a != 0 {
                    image.pixels@.lemma_filter_contains(keep, i);
                }
            }
        }
    }
}

} // verus!
