//! Painting one pixel for each cell of a grid.

use std::collections::HashMap;
use vstd::prelude::*;
use vstd::arithmetic::div_mod::lemma_fundamental_div_mod_converse;
use crate::config::ResampleMode;
use crate::cuts::{divided, divided_has_its_cells, Guide};
use crate::error::{processing_error, PixelSnapperError};
use crate::picture::{
    clear, clear_pixel, pixel_number_is_unique, pixels_are_numbered_in_order, place_in_rows, Image,
    Pixel,
};

verus! {

/// A rectangle of pixels, from the first column and row up to, not including, the last.
#[derive(Clone, Copy, Debug, PartialEq, Eq, Structural)]
pub struct Cell {
    pub left: usize,
    pub right: usize,
    pub top: usize,
    pub bottom: usize,
}

impl Cell {
    /// There is no pixel in the cell.
    pub open spec fn is_empty(self) -> bool {
        self.right <= self.left || self.bottom <= self.top
    }

    /// The cell lies in the image.
    pub open spec fn is_in(self, image: Image) -> bool {
        self.right <= image.width && self.bottom <= image.height
    }

    /// The number of columns of a cell that has pixels.
    pub open spec fn columns(self) -> int {
        self.right - self.left
    }

    /// The number of rows of a cell that has pixels.
    pub open spec fn rows(self) -> int {
        self.bottom - self.top
    }

    /// The pixels of the image in the cell, row by row.
    pub open spec fn pixels(self, image: Image) -> Seq<Pixel> {
        if self.is_empty() {
            seq![]
        } else {
            Seq::new(
                (self.columns() * self.rows()) as nat,
                |k: int| image.at(self.left + k % self.columns(), self.top + k / self.columns()),
            )
        }
    }

    /// The pixel in the middle of the cell; of two, the one nearer the start.
    pub open spec fn middle(self, image: Image) -> Pixel {
        image.at((self.left + self.right - 1) / 2, (self.top + self.bottom - 1) / 2)
    }

    /// Tells whether there is no pixel in the cell.
    pub fn has_no_pixels(&self) -> (empty: bool)
        ensures
            empty == self.is_empty(),
    {
        self.right <= self.left || self.bottom <= self.top
    }

    /// Lists the pixels of the image in the cell.
    pub fn list_pixels(&self, image: &Image) -> (list: Vec<Pixel>)
        requires
            image.wf(),
            self.is_in(*image),
        ensures
            list@ == self.pixels(*image),
    {
        let mut list: Vec<Pixel> = Vec::new();
        if self.has_no_pixels() {
            return list;
        }
        let mut y: usize = self.top;
        proof {
            assert((self.top - self.top) * self.columns() == 0);
        }
        while y < self.bottom
            invariant
                image.wf(),
                self.is_in(*image),
                !self.is_empty(),
                self.top <= y <= self.bottom,
                list@.len() == (y - self.top) * self.columns(),
                forall|k: int|
                    0 <= k < list@.len() ==> #[trigger] list@[k] == image.at(
                        self.left + k % self.columns(),
                        self.top + k / self.columns(),
                    ),
            decreases self.bottom - y,
        {
            let mut x: usize = self.left;
            while x < self.right
                invariant
                    image.wf(),
                    self.is_in(*image),
                    !self.is_empty(),
                    self.top <= y < self.bottom,
                    self.left <= x <= self.right,
                    list@.len() == (y - self.top) * self.columns() + (x - self.left),
                    forall|k: int|
                        0 <= k < list@.len() ==> #[trigger] list@[k] == image.at(
                            self.left + k % self.columns(),
                            self.top + k / self.columns(),
                        ),
                decreases self.right - x,
            {
                proof {
                    lemma_fundamental_div_mod_converse(
                        list@.len() as int,
                        self.columns(),
                        y - self.top,
                        x - self.left,
                    );
                }
                list.push(image.get(x, y));
                x += 1;
            }
            proof {
                assert((y + 1 - self.top) * self.columns() == (y - self.top) * self.columns()
                    + self.columns()) by (nonlinear_arith);
            }
            y += 1;
        }
        proof {
            assert((self.bottom - self.top) * self.columns() == self.columns() * self.rows())
                by (nonlinear_arith)
                requires
                    self.rows() == self.bottom - self.top,
            ;
            assert(list@ =~= self.pixels(*image));
        }
        list
    }
}

/// A cut, moved to the end of the side where it lies beyond.
pub open spec fn clipped(cut: usize, side: u32) -> usize {
    if cut < side {
        cut
    } else {
        side as usize
    }
}

/// The cell between cuts `i` and `i + 1` across and cuts `j` and `j + 1` down, as far as it lies in the
/// image.
pub open spec fn cell(image: Image, cols: Seq<usize>, rows: Seq<usize>, i: int, j: int) -> Cell {
    Cell {
        left: clipped(cols[i], image.width),
        right: clipped(cols[i + 1], image.width),
        top: clipped(rows[j], image.height),
        bottom: clipped(rows[j + 1], image.height),
    }
}

fn clip(cut: usize, side: u32) -> (kept: usize)
    ensures
        kept == clipped(cut, side),
        kept <= side,
{
    if cut < side as usize {
        cut
    } else {
        side as usize
    }
}

/// Finds the cell between cuts.
pub fn cell_between(
    image: &Image,
    cols: &Vec<usize>,
    rows: &Vec<usize>,
    i: usize,
    j: usize,
) -> (found: Cell)
    requires
        i + 1 < cols@.len(),
        j + 1 < rows@.len(),
    ensures
        found == cell(*image, cols@, rows@, i as int, j as int),
        found.is_in(*image),
{
    let across: usize = cols.len();
    let down: usize = rows.len();
    proof {
        assert(i + 1 < across && j + 1 < down);
    }
    Cell {
        left: clip(cols[i], image.width),
        right: clip(cols[i + 1], image.width),
        top: clip(rows[j], image.height),
        bottom: clip(rows[j + 1], image.height),
    }
}

/// How many of the pixels are `p`.
pub open spec fn votes(pixels: Seq<Pixel>, p: Pixel) -> int
    decreases pixels.len(),
{
    if pixels.len() == 0 {
        0
    } else {
        votes(pixels.drop_last(), p) + if pixels.last() == p {
            1int
        } else {
            0
        }
    }
}

/// No other pixel is there more often, nor as often with a lower number.
pub open spec fn is_winner(pixels: Seq<Pixel>, p: Pixel) -> bool {
    &&& pixels.contains(p)
    &&& forall|q: Pixel|
        pixels.contains(q) ==> #[trigger] votes(pixels, q) < votes(pixels, p) || (votes(pixels, q)
            == votes(pixels, p) && p.number() <= q.number())
}

/// There is one winner only.
pub proof fn winner_is_unique(pixels: Seq<Pixel>, p: Pixel, q: Pixel)
    requires
        is_winner(pixels, p),
        is_winner(pixels, q),
    ensures
        p == q,
{
    assert(votes(pixels, p) == votes(pixels, q));
    pixel_number_is_unique(p, q);
}

/// A pixel that more than half of the pixels are is the winner.
pub proof fn most_win(pixels: Seq<Pixel>, p: Pixel)
    requires
        2 * votes(pixels, p) > pixels.len(),
    ensures
        is_winner(pixels, p),
{
    lemma_votes(pixels, p);
    assert forall|q: Pixel| pixels.contains(q) implies #[trigger] votes(pixels, q) < votes(pixels, p)
        || (votes(pixels, q) == votes(pixels, p) && p.number() <= q.number()) by {
        if q != p {
            lemma_two_votes(pixels, p, q);
        }
    }
}

proof fn lemma_votes(pixels: Seq<Pixel>, p: Pixel)
    ensures
        0 <= votes(pixels, p) <= pixels.len(),
        votes(pixels, p) > 0 <==> pixels.contains(p),
    decreases pixels.len(),
{
    if pixels.len() > 0 {
        let before = pixels.drop_last();
        lemma_votes(before, p);
        assert(pixels.contains(p) <==> before.contains(p) || pixels.last() == p) by {
            if before.contains(p) {
                let i = choose|i: int| 0 <= i < before.len() && before[i] == p;
                assert(pixels[i] == p);
            }
            if pixels.last() == p {
                assert(pixels[pixels.len() - 1] == p);
            }
            if pixels.contains(p) && pixels.last() != p {
                let i = choose|i: int| 0 <= i < pixels.len() && pixels[i] == p;
                assert(before[i] == p);
            }
        }
    }
}

proof fn lemma_two_votes(pixels: Seq<Pixel>, p: Pixel, q: Pixel)
    requires
        p != q,
    ensures
        votes(pixels, p) + votes(pixels, q) <= pixels.len(),
    decreases pixels.len(),
{
    if pixels.len() > 0 {
        lemma_two_votes(pixels.drop_last(), p, q);
    }
}

/// The number by which a pixel is counted.
spec fn key(p: Pixel) -> u32 {
    p.number() as u32
}

/// The number of times that a pixel was counted.
spec fn counted(counts: Map<u32, usize>, p: Pixel) -> int {
    if counts.contains_key(key(p)) {
        counts[key(p)] as int
    } else {
        0
    }
}

proof fn lemma_key(p: Pixel, q: Pixel)
    ensures
        key(p) == p.number(),
        key(p) == key(q) <==> p == q,
{
    assert(key(p) == p.number() && key(q) == q.number());
    if key(p) == key(q) {
        pixel_number_is_unique(p, q);
    }
}

fn count_pixels(pixels: &Vec<Pixel>) -> (counts: HashMap<u32, usize>)
    ensures
        forall|p: Pixel| #[trigger] counted(counts@, p) == votes(pixels@, p),
{
    broadcast use vstd::std_specs::hash::group_hash_axioms;

    let mut counts: HashMap<u32, usize> = HashMap::new();
    let mut i: usize = 0;
    proof {
        assert(pixels@.take(0) =~= Seq::<Pixel>::empty());
    }
    while i < pixels.len()
        invariant
            i <= pixels@.len(),
            forall|p: Pixel| #[trigger]
                counted(counts@, p) == votes(pixels@.take(i as int), p),
        decreases pixels.len() - i,
    {
        let q: Pixel = pixels[i];
        let number: u32 = q.to_number();
        let ghost before = counts@;
        let ghost seen = pixels@.take(i as int);
        let ghost now = pixels@.take(i + 1);
        proof {
            assert(now.drop_last() =~= seen);
            assert(now.last() == q);
            lemma_key(q, q);
            lemma_votes(seen, q);
            assert(counted(before, q) == votes(seen, q));
        }
        let count: usize = match counts.get(&number) {
            Some(count) => *count,
            None => 0,
        };
        counts.insert(number, count + 1);
        proof {
            assert forall|p: Pixel| #[trigger] counted(counts@, p) == votes(now, p) by {
                lemma_key(p, q);
                assert(counted(before, p) == votes(seen, p));
            }
        }
        i += 1;
    }
    proof {
        assert(pixels@.take(i as int) =~= pixels@);
    }
    counts
}

/// Finds the pixel that is there most often; of several, the one with the lowest number.
pub fn find_winner(pixels: &Vec<Pixel>) -> (winner: Pixel)
    ensures
        if pixels@.len() == 0 {
            winner == clear()
        } else {
            is_winner(pixels@, winner)
        },
{
    broadcast use vstd::std_specs::hash::group_hash_axioms;

    if pixels.len() == 0 {
        return clear_pixel();
    }
    let counts: HashMap<u32, usize> = count_pixels(pixels);
    let mut best: Pixel = pixels[0];
    let mut best_count: usize = 0;
    let mut i: usize = 0;
    while i < pixels.len()
        invariant
            i <= pixels@.len(),
            forall|p: Pixel| #[trigger] counted(counts@, p) == votes(pixels@, p),
            i == 0 ==> best_count == 0,
            i > 0 ==> best_count > 0 && best_count == votes(pixels@, best) && pixels@.contains(best),
            forall|k: int|
                0 <= k < i ==> votes(pixels@, #[trigger] pixels@[k]) < best_count || (votes(
                    pixels@,
                    pixels@[k],
                ) == best_count && best.number() <= pixels@[k].number()),
        decreases pixels.len() - i,
    {
        broadcast use vstd::std_specs::hash::group_hash_axioms;

        let p: Pixel = pixels[i];
        let number: u32 = p.to_number();
        proof {
            lemma_key(p, p);
            lemma_votes(pixels@, p);
            assert(pixels@.contains(p));
            assert(counted(counts@, p) == votes(pixels@, p));
        }
        let count: usize = match counts.get(&number) {
            Some(count) => *count,
            None => 0,
        };
        if count > best_count || (count == best_count && number < best.to_number()) {
            best = p;
            best_count = count;
        }
        i += 1;
    }
    proof {
        assert forall|q: Pixel| pixels@.contains(q) implies #[trigger] votes(pixels@, q) < votes(
            pixels@,
            best,
        ) || (votes(pixels@, q) == votes(pixels@, best) && best.number() <= q.number()) by {
            let k = choose|k: int| 0 <= k < pixels@.len() && pixels@[k] == q;
            assert(pixels@[k] == q);
        }
    }
    best
}

/// Paints a cell with the pixel that is in it most often.
pub fn resample_majority(image: &Image, cell: &Cell) -> (painted: Pixel)
    requires
        image.wf(),
        cell.is_in(*image),
    ensures
        if cell.is_empty() {
            painted == clear()
        } else {
            is_winner(cell.pixels(*image), painted)
        },
{
    let pixels: Vec<Pixel> = cell.list_pixels(image);
    proof {
        if !cell.is_empty() {
            assert(0 < cell.columns() * cell.rows()) by (nonlinear_arith)
                requires
                    0 < cell.columns(),
                    0 < cell.rows(),
            ;
        }
    }
    find_winner(&pixels)
}

/// Paints a cell with the pixel in its middle, or, where that cannot be seen, with the one that is in
/// it most often.
pub fn resample_center(image: &Image, cell: &Cell) -> (painted: Pixel)
    requires
        image.wf(),
        cell.is_in(*image),
        !cell.is_empty(),
    ensures
        if cell.middle(*image).a == 0 {
            is_winner(cell.pixels(*image), painted)
        } else {
            painted == cell.middle(*image)
        },
{
    let x: usize = ((cell.left as u64 + (cell.right - 1) as u64) / 2) as usize;
    let y: usize = ((cell.top as u64 + (cell.bottom - 1) as u64) / 2) as usize;
    let p: Pixel = image.get(x, y);
    if p.a == 0 {
        resample_majority(image, cell)
    } else {
        p
    }
}

/// The place next to another, held at the last where there is none after.
pub open spec fn held(place: int, last: int) -> int {
    if place < 0 {
        0
    } else if place > last {
        last
    } else {
        place
    }
}

/// The pixels around one. At an edge of the image the pixel stands for the one that is missing.
#[derive(Clone, Copy, Debug, PartialEq, Eq, Structural)]
pub struct Around {
    pub left: Pixel,
    pub right: Pixel,
    pub up: Pixel,
    pub down: Pixel,
}

/// Looks up the pixels around one.
pub fn look_around(image: &Image, x: usize, y: usize) -> (around: Around)
    requires
        image.wf(),
        x < image.width,
        y < image.height,
    ensures
        around.left == image.at(held(x - 1, image.width - 1), y as int),
        around.right == image.at(held(x + 1, image.width - 1), y as int),
        around.up == image.at(x as int, held(y - 1, image.height - 1)),
        around.down == image.at(x as int, held(y + 1, image.height - 1)),
{
    let left: usize = if x == 0 {
        0
    } else {
        x - 1
    };
    let right: usize = if x == image.width as usize - 1 {
        x
    } else {
        x + 1
    };
    let up: usize = if y == 0 {
        0
    } else {
        y - 1
    };
    let down: usize = if y == image.height as usize - 1 {
        y
    } else {
        y + 1
    };
    Around {
        left: image.get(left, y),
        right: image.get(right, y),
        up: image.get(x, up),
        down: image.get(x, down),
    }
}

/// No pixel of the list weighs more than the one in place `k`, nor as much with a lower number.
pub open spec fn is_heaviest(pixels: Seq<Pixel>, weights: Seq<u64>, k: int) -> bool {
    &&& 0 <= k < pixels.len()
    &&& forall|i: int|
        0 <= i < pixels.len() ==> #[trigger] weights[i] < weights[k] || (weights[i] == weights[k]
            && pixels[k].number() <= pixels[i].number())
}

/// Whatever the order of the list, one pixel only is the heaviest.
pub proof fn heaviest_is_unique(pixels: Seq<Pixel>, weights: Seq<u64>, j: int, k: int)
    requires
        weights.len() == pixels.len(),
        is_heaviest(pixels, weights, j),
        is_heaviest(pixels, weights, k),
    ensures
        pixels[j] == pixels[k],
{
    assert(weights[j] == weights[k]);
    pixel_number_is_unique(pixels[j], pixels[k]);
}

/// Where a list holds just the pixels of a cell, and their weights order as their votes do, the heaviest
/// is the winner by vote.
pub proof fn heaviest_by_votes_wins(
    cell: Seq<Pixel>,
    pixels: Seq<Pixel>,
    weights: Seq<u64>,
    k: int,
)
    requires
        forall|p: Pixel| pixels.contains(p) <==> #[trigger] cell.contains(p),
        forall|i: int, j: int|
            #![trigger weights[i], weights[j]]
            0 <= i < pixels.len() && 0 <= j < pixels.len() ==> (weights[i] < weights[j] <==> votes(
                cell,
                pixels[i],
            ) < votes(cell, pixels[j])),
        is_heaviest(pixels, weights, k),
    ensures
        is_winner(cell, pixels[k]),
{
    let p = pixels[k];
    assert(pixels.contains(p));
    assert(cell.contains(p));
    assert forall|q: Pixel| cell.contains(q) implies #[trigger] votes(cell, q) < votes(cell, p) || (
    votes(cell, q) == votes(cell, p) && p.number() <= q.number()) by {
        assert(pixels.contains(q));
        let i = choose|i: int| 0 <= i < pixels.len() && pixels[i] == q;
        assert(weights[i] < weights[k] || (weights[i] == weights[k] && p.number() <= q.number()));
        assert(weights[i] < weights[k] <==> votes(cell, pixels[i]) < votes(cell, pixels[k]));
        assert(weights[k] < weights[i] <==> votes(cell, pixels[k]) < votes(cell, pixels[i]));
    }
}

/// Finds the heaviest pixel of a list; of several, the one with the lowest number.
pub fn find_heaviest(pixels: &Vec<Pixel>, weights: &Vec<u64>) -> (heaviest: Pixel)
    requires
        weights@.len() == pixels@.len(),
    ensures
        if pixels@.len() == 0 {
            heaviest == clear()
        } else {
            exists|k: int|
                is_heaviest(pixels@, weights@, k) && heaviest == #[trigger] pixels@[k]
        },
{
    if pixels.len() == 0 {
        return clear_pixel();
    }
    let mut best: usize = 0;
    let mut i: usize = 1;
    while i < pixels.len()
        invariant
            best < i <= pixels@.len(),
            weights@.len() == pixels@.len(),
            forall|k: int|
                0 <= k < i ==> #[trigger] weights@[k] < weights@[best as int] || (weights@[k]
                    == weights@[best as int] && pixels@[best as int].number()
                    <= pixels@[k].number()),
        decreases pixels.len() - i,
    {
        if weights[i] > weights[best] || (weights[i] == weights[best] && pixels[i].to_number()
            < pixels[best].to_number()) {
            best = i;
        }
        i += 1;
    }
    proof {
        assert(is_heaviest(pixels@, weights@, best as int));
        assert(pixels@[best as int] == pixels@[best as int]);
    }
    pixels[best]
}

/// The mode needs fractions, so that its pixels are worked out beforehand.
pub open spec fn is_worked_out(mode: ResampleMode) -> bool {
    mode == ResampleMode::Mean || mode == ResampleMode::EdgeAware || mode
        == ResampleMode::PaletteAware
}

/// The pixel `p` is what a cell is painted with.
pub open spec fn shows(image: Image, cell: Cell, mode: ResampleMode, given: Pixel, p: Pixel) -> bool {
    if cell.is_empty() {
        p == clear()
    } else if is_worked_out(mode) {
        p == given
    } else if mode == ResampleMode::Center && cell.middle(image).a != 0 {
        p == cell.middle(image)
    } else {
        is_winner(cell.pixels(image), p)
    }
}

/// A cell is painted in one way only.
pub proof fn shown_pixel_is_unique(
    image: Image,
    cell: Cell,
    mode: ResampleMode,
    given: Pixel,
    p: Pixel,
    q: Pixel,
)
    requires
        shows(image, cell, mode, given, p),
        shows(image, cell, mode, given, q),
    ensures
        p == q,
{
    if is_winner(cell.pixels(image), p) && is_winner(cell.pixels(image), q) {
        winner_is_unique(cell.pixels(image), p, q);
    }
}

/// A cell in which all pixels are the same is painted with that pixel by vote and by its middle.
pub proof fn plain_cell_keeps_its_pixel(
    image: Image,
    cell: Cell,
    mode: ResampleMode,
    given: Pixel,
    p: Pixel,
)
    requires
        !cell.is_empty(),
        !is_worked_out(mode),
        forall|x: int, y: int|
            cell.left <= x < cell.right && cell.top <= y < cell.bottom ==> #[trigger] image.at(x, y)
                == p,
    ensures
        shows(image, cell, mode, given, p),
{
    let pixels = cell.pixels(image);
    let n = cell.columns();
    assert(0 < n * cell.rows()) by (nonlinear_arith)
        requires
            0 < n,
            0 < cell.rows(),
    ;
    assert forall|k: int| 0 <= k < pixels.len() implies #[trigger] pixels[k] == p by {
        assert(0 <= k % n < n && 0 <= k / n < cell.rows()) by (nonlinear_arith)
            requires
                0 <= k < n * cell.rows(),
                0 < n,
        ;
        assert(pixels[k] == image.at(cell.left + k % n, cell.top + k / n));
    }
    assert(image.at((cell.left + cell.right - 1) / 2, (cell.top + cell.bottom - 1) / 2) == p);
    assert(pixels[0] == p);
    assert(pixels.contains(p));
}

/// The image `out` has one pixel for each cell between the cuts, painted as the mode asks.
pub open spec fn is_resampled(
    image: Image,
    cols: Seq<usize>,
    rows: Seq<usize>,
    mode: ResampleMode,
    given: Seq<Pixel>,
    out: Image,
) -> bool {
    &&& out.wf()
    &&& out.width == cols.len() - 1
    &&& out.height == rows.len() - 1
    &&& forall|i: int, j: int|
        0 <= i < out.width && 0 <= j < out.height ==> shows(
            image,
            cell(image, cols, rows, i, j),
            mode,
            given[j * out.width + i],
            #[trigger] out.at(i, j),
        )
}

/// The image `big` is the image `small` with each pixel repeated as a square of `n` by `n`.
pub open spec fn is_enlarged(small: Image, n: int, big: Image) -> bool {
    &&& n > 0
    &&& big.width == small.width * n
    &&& big.height == small.height * n
    &&& forall|x: int, y: int|
        0 <= x < big.width && 0 <= y < big.height ==> #[trigger] big.at(x, y) == small.at(
            x / n,
            y / n,
        )
}

/// The cuts are `n` apart and make so many cells.
pub open spec fn are_even(cuts: Seq<usize>, cells: int, n: int) -> bool {
    &&& cuts.len() == cells + 1
    &&& forall|i: int| 0 <= i < cuts.len() ==> #[trigger] cuts[i] == i * n
}

/// A cell of the true grid of an enlarged image shows one pixel of the small image.
proof fn lemma_true_cell(
    small: Image,
    n: int,
    big: Image,
    cols: Seq<usize>,
    rows: Seq<usize>,
    i: int,
    j: int,
)
    requires
        is_enlarged(small, n, big),
        are_even(cols, small.width as int, n),
        are_even(rows, small.height as int, n),
        0 <= i < small.width,
        0 <= j < small.height,
    ensures
        !cell(big, cols, rows, i, j).is_empty(),
        forall|x: int, y: int|
            ({
                let c = cell(big, cols, rows, i, j);
                c.left <= x < c.right && c.top <= y < c.bottom ==> #[trigger] big.at(x, y)
                    == small.at(i, j)
            }),
{
    let c = cell(big, cols, rows, i, j);
    let (w, h) = (small.width as int, small.height as int);
    assert(cols[i] == i * n && cols[i + 1] == (i + 1) * n);
    assert(rows[j] == j * n && rows[j + 1] == (j + 1) * n);
    assert(0 <= i * n < w * n && (i + 1) * n <= w * n && (i + 1) * n == i * n + n) by (nonlinear_arith)
        requires
            0 <= i < w,
            n > 0,
    ;
    assert(0 <= j * n < h * n && (j + 1) * n <= h * n && (j + 1) * n == j * n + n) by (nonlinear_arith)
        requires
            0 <= j < h,
            n > 0,
    ;
    assert(c.left == i * n && c.right == i * n + n);
    assert(c.top == j * n && c.bottom == j * n + n);
    assert forall|x: int, y: int|
        c.left <= x < c.right && c.top <= y < c.bottom implies #[trigger] big.at(x, y) == small.at(
        i,
        j,
    ) by {
        lemma_fundamental_div_mod_converse(x, n, i, x - i * n);
        lemma_fundamental_div_mod_converse(y, n, j, y - j * n);
    }
}

/// Painting on the true grid of an enlarged image gives the small image back: by vote, by the middle of
/// cells, and in every mode for which the pixels of the small image are worked out.
pub proof fn true_grid_undoes_enlarging(
    small: Image,
    n: int,
    big: Image,
    cols: Seq<usize>,
    rows: Seq<usize>,
    mode: ResampleMode,
    given: Seq<Pixel>,
    out: Image,
)
    requires
        small.wf(),
        is_enlarged(small, n, big),
        are_even(cols, small.width as int, n),
        are_even(rows, small.height as int, n),
        is_worked_out(mode) ==> given == small.pixels@,
        is_resampled(big, cols, rows, mode, given, out),
    ensures
        out.same(small),
{
    let w = small.width as int;
    assert forall|k: int| 0 <= k < out.pixels@.len() implies out.pixels@[k] == small.pixels@[k] by {
        let (i, j) = (k % w, k / w);
        assert(w > 0) by (nonlinear_arith)
            requires
                0 <= k < w * small.height,
                0 <= w,
        ;
        assert(0 <= i < w && 0 <= j < small.height && j * w + i == k) by (nonlinear_arith)
            requires
                0 <= k < w * small.height,
                0 < w,
                i == k % w,
                j == k / w,
        ;
        let c = cell(big, cols, rows, i, j);
        let p = small.at(i, j);
        lemma_true_cell(small, n, big, cols, rows, i, j);
        assert(shows(big, c, mode, given[k], out.at(i, j)));
        if !is_worked_out(mode) {
            plain_cell_keeps_its_pixel(big, c, mode, given[k], p);
            shown_pixel_is_unique(big, c, mode, given[k], p, out.at(i, j));
        }
    }
    assert(out.pixels@ =~= small.pixels@);
}

/// A grid of the size asked for gives an image of that size.
pub proof fn asked_grid_gives_asked_size(
    image: Image,
    columns: usize,
    rows: usize,
    levels_x: Seq<u64>,
    levels_y: Seq<u64>,
    guides_x: Seq<Guide>,
    guides_y: Seq<Guide>,
    threshold_x: u64,
    threshold_y: u64,
    mode: ResampleMode,
    given: Seq<Pixel>,
    out: Image,
)
    requires
        guides_x.len() == columns - 1,
        guides_y.len() == rows - 1,
        is_resampled(
            image,
            divided(levels_x, image.width as usize, columns, guides_x, threshold_x),
            divided(levels_y, image.height as usize, rows, guides_y, threshold_y),
            mode,
            given,
            out,
        ),
    ensures
        out.width == columns,
        out.height == rows,
{
    divided_has_its_cells(levels_x, image.width as usize, columns, guides_x, threshold_x);
    divided_has_its_cells(levels_y, image.height as usize, rows, guides_y, threshold_y);
}

/// Where all pixels of a list are the same, that one is the heaviest, whatever the weights.
pub proof fn only_pixel_is_heaviest(pixels: Seq<Pixel>, weights: Seq<u64>, k: int, p: Pixel)
    requires
        is_heaviest(pixels, weights, k),
        forall|i: int| 0 <= i < pixels.len() ==> #[trigger] pixels[i] == p,
    ensures
        pixels[k] == p,
{
}

/// Paints an image with one pixel for each cell between the cuts. Cells without pixels stay clear.
/// For the modes that need fractions, `given` holds the pixels, row by row.
pub fn resample(
    image: &Image,
    cols: &Vec<usize>,
    rows: &Vec<usize>,
    mode: ResampleMode,
    given: &Vec<Pixel>,
) -> (painted: Result<Image, PixelSnapperError>)
    requires
        image.wf(),
        cols@.len() <= u32::MAX,
        rows@.len() <= u32::MAX,
        is_worked_out(mode) && cols@.len() >= 2 && rows@.len() >= 2 ==> given@.len() == (
        cols@.len() - 1) * (rows@.len() - 1),
    ensures
        painted is Ok <==> cols@.len() >= 2 && rows@.len() >= 2,
        painted matches Err(e) ==> e.is_processing_error(
            "Insufficient grid cuts for resampling"@,
        ),
        painted matches Ok(out) ==> is_resampled(*image, cols@, rows@, mode, given@, out),
{
    if cols.len() < 2 || rows.len() < 2 {
        return Err(processing_error("Insufficient grid cuts for resampling"));
    }
    let width: usize = cols.len() - 1;
    let height: usize = rows.len() - 1;
    let mut pixels: Vec<Pixel> = Vec::new();
    let mut j: usize = 0;
    while j < height
        invariant
            image.wf(),
            1 <= width == cols@.len() - 1,
            1 <= height == rows@.len() - 1,
            is_worked_out(mode) ==> given@.len() == width * height,
            j <= height,
            pixels@.len() == j * width,
            forall|i: int, r: int|
                0 <= i < width && 0 <= r < j ==> shows(
                    *image,
                    cell(*image, cols@, rows@, i, r),
                    mode,
                    given@[r * width + i],
                    #[trigger] pixels@[r * width + i],
                ),
        decreases height - j,
    {
        let mut i: usize = 0;
        proof {
            assert forall|c: int, r: int|
                0 <= c < width && 0 <= r && r * width + c < j * width implies shows(
                *image,
                cell(*image, cols@, rows@, c, r),
                mode,
                given@[r * width + c],
                #[trigger] pixels@[r * width + c],
            ) by {
                assert(r < j) by (nonlinear_arith)
                    requires
                        r * width + c < j * width,
                        0 <= c,
                        0 < width,
                ;
            }
        }
        while i < width
            invariant
                image.wf(),
                1 <= width == cols@.len() - 1,
                1 <= height == rows@.len() - 1,
                is_worked_out(mode) ==> given@.len() == width * height,
                j < height,
                i <= width,
                pixels@.len() == j * width + i,
                forall|c: int, r: int|
                    0 <= c < width && 0 <= r && r * width + c < j * width + i ==> shows(
                        *image,
                        cell(*image, cols@, rows@, c, r),
                        mode,
                        given@[r * width + c],
                        #[trigger] pixels@[r * width + c],
                    ),
            decreases width - i,
        {
            let cell: Cell = cell_between(image, cols, rows, i, j);
            let count: usize = pixels.len();
            proof {
                place_in_rows(i as int, j as int, width as int, height as int);
            }
            let pixel: Pixel = if cell.has_no_pixels() {
                clear_pixel()
            } else {
                match mode {
                    ResampleMode::Majority => resample_majority(image, &cell),
                    ResampleMode::Center => resample_center(image, &cell),
                    ResampleMode::Mean => given[count],
                    ResampleMode::EdgeAware => given[count],
                    ResampleMode::PaletteAware => given[count],
                }
            };
            let ghost before = pixels@;
            pixels.push(pixel);
            proof {
                assert forall|c: int, r: int|
                    0 <= c < width && 0 <= r && r * width + c < j * width + i + 1 implies shows(
                    *image,
                    crate::resample::cell(*image, cols@, rows@, c, r),
                    mode,
                    given@[r * width + c],
                    #[trigger] pixels@[r * width + c],
                ) by {
                    if r * width + c < j * width + i {
                        assert(0 <= r * width) by (nonlinear_arith)
                            requires
                                0 <= r,
                        ;
                        assert(pixels@[r * width + c] == before[r * width + c]);
                    } else {
                        assert(r == j && c == i) by (nonlinear_arith)
                            requires
                                r * width + c == j * width + i,
                                0 <= c < width,
                                0 <= i < width,
                        ;
                    }
                }
            }
            i += 1;
        }
        proof {
            assert((j + 1) * width == j * width + width) by (nonlinear_arith);
            assert forall|c: int, r: int| 0 <= c < width && 0 <= r < j + 1 implies shows(
                *image,
                cell(*image, cols@, rows@, c, r),
                mode,
                given@[r * width + c],
                #[trigger] pixels@[r * width + c],
            ) by {
                place_in_rows(c, r, width as int, j + 1);
                assert(width * (j + 1) == j * width + width) by (nonlinear_arith);
            }
        }
        j += 1;
    }
    proof {
        assert(height * width == width * height) by (nonlinear_arith);
    }
    Ok(Image { width: width as u32, height: height as u32, pixels })
}

/// The pixel in the middle of a cell has as many columns of the cell to its left as to its right, or one
/// less, and as many rows above as below, or one less.
pub proof fn middle_is_in_the_middle(image: Image, cell: Cell, x: int, y: int)
    requires
        !cell.is_empty(),
        0 <= (cell.right - 1 - x) - (x - cell.left) <= 1,
        0 <= (cell.bottom - 1 - y) - (y - cell.top) <= 1,
    ensures
        cell.middle(image) == image.at(x, y),
        cell.left <= x < cell.right,
        cell.top <= y < cell.bottom,
{
    assert(x == (cell.left + cell.right - 1) / 2);
    assert(y == (cell.top + cell.bottom - 1) / 2);
}

/// There is such a place in the middle of every cell that has pixels.
pub proof fn every_cell_has_a_middle(cell: Cell)
    requires
        !cell.is_empty(),
    ensures
        exists|x: int, y: int|
            0 <= (cell.right - 1 - x) - (#[trigger] (x - cell.left)) <= 1 && 0 <= (cell.bottom - 1 - y)
                - (#[trigger] (y - cell.top)) <= 1,
{
    let x = (cell.left + cell.right - 1) / 2;
    let y = (cell.top + cell.bottom - 1) / 2;
    assert(0 <= (cell.right - 1 - x) - (x - cell.left) <= 1);
    assert(0 <= (cell.bottom - 1 - y) - (y - cell.top) <= 1);
}

/// Exchanging the columns and rows of an image and of a cell leaves the pixel in the middle the same.
pub proof fn middle_of_turned_cell(image: Image, turned: Image, cell: Cell)
    requires
        !cell.is_empty(),
        forall|x: int, y: int|
            cell.left <= x < cell.right && cell.top <= y < cell.bottom ==> #[trigger] image.at(x, y)
                == turned.at(y, x),
    ensures
        (Cell {
            left: cell.top,
            right: cell.bottom,
            top: cell.left,
            bottom: cell.right,
        }).middle(turned) == cell.middle(image),
{
    let x = (cell.left + cell.right - 1) / 2;
    let y = (cell.top + cell.bottom - 1) / 2;
    assert(image.at(x, y) == turned.at(y, x));
}

/// How many pixels of a list a filter for one pixel keeps.
pub open spec fn times(pixels: Seq<Pixel>, p: Pixel) -> nat {
    pixels.filter(|q: Pixel| q == p).len()
}

/// A pixel has a vote for each time that it is there.
pub proof fn votes_count_pixels(pixels: Seq<Pixel>, p: Pixel)
    ensures
        votes(pixels, p) == times(pixels, p),
    decreases pixels.len(),
{
    reveal(Seq::filter);
    if pixels.len() > 0 {
        votes_count_pixels(pixels.drop_last(), p);
    }
}

/// The first pixel comes before the second, or is the same, in order of red, green, blue and opacity.
pub open spec fn comes_first(p: Pixel, q: Pixel) -> bool {
    ||| p.r < q.r
    ||| p.r == q.r && p.g < q.g
    ||| p.r == q.r && p.g == q.g && p.b < q.b
    ||| p.r == q.r && p.g == q.g && p.b == q.b && p.a <= q.a
}

/// The pixel is in the list. No other is there more often, and of those that are there as often it comes
/// first.
pub open spec fn is_most_frequent(pixels: Seq<Pixel>, p: Pixel) -> bool {
    &&& pixels.contains(p)
    &&& forall|q: Pixel| #[trigger]
        pixels.contains(q) ==> times(pixels, q) < times(pixels, p) || (times(pixels, q) == times(
            pixels,
            p,
        ) && comes_first(p, q))
}

/// The winner is the most frequent pixel, and of several the first.
pub proof fn winner_is_most_frequent(pixels: Seq<Pixel>, p: Pixel)
    ensures
        is_winner(pixels, p) <==> is_most_frequent(pixels, p),
{
    votes_count_pixels(pixels, p);
    assert forall|q: Pixel| true implies #[trigger] votes(pixels, q) == times(pixels, q) && (
    p.number() <= q.number() <==> comes_first(p, q)) by {
        votes_count_pixels(pixels, q);
        pixels_are_numbered_in_order(p, q);
        pixels_are_numbered_in_order(q, p);
    }
    if is_winner(pixels, p) {
        assert forall|q: Pixel| #[trigger] pixels.contains(q) implies times(pixels, q) < times(
            pixels,
            p,
        ) || (times(pixels, q) == times(pixels, p) && comes_first(p, q)) by {
            assert(votes(pixels, q) == times(pixels, q));
        }
    }
}

/// The heaviest pixel has the largest weight, and of those with that weight it comes first.
pub proof fn heaviest_weighs_most(pixels: Seq<Pixel>, weights: Seq<u64>, k: int, i: int)
    requires
        is_heaviest(pixels, weights, k),
        0 <= i < pixels.len(),
    ensures
        0 <= k < pixels.len(),
        weights[i] < weights[k] || (weights[i] == weights[k] && comes_first(pixels[k], pixels[i])),
{
    assert(weights[i] < weights[k] || (weights[i] == weights[k] && pixels[k].number()
        <= pixels[i].number()));
    pixels_are_numbered_in_order(pixels[i], pixels[k]);
    pixels_are_numbered_in_order(pixels[k], pixels[i]);
    if pixels[i].number() == pixels[k].number() {
        pixel_number_is_unique(pixels[i], pixels[k]);
    }
}

/// Next to a place is the one before or after it, or the place itself where there is none.
pub proof fn neighbours_are_held(place: int, last: int)
    requires
        0 <= place <= last,
    ensures
        place > 0 ==> held(place - 1, last) == place - 1,
        place == 0 ==> held(place - 1, last) == place,
        place < last ==> held(place + 1, last) == place + 1,
        place == last ==> held(place + 1, last) == place,
{
}

/// The pixels of a cell are those of its columns and rows, each once, row by row.
pub proof fn cell_holds_its_pixels(image: Image, cell: Cell, x: int, y: int)
    requires
        cell.left <= x < cell.right,
        cell.top <= y < cell.bottom,
    ensures
        cell.pixels(image).len() == (cell.right - cell.left) * (cell.bottom - cell.top),
        ({
            let k = (y - cell.top) * (cell.right - cell.left) + (x - cell.left);
            0 <= k < cell.pixels(image).len() && cell.pixels(image)[k] == image.at(x, y)
        }),
{
    let (w, h) = (cell.columns(), cell.rows());
    let (a, b) = (x - cell.left, y - cell.top);
    let k = b * w + a;
    assert(0 <= k < w * h) by (nonlinear_arith)
        requires
            k == b * w + a,
            0 <= a < w,
            0 <= b < h,
    ;
    lemma_fundamental_div_mod_converse(k, w, b, a);
}

/// What a pixel of the painted image shows, in terms of the pixels of the image between the cuts, which are
/// moved to its sides where they lie beyond. The painted image has one column less than there are cuts
/// across, and one row less than there are cuts down. A cell without pixels is clear. By vote, a cell shows
/// the pixel that is most often in it, and of several the one that comes first. By its middle, it shows the
/// pixel at `x` and `y` where those lie in the middle both ways, or that by vote where this one cannot be
/// seen. In any other mode it shows the pixel that was worked out for it.
pub proof fn painted_cells_show_their_pixels(
    image: Image,
    cols: Seq<usize>,
    rows: Seq<usize>,
    mode: ResampleMode,
    given: Seq<Pixel>,
    out: Image,
    i: int,
    j: int,
    left: int,
    right: int,
    top: int,
    bottom: int,
    list: Seq<Pixel>,
    x: int,
    y: int,
)
    requires
        is_resampled(image, cols, rows, mode, given, out),
        0 <= i < cols.len() - 1,
        0 <= j < rows.len() - 1,
        left == if cols[i] < image.width { cols[i] as int } else { image.width as int },
        right == if cols[i + 1] < image.width { cols[i + 1] as int } else { image.width as int },
        top == if rows[j] < image.height { rows[j] as int } else { image.height as int },
        bottom == if rows[j + 1] < image.height { rows[j + 1] as int } else { image.height as int },
        left < right && top < bottom ==> list == Seq::new(
            ((right - left) * (bottom - top)) as nat,
            |k: int|
                image.pixels@[(top + k / (right - left)) * image.width + (left + k % (right - left))],
        ),
    ensures
        out.width == cols.len() - 1,
        out.height == rows.len() - 1,
        out.pixels@.len() == (cols.len() - 1) * (rows.len() - 1),
        ({
            let place = j * (cols.len() - 1) + i;
            let p = out.pixels@[place];
            let middle = 0 <= (right - 1 - x) - (x - left) <= 1 && 0 <= (bottom - 1 - y) - (y - top)
                <= 1;
            let m = image.pixels@[y * image.width + x];
            &&& right <= left || bottom <= top ==> p.r == 0 && p.g == 0 && p.b == 0 && p.a == 0
            &&& left < right && top < bottom && mode == ResampleMode::Majority ==> is_most_frequent(
                list,
                p,
            )
            &&& left < right && top < bottom && mode == ResampleMode::Center && middle ==> (if m.a
                != 0 {
                p == m
            } else {
                is_most_frequent(list, p)
            })
            &&& left < right && top < bottom && (mode == ResampleMode::Mean || mode
                == ResampleMode::EdgeAware || mode == ResampleMode::PaletteAware) ==> p
                == given[place]
        }),
{
    let c = cell(image, cols, rows, i, j);
    let p = out.at(i, j);
    assert(shows(image, c, mode, given[j * out.width + i], p));
    winner_is_most_frequent(c.pixels(image), p);
    assert(c.left == left && c.right == right && c.top == top && c.bottom == bottom);
    if !c.is_empty() {
        assert(c.pixels(image) =~= list);
        if 0 <= (right - 1 - x) - (x - left) <= 1 && 0 <= (bottom - 1 - y) - (y - top) <= 1 {
            middle_is_in_the_middle(image, c, x, y);
        }
    }
}

} // verus!
