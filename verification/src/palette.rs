//! Palettes: reading them, and painting images with nothing but their colours.

use vstd::prelude::*;
use crate::error::{invalid_input, PixelSnapperError};
use crate::order::{first_lowest, first_lowest_is_lowest, increasing, increasing_unique, same_values, sorted_set};
use crate::picture::{
    color_number_is_unique, colors_are_numbered_in_order, Color, Image, Pixel,
};
use crate::text::{
    contents, decimal, parse_decimal, pieces, split, to_chars, trim, trimmed, trimmed_keeps_tight,
    Separator,
};

verus! {

/// The character is a hexadecimal digit.
pub open spec fn is_hex(c: char) -> bool {
    '0' <= c <= '9' || 'a' <= c <= 'f' || 'A' <= c <= 'F'
}

/// The value of a hexadecimal digit.
pub open spec fn hex_value(c: char) -> int {
    if '0' <= c <= '9' {
        c as u32 - '0' as u32
    } else if 'a' <= c <= 'f' {
        c as u32 - 'a' as u32 + 10
    } else {
        c as u32 - 'A' as u32 + 10
    }
}

/// The text without the number signs that it starts with.
pub open spec fn without_signs(s: Seq<char>) -> Seq<char>
    decreases s.len(),
{
    if s.len() > 0 && s[0] == '#' {
        without_signs(s.drop_first())
    } else {
        s
    }
}

/// The colour that six hexadecimal digits write.
pub open spec fn six_digits(t: Seq<char>) -> Color {
    Color {
        r: (16 * hex_value(t[0]) + hex_value(t[1])) as u8,
        g: (16 * hex_value(t[2]) + hex_value(t[3])) as u8,
        b: (16 * hex_value(t[4]) + hex_value(t[5])) as u8,
    }
}

/// The colour that a text writes: six hexadecimal digits after any number signs, with white space
/// around them or not.
pub open spec fn hex_color(s: Seq<char>) -> Option<Color> {
    let t = without_signs(trimmed(s));
    if t.len() == 6 && (forall|i: int| 0 <= i < t.len() ==> is_hex(#[trigger] t[i])) {
        Some(six_digits(t))
    } else {
        None
    }
}

/// Reads a hexadecimal digit.
fn hex_digit(c: char) -> (value: Option<u8>)
    ensures
        value is Some <==> is_hex(c),
        value matches Some(v) ==> v == hex_value(c) && v < 16,
{
    if '0' <= c && c <= '9' {
        Some(c as u8 - 48)
    } else if 'a' <= c && c <= 'f' {
        Some(c as u8 - 87)
    } else if 'A' <= c && c <= 'F' {
        Some(c as u8 - 55)
    } else {
        None
    }
}

/// Reads a colour that hexadecimal digits write.
pub fn parse_hex_color(value: &Vec<char>) -> (color: Option<Color>)
    ensures
        color == hex_color(value@),
{
    let text: Vec<char> = trim(value);
    let mut from: usize = 0;
    proof {
        assert(text@.skip(0) =~= text@);
    }
    while from < text.len() && text[from] == '#'
        invariant
            from <= text@.len(),
            without_signs(text@.skip(from as int)) == without_signs(text@),
        decreases text.len() - from,
    {
        proof {
            assert(text@.skip(from as int).drop_first() =~= text@.skip(from + 1));
        }
        from += 1;
    }
    let ghost t = text@.skip(from as int);
    proof {
        assert(without_signs(text@) == t);
    }
    let end: usize = text.len();
    if end - from != 6 {
        return None;
    }
    let mut values: Vec<u8> = Vec::new();
    let mut i: usize = 0;
    while i < 6
        invariant
            i <= 6,
            from + 6 == end,
            end == text@.len(),
            t == text@.skip(from as int),
            t == without_signs(trimmed(value@)),
            values@.len() == i,
            forall|k: int|
                0 <= k < i ==> is_hex(#[trigger] t[k]) && values@[k] == hex_value(t[k]) && values@[k]
                    < 16,
        decreases 6 - i,
    {
        let c: char = text[from + i];
        proof {
            assert(c == t[i as int]);
        }
        match hex_digit(c) {
            Some(v) => values.push(v),
            None => return None,
        }
        i += 1;
    }
    proof {
        assert(is_hex(t[0]) && is_hex(t[1]) && is_hex(t[2]) && is_hex(t[3]) && is_hex(t[4])
            && is_hex(t[5]));
    }
    Some(
        Color {
            r: 16 * values[0] + values[1],
            g: 16 * values[2] + values[3],
            b: 16 * values[4] + values[5],
        },
    )
}

/// The colour that three neighbouring fields write in decimal.
pub open spec fn field_color(fields: Seq<Seq<char>>, at: int) -> Option<Color> {
    if at + 3 > fields.len() {
        None
    } else {
        match (
            decimal(trimmed(fields[at]), 255),
            decimal(trimmed(fields[at + 1]), 255),
            decimal(trimmed(fields[at + 2]), 255),
        ) {
            (Some(r), Some(g), Some(b)) => Some(Color { r: r as u8, g: g as u8, b: b as u8 }),
            _ => None,
        }
    }
}

/// The colours among tokens, in order.
pub open spec fn token_colors(tokens: Seq<Seq<char>>) -> Seq<Color>
    decreases tokens.len(),
{
    if tokens.len() == 0 {
        seq![]
    } else {
        let before = token_colors(tokens.drop_last());
        match hex_color(tokens.last()) {
            Some(color) => before.push(color),
            None => before,
        }
    }
}

/// The colours of a line. A line of at least six fields holds one colour in fields four to six; one of
/// at least three fields in the first three; any other line holds hexadecimal colours.
pub open spec fn line_colors(line: Seq<char>) -> Seq<Color> {
    let fields = pieces(line, Separator::Comma);
    match (field_color(fields, 3), field_color(fields, 0)) {
        (Some(color), _) => seq![color],
        (None, Some(color)) => seq![color],
        (None, None) => token_colors(pieces(line, Separator::Loose)),
    }
}

/// The colours of all lines, in order.
pub open spec fn lines_colors(lines: Seq<Seq<char>>) -> Seq<Color>
    decreases lines.len(),
{
    if lines.len() == 0 {
        seq![]
    } else {
        lines_colors(lines.drop_last()) + line_colors(trimmed(lines.last()))
    }
}

/// The colours that a text lists.
pub open spec fn listed_colors(text: Seq<char>) -> Seq<Color> {
    lines_colors(pieces(text, Separator::LineEnd))
}

/// The colours rise, so that none occurs twice.
pub open spec fn rising(palette: Seq<Color>) -> bool {
    forall|i: int, j: int|
        0 <= i < j < palette.len() ==> (#[trigger] palette[i]).number() < (
        #[trigger] palette[j]).number()
}

/// The palette holds these colours and no others, in rising order.
pub open spec fn is_palette_of(palette: Seq<Color>, colors: Seq<Color>) -> bool {
    &&& rising(palette)
    &&& forall|c: Color| palette.contains(c) <==> colors.contains(c)
}

/// There is one palette of any colours.
pub proof fn palette_is_unique(a: Seq<Color>, b: Seq<Color>, colors: Seq<Color>)
    requires
        is_palette_of(a, colors),
        is_palette_of(b, colors),
    ensures
        a == b,
{
    let m = a.map_values(|c: Color| c.number() as usize);
    let n = b.map_values(|c: Color| c.number() as usize);
    assert forall|v: usize| m.contains(v) <==> n.contains(v) by {
        if m.contains(v) {
            let k = choose|k: int| 0 <= k < m.len() && m[k] == v;
            assert(a.contains(a[k]));
            assert(b.contains(a[k]));
            let l = choose|l: int| 0 <= l < b.len() && b[l] == a[k];
            assert(n[l] == v);
        }
        if n.contains(v) {
            let k = choose|k: int| 0 <= k < n.len() && n[k] == v;
            assert(b.contains(b[k]));
            assert(a.contains(b[k]));
            let l = choose|l: int| 0 <= l < a.len() && a[l] == b[k];
            assert(m[l] == v);
        }
    }
    assert(increasing(m));
    assert(increasing(n));
    increasing_unique(m, n);
    assert(a.len() == m.len() && b.len() == n.len());
    assert forall|i: int| 0 <= i < a.len() implies a[i] == b[i] by {
        assert(m[i] == n[i]);
        color_number_is_unique(a[i], b[i]);
    }
    assert(a =~= b);
}

/// Reads the colour that three neighbouring fields write.
fn parse_field_color(fields: &Vec<Vec<char>>, at: usize) -> (color: Option<Color>)
    requires
        at <= 3,
    ensures
        color == field_color(contents(fields@), at as int),
{
    if fields.len() < at + 3 {
        return None;
    }
    let ghost views = contents(fields@);
    proof {
        assert(views[at as int] == fields@[at as int]@);
        assert(views[at + 1] == fields@[at + 1]@);
        assert(views[at + 2] == fields@[at + 2]@);
    }
    match (
        parse_decimal(&trim(&fields[at]), 255),
        parse_decimal(&trim(&fields[at + 1]), 255),
        parse_decimal(&trim(&fields[at + 2]), 255),
    ) {
        (Some(r), Some(g), Some(b)) => Some(Color { r: r as u8, g: g as u8, b: b as u8 }),
        _ => None,
    }
}

/// Adds the colours of a line to those before it.
fn read_line(line: &Vec<char>, colors: &mut Vec<Color>)
    ensures
        final(colors)@ == old(colors)@ + line_colors(line@),
{
    let fields: Vec<Vec<char>> = split(line, Separator::Comma);
    let ghost start = colors@;
    if let Some(color) = parse_field_color(&fields, 3) {
        colors.push(color);
        proof {
            assert(colors@ =~= start + seq![color]);
        }
        return ;
    }
    if let Some(color) = parse_field_color(&fields, 0) {
        colors.push(color);
        proof {
            assert(colors@ =~= start + seq![color]);
        }
        return ;
    }
    let tokens: Vec<Vec<char>> = split(line, Separator::Loose);
    let ghost views = contents(tokens@);
    let mut i: usize = 0;
    proof {
        assert(views.take(0) =~= Seq::<Seq<char>>::empty());
        assert(colors@ =~= start + token_colors(views.take(0)));
    }
    while i < tokens.len()
        invariant
            i <= tokens@.len(),
            views == contents(tokens@),
            colors@ == start + token_colors(views.take(i as int)),
        decreases tokens.len() - i,
    {
        proof {
            assert(views.take(i + 1).drop_last() =~= views.take(i as int));
            assert(views.take(i + 1).last() == tokens@[i as int]@);
        }
        let ghost before = colors@;
        if let Some(color) = parse_hex_color(&tokens[i]) {
            colors.push(color);
            proof {
                assert(colors@ =~= start + token_colors(views.take(i + 1)));
            }
        }
        i += 1;
    }
    proof {
        assert(views.take(i as int) =~= views);
    }
}

/// Arranges colours in rising order and drops repetitions.
fn arrange(colors: &Vec<Color>) -> (palette: Vec<Color>)
    ensures
        is_palette_of(palette@, colors@),
        palette@.len() == 0 <==> colors@.len() == 0,
{
    let mut numbers: Vec<usize> = Vec::new();
    let mut i: usize = 0;
    while i < colors.len()
        invariant
            i <= colors@.len(),
            numbers@.len() == i,
            forall|k: int|
                0 <= k < i ==> #[trigger] numbers@[k] == colors@[k].number() && numbers@[k] < 0x100_0000,
        decreases colors.len() - i,
    {
        numbers.push(colors[i].to_number());
        i += 1;
    }
    let set: Vec<usize> = sorted_set(&numbers);
    let mut palette: Vec<Color> = Vec::new();
    let mut j: usize = 0;
    while j < set.len()
        invariant
            j <= set@.len(),
            same_values(set@, numbers@),
            numbers@.len() == colors@.len(),
            forall|k: int|
                0 <= k < numbers@.len() ==> #[trigger] numbers@[k] == colors@[k].number() && numbers@[k]
                    < 0x100_0000,
            palette@.len() == j,
            forall|k: int| 0 <= k < j ==> (#[trigger] palette@[k]).number() == set@[k],
        decreases set.len() - j,
    {
        proof {
            assert(set@.contains(set@[j as int]));
            assert(numbers@.contains(set@[j as int]));
        }
        palette.push(Color::from_number(set[j]));
        j += 1;
    }
    proof {
        assert forall|c: Color| palette@.contains(c) <==> colors@.contains(c) by {
            if palette@.contains(c) {
                let k = choose|k: int| 0 <= k < palette@.len() && palette@[k] == c;
                assert(set@.contains(set@[k]));
                assert(numbers@.contains(set@[k]));
                let l = choose|l: int| 0 <= l < numbers@.len() && numbers@[l] == set@[k];
                color_number_is_unique(colors@[l], c);
                assert(colors@[l] == c);
            }
            if colors@.contains(c) {
                let l = choose|l: int| 0 <= l < colors@.len() && colors@[l] == c;
                assert(numbers@.contains(numbers@[l]));
                assert(set@.contains(numbers@[l]));
                let k = choose|k: int| 0 <= k < set@.len() && set@[k] == numbers@[l];
                color_number_is_unique(palette@[k], c);
                assert(palette@[k] == c);
            }
        }
        if colors@.len() > 0 {
            assert(colors@.contains(colors@[0]));
            assert(palette@.contains(colors@[0]));
        }
        if palette@.len() > 0 {
            assert(palette@.contains(palette@[0]));
            assert(colors@.contains(palette@[0]));
        }
    }
    palette
}

/// Reads a palette: the colours that a text lists, in rising order and each once. A text that lists
/// none is refused.
pub fn parse_palette_colors(value: &str) -> (read: Result<Vec<Color>, PixelSnapperError>)
    ensures
        read is Ok <==> listed_colors(value@).len() > 0,
        match read {
            Ok(palette) => is_palette_of(palette@, listed_colors(value@)) && palette@.len() > 0,
            Err(e) => e.is_invalid_input("palette must contain at least one RGB color"@),
        },
{
    let text: Vec<char> = to_chars(value);
    let lines: Vec<Vec<char>> = split(&text, Separator::LineEnd);
    let ghost views = contents(lines@);
    let mut colors: Vec<Color> = Vec::new();
    let mut i: usize = 0;
    proof {
        assert(views.take(0) =~= Seq::<Seq<char>>::empty());
        assert(colors@ =~= lines_colors(views.take(0)));
    }
    while i < lines.len()
        invariant
            i <= lines@.len(),
            views == contents(lines@),
            colors@ == lines_colors(views.take(i as int)),
        decreases lines.len() - i,
    {
        proof {
            assert(views.take(i + 1).drop_last() =~= views.take(i as int));
            assert(views.take(i + 1).last() == lines@[i as int]@);
        }
        read_line(&trim(&lines[i]), &mut colors);
        i += 1;
    }
    proof {
        assert(views.take(i as int) =~= views);
    }
    let palette: Vec<Color> = arrange(&colors);
    if palette.len() == 0 {
        return Err(invalid_input("palette must contain at least one RGB color"));
    }
    Ok(palette)
}

/// How far apart two colours are, squared.
pub open spec fn distance(a: Color, b: Color) -> int {
    (a.r - b.r) * (a.r - b.r) + (a.g - b.g) * (a.g - b.g) + (a.b - b.b) * (a.b - b.b)
}

/// How far a colour is from each of a palette, squared.
pub open spec fn distances(color: Color, palette: Seq<Color>) -> Seq<u64> {
    palette.map_values(|c: Color| distance(color, c) as u64)
}

/// The colour of a palette that is nearest: the first of them where there are several, and black
/// where the palette is empty.
pub open spec fn nearest(color: Color, palette: Seq<Color>) -> Color {
    if palette.len() == 0 {
        Color { r: 0, g: 0, b: 0 }
    } else {
        palette[first_lowest(distances(color, palette), palette.len() as int)]
    }
}

/// Distances between colours are small, and zero only between equal ones.
pub proof fn distance_bounds(a: Color, b: Color)
    ensures
        0 <= distance(a, b) <= 195075,
        distance(a, b) == 0 <==> a == b,
{
    let r = a.r - b.r;
    let g = a.g - b.g;
    let u = a.b - b.b;
    assert(0 <= r * r <= 65025 && (r * r == 0 <==> r == 0)) by (nonlinear_arith)
        requires
            -255 <= r <= 255,
    ;
    assert(0 <= g * g <= 65025 && (g * g == 0 <==> g == 0)) by (nonlinear_arith)
        requires
            -255 <= g <= 255,
    ;
    assert(0 <= u * u <= 65025 && (u * u == 0 <==> u == 0)) by (nonlinear_arith)
        requires
            -255 <= u <= 255,
    ;
}

/// No colour of the palette is nearer than the nearest.
pub proof fn nearest_is_nearest(color: Color, palette: Seq<Color>)
    requires
        palette.len() > 0,
    ensures
        palette.contains(nearest(color, palette)),
        forall|i: int|
            0 <= i < palette.len() ==> distance(color, nearest(color, palette)) <= distance(
                color,
                #[trigger] palette[i],
            ),
{
    let d = distances(color, palette);
    first_lowest_is_lowest(d, palette.len() as int);
    let best = first_lowest(d, palette.len() as int);
    distance_bounds(color, palette[best]);
    assert forall|i: int| 0 <= i < palette.len() implies distance(color, palette[best])
        <= distance(color, #[trigger] palette[i]) by {
        distance_bounds(color, palette[i]);
        assert(d[best] <= d[i]);
    }
}

/// A colour of the palette is its own nearest.
pub proof fn nearest_of_member(color: Color, palette: Seq<Color>)
    requires
        palette.contains(color),
    ensures
        nearest(color, palette) == color,
{
    nearest_is_nearest(color, palette);
    let k = choose|k: int| 0 <= k < palette.len() && palette[k] == color;
    distance_bounds(color, palette[k]);
    distance_bounds(color, nearest(color, palette));
}

/// How far apart two channels are, squared.
fn square_gap(a: u8, b: u8) -> (square: u64)
    ensures
        square == (a - b) * (a - b),
        square <= 65025,
{
    let gap: u64 = if a < b {
        b as u64 - a as u64
    } else {
        a as u64 - b as u64
    };
    proof {
        let d = a - b;
        assert(gap * gap <= 65025 && gap * gap == d * d) by (nonlinear_arith)
            requires
                gap <= 255,
                gap == d || gap == -d,
        ;
    }
    gap * gap
}

/// How far apart two colours are, squared.
pub fn color_distance(a: Color, b: Color) -> (square: u64)
    ensures
        square == distance(a, b),
        square <= 195075,
{
    square_gap(a.r, b.r) + square_gap(a.g, b.g) + square_gap(a.b, b.b)
}

/// Finds the colour of a palette that is nearest to a colour.
pub fn nearest_palette_color(color: Color, palette: &Vec<Color>) -> (best: Color)
    ensures
        best == nearest(color, palette@),
{
    if palette.len() == 0 {
        return Color { r: 0, g: 0, b: 0 };
    }
    let ghost d = distances(color, palette@);
    let mut best: usize = 0;
    let mut best_distance: u64 = color_distance(color, palette[0]);
    let mut i: usize = 1;
    while i < palette.len()
        invariant
            1 <= i <= palette@.len(),
            d == distances(color, palette@),
            best < i,
            best == first_lowest(d, i as int),
            best_distance == d[best as int],
        decreases palette.len() - i,
    {
        let here: u64 = color_distance(color, palette[i]);
        if here < best_distance {
            best = i;
            best_distance = here;
        }
        i += 1;
    }
    palette[best]
}

/// The pixel painted with the nearest colour of a palette. Its opacity stays, and a pixel that
/// cannot be seen stays as it is.
pub open spec fn mapped(p: Pixel, palette: Seq<Color>) -> Pixel {
    if p.a == 0 {
        p
    } else {
        let c = nearest(p.color(), palette);
        Pixel { r: c.r, g: c.g, b: c.b, a: p.a }
    }
}

/// A pixel that was mapped to a palette is mapped to itself.
pub proof fn mapped_is_idempotent(p: Pixel, palette: Seq<Color>)
    ensures
        mapped(mapped(p, palette), palette) == mapped(p, palette),
{
    if p.a != 0 && palette.len() > 0 {
        nearest_is_nearest(p.color(), palette);
        nearest_of_member(nearest(p.color(), palette), palette);
        assert(mapped(p, palette).color() == nearest(p.color(), palette));
    }
}

/// Paints an image with nothing but the colours of a palette.
pub fn map_image_to_palette(image: &Image, palette: &Vec<Color>) -> (painted: Image)
    ensures
        painted.width == image.width,
        painted.height == image.height,
        painted.pixels@ == image.pixels@.map_values(|p: Pixel| mapped(p, palette@)),
        forall|i: int|
            0 <= i < image.pixels@.len() ==> (#[trigger] painted.pixels@[i]).a == image.pixels@[i].a,
        image.wf() ==> painted.wf(),
{
    let mut pixels: Vec<Pixel> = Vec::new();
    let mut i: usize = 0;
    while i < image.pixels.len()
        invariant
            i <= image.pixels@.len(),
            pixels@.len() == i,
            forall|k: int|
                0 <= k < i ==> #[trigger] pixels@[k] == mapped(image.pixels@[k], palette@),
        decreases image.pixels.len() - i,
    {
        let p: Pixel = image.pixels[i];
        if p.a == 0 {
            pixels.push(p);
        } else {
            let c: Color = nearest_palette_color(p.to_color(), palette);
            pixels.push(Pixel { r: c.r, g: c.g, b: c.b, a: p.a });
        }
        i += 1;
    }
    proof {
        assert(pixels@ =~= image.pixels@.map_values(|p: Pixel| mapped(p, palette@)));
    }
    Image { width: image.width, height: image.height, pixels }
}

/// The painted pixel has the opacity of the pixel. A pixel that cannot be seen stays. Any other gets the
/// first colour of the palette for which the sum of the squares of the three differences is least.
pub proof fn painted_pixel_is_nearest(p: Pixel, palette: Seq<Color>)
    requires
        palette.len() > 0,
    ensures
        mapped(p, palette).a == p.a,
        p.a == 0 ==> mapped(p, palette) == p,
        p.a != 0 ==> exists|k: int|
            0 <= k < palette.len() && {
                let c = #[trigger] palette[k];
                let least = (p.r - c.r) * (p.r - c.r) + (p.g - c.g) * (p.g - c.g) + (p.b - c.b) * (
                p.b - c.b);
                &&& mapped(p, palette).r == c.r
                &&& mapped(p, palette).g == c.g
                &&& mapped(p, palette).b == c.b
                &&& forall|i: int|
                    0 <= i < palette.len() ==> {
                        let d = #[trigger] palette[i];
                        let other = (p.r - d.r) * (p.r - d.r) + (p.g - d.g) * (p.g - d.g) + (p.b
                            - d.b) * (p.b - d.b);
                        least <= other && (i < k ==> least < other)
                    }
            },
{
    if p.a != 0 {
        let color = p.color();
        let all = distances(color, palette);
        let n = palette.len() as int;
        first_lowest_is_lowest(all, n);
        let k = first_lowest(all, n);
        let c = palette[k];
        distance_bounds(color, c);
        assert(all[k] == distance(color, c));
        assert forall|i: int| 0 <= i < n implies {
            let d = #[trigger] palette[i];
            let other = (p.r - d.r) * (p.r - d.r) + (p.g - d.g) * (p.g - d.g) + (p.b - d.b) * (p.b
                - d.b);
            distance(color, c) <= other && (i < k ==> distance(color, c) < other)
        } by {
            distance_bounds(color, palette[i]);
            assert(all[k] <= all[i]);
            assert(all[i] == distance(color, palette[i]));
        }
        assert(palette[k] == c);
    }
}

/// Without colours a pixel that can be seen becomes black, and keeps its opacity.
pub proof fn painted_without_colors_is_black(p: Pixel)
    requires
        p.a != 0,
    ensures
        mapped(p, Seq::empty()) == (Pixel { r: 0, g: 0, b: 0, a: p.a }),
{
}

/// Six hexadecimal digits write a colour, two for each channel, the first counting sixteenfold. Letters may
/// be small or capital. A number sign before them makes no difference.
pub proof fn six_digits_write_a_color(t: Seq<char>, v: Seq<int>)
    requires
        t.len() == 6,
        v.len() == 6,
        forall|i: int|
            0 <= i < 6 ==> {
                let c = (#[trigger] t[i]) as int;
                ||| 0 <= v[i] <= 9 && c == 48 + v[i]
                ||| 10 <= v[i] <= 15 && (c == 65 + v[i] - 10 || c == 97 + v[i] - 10)
            },
    ensures
        hex_color(t) matches Some(color) && color.r == 16 * v[0] + v[1] && color.g == 16 * v[2] + v[3]
            && color.b == 16 * v[4] + v[5],
        hex_color(seq!['#'] + t) == hex_color(t),
{
    assert forall|i: int| 0 <= i < 6 implies is_hex(#[trigger] t[i]) && hex_value(t[i]) == v[i] by {
        let c = t[i] as int;
        assert((0 <= v[i] <= 9 && c == 48 + v[i]) || (10 <= v[i] <= 15 && (c == 65 + v[i] - 10 || c
            == 97 + v[i] - 10)));
    }
    trimmed_keeps_tight(t);
    let signed = seq!['#'] + t;
    assert(signed[0] == '#' && signed.last() == t[5]);
    trimmed_keeps_tight(signed);
    assert(signed.drop_first() =~= t);
    assert(t[0] != '#');
    assert(without_signs(t) == t);
    assert(without_signs(signed) == t);
}

/// A text that writes a colour is, without the white space around it, number signs and six hexadecimal
/// digits after them.
pub proof fn colors_are_written_with_six_digits(s: Seq<char>)
    requires
        hex_color(s) is Some,
    ensures
        trimmed(s).len() >= 6,
        forall|i: int| 0 <= i < trimmed(s).len() - 6 ==> #[trigger] trimmed(s)[i] == '#',
        forall|i: int|
            trimmed(s).len() - 6 <= i < trimmed(s).len() ==> {
                let c = (#[trigger] trimmed(s)[i]) as int;
                48 <= c <= 57 || 65 <= c <= 70 || 97 <= c <= 102
            },
        hex_color(s) == hex_color(trimmed(s).skip(trimmed(s).len() - 6)),
{
    let t = trimmed(s);
    let u = without_signs(t);
    lemma_without_signs(t);
    assert forall|i: int| t.len() - 6 <= i < t.len() implies {
        let c = (#[trigger] t[i]) as int;
        48 <= c <= 57 || 65 <= c <= 70 || 97 <= c <= 102
    } by {
        assert(is_hex(u[i - (t.len() - 6)]));
    }
    assert(is_hex(u[0]) && is_hex(u[5]));
    trimmed_keeps_tight(u);
    assert(without_signs(u) == u);
}

proof fn lemma_without_signs(s: Seq<char>)
    ensures
        without_signs(s).len() <= s.len(),
        without_signs(s) == s.skip(s.len() - without_signs(s).len()),
        forall|i: int| 0 <= i < s.len() - without_signs(s).len() ==> #[trigger] s[i] == '#',
    decreases s.len(),
{
    let t = without_signs(s);
    if s.len() > 0 && s[0] == '#' {
        let rest = s.drop_first();
        lemma_without_signs(rest);
        assert(t =~= s.skip(s.len() - t.len()));
        assert forall|i: int| 0 <= i < s.len() - t.len() implies #[trigger] s[i] == '#' by {
            if i > 0 {
                assert(rest[i - 1] == s[i]);
            }
        }
    } else {
        assert(t =~= s.skip(s.len() - t.len()));
    }
}

/// What a line lists. Where fields four to six are numbers up to 255, it is the colour of those. Else, where
/// the first three fields are, it is the colour of those. Else it is the colours that are written in
/// hexadecimal between white space, commas and semicolons.
pub proof fn line_lists_fields_or_digits(line: Seq<char>)
    ensures
        ({
            let fields = pieces(line, Separator::Comma);
            let number = |i: int| decimal(trimmed(fields[i]), 255);
            let last = fields.len() >= 6 && number(3) is Some && number(4) is Some && number(5) is Some;
            let first = fields.len() >= 3 && number(0) is Some && number(1) is Some && number(2) is Some;
            &&& last ==> line_colors(line) == seq![
                Color {
                    r: number(3)->0 as u8,
                    g: number(4)->0 as u8,
                    b: number(5)->0 as u8,
                },
            ]
            &&& !last && first ==> line_colors(line) == seq![
                Color {
                    r: number(0)->0 as u8,
                    g: number(1)->0 as u8,
                    b: number(2)->0 as u8,
                },
            ]
            &&& !last && !first ==> forall|c: Color|
                #![trigger line_colors(line).contains(c)]
                line_colors(line).contains(c) <==> exists|i: int|
                    0 <= i < pieces(line, Separator::Loose).len() && hex_color(
                        #[trigger] pieces(line, Separator::Loose)[i],
                    ) == Some(c)
        }),
{
    let tokens = pieces(line, Separator::Loose);
    assert forall|c: Color|
        #![trigger token_colors(tokens).contains(c)]
        token_colors(tokens).contains(c) <==> exists|i: int|
            0 <= i < tokens.len() && hex_color(#[trigger] tokens[i]) == Some(c) by {
        lemma_token_colors(tokens, c);
    }
}

proof fn lemma_token_colors(tokens: Seq<Seq<char>>, c: Color)
    ensures
        token_colors(tokens).contains(c) <==> exists|i: int|
            0 <= i < tokens.len() && hex_color(#[trigger] tokens[i]) == Some(c),
    decreases tokens.len(),
{
    let all = token_colors(tokens);
    if tokens.len() > 0 {
        let few = tokens.drop_last();
        let before = token_colors(few);
        lemma_token_colors(few, c);
        if all.contains(c) {
            let k = choose|k: int| 0 <= k < all.len() && all[k] == c;
            if k < before.len() {
                assert(before[k] == c);
                let i = choose|i: int| 0 <= i < few.len() && hex_color(#[trigger] few[i]) == Some(c);
                assert(tokens[i] == few[i]);
            } else {
                assert(hex_color(tokens[tokens.len() - 1]) == Some(c));
            }
        }
        if exists|i: int| 0 <= i < tokens.len() && hex_color(#[trigger] tokens[i]) == Some(c) {
            let i = choose|i: int|
                0 <= i < tokens.len() && hex_color(#[trigger] tokens[i]) == Some(c);
            if i < few.len() {
                assert(few[i] == tokens[i]);
                let k = choose|k: int| 0 <= k < before.len() && before[k] == c;
                assert(all[k] == c);
            } else {
                assert(all[before.len() as int] == c);
            }
        }
    }
}

/// A text lists the colours that its lines list, without the white space around them.
pub proof fn text_lists_what_its_lines_list(text: Seq<char>, c: Color)
    ensures
        listed_colors(text).contains(c) <==> exists|i: int|
            0 <= i < pieces(text, Separator::LineEnd).len() && line_colors(
                trimmed(#[trigger] pieces(text, Separator::LineEnd)[i]),
            ).contains(c),
{
    lemma_lines_colors(pieces(text, Separator::LineEnd), c);
}

proof fn lemma_lines_colors(lines: Seq<Seq<char>>, c: Color)
    ensures
        lines_colors(lines).contains(c) <==> exists|i: int|
            0 <= i < lines.len() && line_colors(trimmed(#[trigger] lines[i])).contains(c),
    decreases lines.len(),
{
    let all = lines_colors(lines);
    if lines.len() > 0 {
        let few = lines.drop_last();
        let before = lines_colors(few);
        let last = line_colors(trimmed(lines.last()));
        lemma_lines_colors(few, c);
        if all.contains(c) {
            let k = choose|k: int| 0 <= k < all.len() && all[k] == c;
            if k < before.len() {
                assert(before[k] == c);
                let i = choose|i: int|
                    0 <= i < few.len() && line_colors(trimmed(#[trigger] few[i])).contains(c);
                assert(lines[i] == few[i]);
            } else {
                assert(last[k - before.len()] == c);
                assert(line_colors(trimmed(lines[lines.len() - 1])).contains(c));
            }
        }
        if exists|i: int|
            0 <= i < lines.len() && line_colors(trimmed(#[trigger] lines[i])).contains(c) {
            let i = choose|i: int|
                0 <= i < lines.len() && line_colors(trimmed(#[trigger] lines[i])).contains(c);
            if i < few.len() {
                assert(few[i] == lines[i]);
                let k = choose|k: int| 0 <= k < before.len() && before[k] == c;
                assert(all[k] == c);
            } else {
                let k = choose|k: int| 0 <= k < last.len() && last[k] == c;
                assert(all[before.len() + k] == c);
            }
        }
    }
}

/// A palette is in order of red, then green, then blue, with no colour twice, and holds just the colours
/// that it is of.
pub proof fn palette_is_in_order(palette: Seq<Color>, colors: Seq<Color>, i: int, j: int)
    requires
        is_palette_of(palette, colors),
        0 <= i < j < palette.len(),
    ensures
        ({
            let (a, b) = (palette[i], palette[j]);
            a.r < b.r || (a.r == b.r && (a.g < b.g || (a.g == b.g && a.b < b.b)))
        }),
        forall|c: Color| #[trigger] palette.contains(c) <==> colors.contains(c),
{
    colors_are_numbered_in_order(palette[i], palette[j]);
}

} // verus!
