//! Text as sequences of characters: trimming, splitting, and numbers in decimal.

use vstd::prelude::*;
use vstd::string::*;

verus! {

/// The character is white space, as Unicode has it.
pub open spec fn is_space(c: char) -> bool {
    let code = c as u32;
    ||| 0x09 <= code <= 0x0d
    ||| code == 0x20
    ||| code == 0x85
    ||| code == 0xa0
    ||| code == 0x1680
    ||| 0x2000 <= code <= 0x200a
    ||| code == 0x2028
    ||| code == 0x2029
    ||| code == 0x202f
    ||| code == 0x205f
    ||| code == 0x3000
}

/// Tells whether a character is white space.
pub fn is_white_space(c: char) -> (space: bool)
    ensures
        space == is_space(c),
{
    let code: u32 = c as u32;
    (0x09 <= code && code <= 0x0d) || code == 0x20 || code == 0x85 || code == 0xa0 || code == 0x1680
        || (0x2000 <= code && code <= 0x200a) || code == 0x2028 || code == 0x2029 || code == 0x202f
        || code == 0x205f || code == 0x3000
}

/// The text without the white space that it starts with.
pub open spec fn trimmed_start(s: Seq<char>) -> Seq<char>
    decreases s.len(),
{
    if s.len() > 0 && is_space(s[0]) {
        trimmed_start(s.drop_first())
    } else {
        s
    }
}

/// The text without the white space that it ends with.
pub open spec fn trimmed_end(s: Seq<char>) -> Seq<char>
    decreases s.len(),
{
    if s.len() > 0 && is_space(s.last()) {
        trimmed_end(s.drop_last())
    } else {
        s
    }
}

/// The text without the white space around it.
pub open spec fn trimmed(s: Seq<char>) -> Seq<char> {
    trimmed_end(trimmed_start(s))
}

/// Text that neither starts nor ends with white space is left as it is by trimming.
pub proof fn trimmed_keeps_tight(s: Seq<char>)
    requires
        s.len() > 0 ==> !is_space(s[0]) && !is_space(s.last()),
    ensures
        trimmed(s) == s,
{
}

/// Copies the part of a text from `from` up to, not including, `to`.
pub fn part(s: &Vec<char>, from: usize, to: usize) -> (t: Vec<char>)
    requires
        from <= to <= s@.len(),
    ensures
        t@ == s@.subrange(from as int, to as int),
{
    let mut t: Vec<char> = Vec::new();
    let mut i: usize = from;
    while i < to
        invariant
            from <= i <= to <= s@.len(),
            t@ == s@.subrange(from as int, i as int),
        decreases to - i,
    {
        t.push(s[i]);
        i += 1;
        proof {
            assert(t@ =~= s@.subrange(from as int, i as int));
        }
    }
    t
}

/// Removes the white space around a text.
pub fn trim(s: &Vec<char>) -> (t: Vec<char>)
    ensures
        t@ == trimmed(s@),
{
    let mut from: usize = 0;
    proof {
        assert(s@.skip(0) =~= s@);
    }
    while from < s.len() && is_white_space(s[from])
        invariant
            from <= s@.len(),
            trimmed_start(s@.skip(from as int)) == trimmed_start(s@),
        decreases s.len() - from,
    {
        proof {
            assert(s@.skip(from as int).drop_first() =~= s@.skip(from + 1));
        }
        from += 1;
    }
    let ghost start = s@.skip(from as int);
    proof {
        assert(trimmed_start(s@) == start);
    }
    let mut to: usize = s.len();
    proof {
        assert(s@.subrange(from as int, to as int) =~= start);
    }
    while to > from && is_white_space(s[to - 1])
        invariant
            from <= to <= s@.len(),
            trimmed_end(s@.subrange(from as int, to as int)) == trimmed_end(start),
        decreases to,
    {
        proof {
            assert(s@.subrange(from as int, to as int).drop_last() =~= s@.subrange(
                from as int,
                to - 1,
            ));
        }
        to -= 1;
    }
    part(s, from, to)
}

/// The character with an ASCII capital letter replaced by the small one.
pub open spec fn lower(c: char) -> char {
    if 'A' <= c <= 'Z' {
        ((c as u32) + 32) as char
    } else {
        c
    }
}

/// The text with ASCII capital letters replaced by small ones.
pub open spec fn lowered(s: Seq<char>) -> Seq<char> {
    s.map_values(|c: char| lower(c))
}

/// Replaces ASCII capital letters by small ones.
pub fn to_lower(s: &Vec<char>) -> (t: Vec<char>)
    ensures
        t@ == lowered(s@),
{
    let mut t: Vec<char> = Vec::new();
    let mut i: usize = 0;
    while i < s.len()
        invariant
            i <= s@.len(),
            t@.len() == i,
            forall|k: int| 0 <= k < i ==> t@[k] == lower(#[trigger] s@[k]),
        decreases s.len() - i,
    {
        let c: char = s[i];
        if 'A' <= c && c <= 'Z' {
            t.push((c as u8 + 32) as char);
        } else {
            t.push(c);
        }
        i += 1;
    }
    proof {
        assert(t@ =~= lowered(s@));
    }
    t
}

/// Where a text is split.
#[derive(Clone, Copy, Debug)]
pub enum Separator {
    /// At the ends of lines.
    LineEnd,
    /// At commas.
    Comma,
    /// At white space, commas and semicolons.
    Loose,
}

impl Separator {
    /// The character separates two pieces.
    pub open spec fn parts_at(self, c: char) -> bool {
        match self {
            Separator::LineEnd => c == '\n',
            Separator::Comma => c == ',',
            Separator::Loose => is_space(c) || c == ';' || c == ',',
        }
    }

    fn separates(&self, c: char) -> (yes: bool)
        ensures
            yes == self.parts_at(c),
    {
        match self {
            Separator::LineEnd => c == '\n',
            Separator::Comma => c == ',',
            Separator::Loose => is_white_space(c) || c == ';' || c == ',',
        }
    }
}

/// The pieces of a text between separators. There is always at least one.
pub open spec fn pieces(s: Seq<char>, separator: Separator) -> Seq<Seq<char>>
    decreases s.len(),
{
    if s.len() == 0 {
        seq![s]
    } else {
        let before = pieces(s.drop_last(), separator);
        if separator.parts_at(s.last()) {
            before.push(Seq::empty())
        } else {
            before.update(before.len() - 1, before.last().push(s.last()))
        }
    }
}

/// What the texts of a list hold.
pub open spec fn contents(list: Seq<Vec<char>>) -> Seq<Seq<char>> {
    list.map_values(|text: Vec<char>| text@)
}

/// Splits a text into its pieces.
pub fn split(s: &Vec<char>, separator: Separator) -> (list: Vec<Vec<char>>)
    ensures
        contents(list@) == pieces(s@, separator),
        list@.len() > 0,
{
    let mut done: Vec<Vec<char>> = Vec::new();
    let mut current: Vec<char> = Vec::new();
    let mut i: usize = 0;
    proof {
        assert(s@.take(0) =~= Seq::<char>::empty());
        assert(current@ =~= Seq::<char>::empty());
        assert(contents(done@).push(current@) =~= pieces(s@.take(0), separator));
    }
    while i < s.len()
        invariant
            i <= s@.len(),
            contents(done@).push(current@) == pieces(s@.take(i as int), separator),
        decreases s.len() - i,
    {
        let c: char = s[i];
        let ghost before = contents(done@).push(current@);
        let ghost old_done = done@;
        let ghost old_current = current@;
        proof {
            assert(s@.take(i + 1).drop_last() =~= s@.take(i as int));
            assert(s@.take(i + 1).last() == c);
        }
        if separator.separates(c) {
            done.push(current);
            current = Vec::new();
            proof {
                assert(contents(done@) =~= contents(old_done).push(old_current));
                assert(current@ =~= Seq::<char>::empty());
                assert(contents(done@).push(current@) =~= before.push(Seq::empty()));
            }
        } else {
            current.push(c);
            proof {
                assert(before.last() == old_current);
                assert(contents(done@).push(current@) =~= before.update(
                    before.len() - 1,
                    before.last().push(c),
                ));
            }
        }
        i += 1;
    }
    proof {
        assert(s@.take(i as int) =~= s@);
    }
    let ghost old_done = done@;
    let ghost last = current@;
    done.push(current);
    proof {
        assert(contents(done@) =~= contents(old_done).push(last));
    }
    done
}

/// The characters of a string.
pub fn to_chars(s: &str) -> (chars: Vec<char>)
    ensures
        chars@ == s@,
{
    let mut chars: Vec<char> = Vec::new();
    for c in it: s.chars()
        invariant
            chars@ == it.seq().take(it.index() as int),
            it.seq() == s@,
    {
        chars.push(c);
        proof {
            assert(chars@ =~= it.seq().take(it.index() + 1));
        }
    }
    proof {
        assert(chars@ =~= s@);
    }
    chars
}

/// Compares two texts.
pub fn same_text(a: &Vec<char>, b: &str) -> (same: bool)
    ensures
        same == (a@ == b@),
{
    let other: Vec<char> = to_chars(b);
    if a.len() != other.len() {
        return false;
    }
    let mut i: usize = 0;
    while i < a.len()
        invariant
            i <= a@.len(),
            a@.len() == other@.len(),
            other@ == b@,
            forall|k: int| 0 <= k < i ==> a@[k] == other@[k],
        decreases a.len() - i,
    {
        if a[i] != other[i] {
            return false;
        }
        i += 1;
    }
    proof {
        assert(a@ =~= other@);
    }
    true
}

/// The character is a decimal digit.
pub open spec fn is_digit(c: char) -> bool {
    '0' <= c <= '9'
}

/// The number that digits write.
pub open spec fn digits_value(s: Seq<char>) -> nat
    decreases s.len(),
{
    if s.len() == 0 {
        0
    } else {
        10 * digits_value(s.drop_last()) + ((s.last() as u32 - '0' as u32) as nat)
    }
}

/// The digits of a number, without a plus sign before them.
pub open spec fn unsigned_part(s: Seq<char>) -> Seq<char> {
    if s.len() > 0 && s[0] == '+' {
        s.drop_first()
    } else {
        s
    }
}

/// The number that a text writes: decimal digits, at least one, after an optional plus sign.
/// Numbers above `max` are refused.
pub open spec fn decimal(s: Seq<char>, max: usize) -> Option<usize> {
    let digits = unsigned_part(s);
    if digits.len() > 0 && (forall|i: int| 0 <= i < digits.len() ==> is_digit(#[trigger] digits[i]))
        && digits_value(digits) <= max {
        Some(digits_value(digits) as usize)
    } else {
        None
    }
}

/// Reads a decimal number of at most `max`.
pub fn parse_decimal(s: &Vec<char>, max: usize) -> (number: Option<usize>)
    ensures
        number == decimal(s@, max),
{
    let from: usize = if s.len() > 0 && s[0] == '+' {
        1
    } else {
        0
    };
    let ghost digits = unsigned_part(s@);
    proof {
        assert(digits =~= s@.skip(from as int));
    }
    if from == s.len() {
        return None;
    }
    let mut value: usize = 0;
    let mut too_large: bool = false;
    let mut i: usize = from;
    proof {
        assert(digits.take(0) =~= Seq::<char>::empty());
    }
    while i < s.len()
        invariant
            from <= i <= s@.len(),
            from < s@.len(),
            digits == unsigned_part(s@),
            digits == s@.skip(from as int),
            forall|k: int| 0 <= k < i - from ==> is_digit(#[trigger] digits[k]),
            !too_large ==> value == digits_value(digits.take(i - from)) && value <= max,
            too_large ==> digits_value(digits.take(i - from)) > max,
        decreases s.len() - i,
    {
        let c: char = s[i];
        let ghost n = i - from;
        proof {
            assert(digits[n] == c);
            assert(digits.take(n + 1).drop_last() =~= digits.take(n));
            assert(digits.take(n + 1).last() == c);
        }
        if !('0' <= c && c <= '9') {
            return None;
        }
        let digit: usize = (c as u8 - 48) as usize;
        if !too_large {
            if value > max / 10 || digit > max - value * 10 {
                too_large = true;
            } else {
                value = value * 10 + digit;
            }
        }
        i += 1;
    }
    proof {
        assert(digits.take(i - from) =~= digits);
    }
    if too_large {
        None
    } else {
        Some(value)
    }
}

/// The decimal digit of a number below ten.
pub open spec fn digit_char(d: nat) -> char {
    ((d + 48) as u32) as char
}

/// A number in decimal.
pub open spec fn number_text(n: nat) -> Seq<char>
    decreases n,
{
    if n < 10 {
        seq![digit_char(n)]
    } else {
        number_text(n / 10).push(digit_char(n % 10))
    }
}

/// What is written of a number is read as that number.
pub proof fn number_text_reads_back(n: usize, max: usize)
    requires
        n <= max,
    ensures
        decimal(number_text(n as nat), max) == Some(n),
{
    lemma_number_text(n as nat);
}

proof fn lemma_number_text(n: nat)
    ensures
        number_text(n).len() > 0,
        digits_value(number_text(n)) == n,
        forall|i: int| 0 <= i < number_text(n).len() ==> is_digit(#[trigger] number_text(n)[i]),
    decreases n,
{
    let s = number_text(n);
    if n < 10 {
        assert(s.drop_last() =~= Seq::<char>::empty());
        assert(digits_value(s.drop_last()) == 0);
    } else {
        lemma_number_text(n / 10);
        assert(s.drop_last() =~= number_text(n / 10));
    }
}

/// Writes a number in decimal.
pub fn number_string(n: usize) -> (text: String)
    ensures
        text@ == number_text(n as nat),
    decreases n,
{
    let digits: [&str; 10] = ["0", "1", "2", "3", "4", "5", "6", "7", "8", "9"];
    proof {
        reveal_strlit("0");
        reveal_strlit("1");
        reveal_strlit("2");
        reveal_strlit("3");
        reveal_strlit("4");
        reveal_strlit("5");
        reveal_strlit("6");
        reveal_strlit("7");
        reveal_strlit("8");
        reveal_strlit("9");
    }
    let digit: &str = digits[n % 10];
    proof {
        assert(digit@ =~= seq![digit_char((n % 10) as nat)]);
    }
    if n < 10 {
        digit.to_owned()
    } else {
        let mut text: String = number_string(n / 10);
        text.append(digit);
        proof {
            assert(text@ =~= number_text(n as nat));
        }
        text
    }
}

/// Trimming takes a part of a text, such that there is nothing but white space before it and after it, and
/// the part neither starts nor ends with white space.
pub proof fn trimming_takes_off_white_space(s: Seq<char>)
    ensures
        exists|from: int, to: int|
            0 <= from <= to <= s.len() && trimmed(s) == #[trigger] s.subrange(from, to) && (forall|
                i: int,
            |
                0 <= i < from || to <= i < s.len() ==> is_space(#[trigger] s[i])),
        trimmed(s).len() > 0 ==> !is_space(trimmed(s)[0]) && !is_space(trimmed(s).last()),
{
    let t = trimmed_start(s);
    let from = s.len() - t.len();
    lemma_trimmed_start(s);
    lemma_trimmed_end(t);
    let u = trimmed(s);
    let to = from + u.len();
    assert(u =~= s.subrange(from, to));
    assert forall|i: int| 0 <= i < from || to <= i < s.len() implies is_space(#[trigger] s[i]) by {
        if i >= to {
            assert(t[i - from] == s[i]);
        }
    }
    if u.len() > 0 {
        assert(u[0] == t[0]);
    }
}

proof fn lemma_trimmed_start(s: Seq<char>)
    ensures
        trimmed_start(s).len() <= s.len(),
        trimmed_start(s) == s.skip(s.len() - trimmed_start(s).len()),
        forall|i: int|
            0 <= i < s.len() - trimmed_start(s).len() ==> is_space(#[trigger] s[i]),
        trimmed_start(s).len() > 0 ==> !is_space(trimmed_start(s)[0]),
    decreases s.len(),
{
    let t = trimmed_start(s);
    if s.len() > 0 && is_space(s[0]) {
        let rest = s.drop_first();
        lemma_trimmed_start(rest);
        assert(t =~= s.skip(s.len() - t.len()));
        assert forall|i: int| 0 <= i < s.len() - t.len() implies is_space(#[trigger] s[i]) by {
            if i > 0 {
                assert(rest[i - 1] == s[i]);
            }
        }
    } else {
        assert(t =~= s.skip(s.len() - t.len()));
    }
}

proof fn lemma_trimmed_end(s: Seq<char>)
    ensures
        trimmed_end(s).len() <= s.len(),
        trimmed_end(s) == s.take(trimmed_end(s).len() as int),
        forall|i: int| trimmed_end(s).len() <= i < s.len() ==> is_space(#[trigger] s[i]),
        trimmed_end(s).len() > 0 ==> !is_space(trimmed_end(s).last()),
    decreases s.len(),
{
    let t = trimmed_end(s);
    if s.len() > 0 && is_space(s.last()) {
        let rest = s.drop_last();
        lemma_trimmed_end(rest);
        assert(t =~= s.take(t.len() as int));
        assert forall|i: int| t.len() <= i < s.len() implies is_space(#[trigger] s[i]) by {
            if i < rest.len() {
                assert(rest[i] == s[i]);
            }
        }
    } else {
        assert(t =~= s.take(t.len() as int));
    }
}

/// Lowering replaces each of the 26 plain capital letters by the letter 32 places on, and nothing else.
pub proof fn lowering_moves_capitals(s: Seq<char>, i: int)
    requires
        0 <= i < s.len(),
    ensures
        lowered(s).len() == s.len(),
        65 <= s[i] as int <= 90 ==> lowered(s)[i] as int == s[i] as int + 32,
        !(65 <= s[i] as int <= 90) ==> lowered(s)[i] == s[i],
{
}

/// Which characters separate: the line feed, the comma, or any of white space, semicolon and comma.
pub proof fn separators_separate(c: char)
    ensures
        Separator::LineEnd.parts_at(c) <==> c as int == 10,
        Separator::Comma.parts_at(c) <==> c == ',',
        Separator::Loose.parts_at(c) <==> c == ',' || c == ';' || is_space(c),
{
}

/// A text without separators is one piece.
pub proof fn plain_text_is_one_piece(s: Seq<char>, separator: Separator)
    requires
        forall|i: int| 0 <= i < s.len() ==> !separator.parts_at(#[trigger] s[i]),
    ensures
        pieces(s, separator) == seq![s],
    decreases s.len(),
{
    if s.len() > 0 {
        plain_text_is_one_piece(s.drop_last(), separator);
        assert(s.drop_last().push(s.last()) =~= s);
        assert(s[s.len() - 1] == s.last());
    }
    assert(pieces(s, separator) =~= seq![s]);
}

/// What comes before the first separator is the first piece, and what comes after it gives the others.
pub proof fn text_is_split_at_separators(
    first: Seq<char>,
    c: char,
    rest: Seq<char>,
    separator: Separator,
)
    requires
        forall|i: int| 0 <= i < first.len() ==> !separator.parts_at(#[trigger] first[i]),
        separator.parts_at(c),
    ensures
        pieces(first.push(c) + rest, separator) == seq![first] + pieces(rest, separator),
    decreases rest.len(),
{
    let s = first.push(c) + rest;
    if rest.len() == 0 {
        plain_text_is_one_piece(first, separator);
        assert(s =~= first.push(c));
        assert(s.drop_last() =~= first);
        assert(rest =~= Seq::<char>::empty());
        assert(pieces(s, separator) =~= seq![first] + pieces(rest, separator));
    } else {
        text_is_split_at_separators(first, c, rest.drop_last(), separator);
        assert(s.drop_last() =~= first.push(c) + rest.drop_last());
        assert(s.last() == rest.last());
        lemma_pieces_some(rest.drop_last(), separator);
        assert(pieces(s, separator) =~= seq![first] + pieces(rest, separator));
    }
}

proof fn lemma_pieces_some(s: Seq<char>, separator: Separator)
    ensures
        pieces(s, separator).len() > 0,
    decreases s.len(),
{
    if s.len() > 0 {
        lemma_pieces_some(s.drop_last(), separator);
    }
}

/// A single digit writes its value.
pub proof fn decimal_of_one_digit(c: char, d: usize, max: usize)
    requires
        d <= 9,
        c as int == 48 + d,
    ensures
        decimal(seq![c], max) == if d <= max {
            Some(d)
        } else {
            None
        },
{
    let s = seq![c];
    assert(s.drop_last() =~= Seq::<char>::empty());
    assert(digits_value(s.drop_last()) == 0);
    assert(s.last() == c);
    assert(unsigned_part(s) == s);
    assert forall|i: int| 0 <= i < s.len() implies is_digit(#[trigger] s[i]) by {}
}

/// One more digit makes ten times the number, and its value more.
pub proof fn decimal_of_one_digit_more(s: Seq<char>, v: usize, c: char, d: usize, max: usize)
    requires
        d <= 9,
        c as int == 48 + d,
        decimal(s, usize::MAX) == Some(v),
    ensures
        decimal(s.push(c), max) == if 10 * v + d <= max {
            Some((10 * v + d) as usize)
        } else {
            None
        },
{
    let (few, more) = (unsigned_part(s), unsigned_part(s.push(c)));
    assert(s.push(c)[0] == s[0]);
    assert(more =~= few.push(c));
    assert(more.drop_last() =~= few);
    assert forall|i: int| 0 <= i < more.len() implies is_digit(#[trigger] more[i]) by {
        if i < few.len() {
            assert(more[i] == few[i]);
        }
    }
}

/// A text that writes a number is one digit or more, after a plus sign or none. A plus sign before digits
/// makes no difference. The number is at most the largest allowed.
pub proof fn decimal_is_made_of_digits(s: Seq<char>, max: usize)
    ensures
        decimal(s, max) matches Some(v) ==> {
            let from: int = if s[0] == '+' { 1 } else { 0 };
            &&& v <= max
            &&& s.len() > from
            &&& forall|i: int| from <= i < s.len() ==> 48 <= (#[trigger] s[i]) as int <= 57
        },
        s.len() > 0 && s[0] != '+' ==> decimal(seq!['+'] + s, max) == decimal(s, max),
        s.len() == 0 ==> decimal(s, max) is None,
{
    if decimal(s, max) is Some {
        let digits = unsigned_part(s);
        let from: int = if s[0] == '+' { 1 } else { 0 };
        assert forall|i: int| from <= i < s.len() implies 48 <= (#[trigger] s[i]) as int <= 57 by {
            assert(is_digit(digits[i - from]));
        }
    }
    assert((seq!['+'] + s).drop_first() =~= s);
}

/// A number is written without needless zeros.
pub proof fn number_text_has_no_leading_zero(n: nat)
    ensures
        number_text(n).len() > 0,
        number_text(n)[0] == '0' ==> n == 0 && number_text(n).len() == 1,
    decreases n,
{
    if n >= 10 {
        number_text_has_no_leading_zero(n / 10);
    }
}

} // verus!
