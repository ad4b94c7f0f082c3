//! Laying out text: padding, cutting and trimming.
use vstd::prelude::*;

use crate::text::{chars_of, text_of};

verus! {

/// A character written `count` times.
pub open spec fn repeated(c: char, count: nat) -> Seq<char> {
    Seq::new(count, |i: int| c)
}

/// Writes a character `count` times.
pub fn repeat(c: char, count: usize) -> (text: String)
    ensures
        text@ == repeated(c, count as nat),
{
    let mut text = String::new();
    let mut i: usize = 0;
    while i < count
        invariant
            i <= count,
            text@ == repeated(c, i as nat),
        decreases count - i,
    {
        text.push(c);
        i += 1;
        assert(repeated(c, i as nat) =~= repeated(c, (i - 1) as nat).push(c));
    }
    text
}

/// A text with spaces before it, at least `width` characters in all.
pub open spec fn padded_left(text: Seq<char>, width: int) -> Seq<char> {
    if text.len() < width {
        repeated(' ', (width - text.len()) as nat) + text
    } else {
        text
    }
}

/// A text with spaces behind it, at least `width` characters in all.
pub open spec fn padded_right(text: Seq<char>, width: int) -> Seq<char> {
    if text.len() < width {
        text + repeated(' ', (width - text.len()) as nat)
    } else {
        text
    }
}

/// Counts the characters of a text.
fn char_count(text: &str) -> (count: usize)
    ensures
        count == text@.len(),
{
    chars_of(text).len()
}

/// Aligns a text to the right of `width` columns.
pub fn pad_left(text: &str, width: usize) -> (padded: String)
    ensures
        padded@ == padded_left(text@, width as int),
{
    let count: usize = char_count(text);
    if count < width {
        let mut padded = repeat(' ', width - count);
        padded.append(text);
        padded
    } else {
        text.to_owned()
    }
}

/// Aligns a text to the left of `width` columns.
pub fn pad_right(text: &str, width: usize) -> (padded: String)
    ensures
        padded@ == padded_right(text@, width as int),
{
    let count: usize = char_count(text);
    let mut padded = text.to_owned();
    if count < width {
        padded.append(repeat(' ', width - count).as_str());
    }
    padded
}

/// A text cut to `width` characters: the last three become dots where there is room for them.
pub open spec fn truncated(value: Seq<char>, width: int) -> Seq<char> {
    if value.len() <= width {
        value
    } else if width >= 4 {
        value.take(width - 3) + "..."@
    } else {
        value.take(width)
    }
}

/// Cuts a text to `width` characters and marks the cut with dots where there is room for them.
pub fn truncate(value: &str, width: usize) -> (short: String)
    ensures
        short@ == truncated(value@, width as int),
{
    let chars = chars_of(value);
    if chars.len() <= width {
        value.to_owned()
    } else if width >= 4 {
        let mut short = text_of(&chars[0..width - 3]);
        assert(value@.subrange(0, width - 3) =~= value@.take(width - 3));
        short.append("...");
        short
    } else {
        assert(value@.subrange(0, width as int) =~= value@.take(width as int));
        text_of(&chars[0..width])
    }
}

/// A text without the characters `c` at its end.
pub open spec fn without_trailing(text: Seq<char>, c: char) -> Seq<char>
    decreases text.len(),
{
    if text.len() > 0 && text.last() == c {
        without_trailing(text.drop_last(), c)
    } else {
        text
    }
}

/// A number written with decimals, without the zeros at its end and without a point before nothing.
pub open spec fn trimmed(formatted: Seq<char>) -> Seq<char> {
    without_trailing(without_trailing(formatted, '0'), '.')
}

/// Counts what is left of the first `end` characters without those `c` at their end.
fn trailing_start(chars: &Vec<char>, end: usize, c: char) -> (start: usize)
    requires
        end <= chars@.len(),
    ensures
        start <= end,
        chars@.take(start as int) == without_trailing(chars@.take(end as int), c),
{
    let mut start: usize = end;
    while start > 0 && chars[start - 1] == c
        invariant
            start <= end <= chars@.len(),
            without_trailing(chars@.take(start as int), c) == without_trailing(
                chars@.take(end as int),
                c,
            ),
        decreases start,
    {
        assert(chars@.take(start as int).drop_last() =~= chars@.take(start - 1));
        start -= 1;
    }
    start
}

/// Takes the zeros off the end of a number written with decimals, and the point if nothing is
/// left behind it.
pub fn trim_float(formatted: &str) -> (short: String)
    ensures
        short@ == trimmed(formatted@),
{
    let chars = chars_of(formatted);
    assert(chars@.take(chars@.len() as int) =~= chars@);
    let digits: usize = trailing_start(&chars, chars.len(), '0');
    let end: usize = trailing_start(&chars, digits, '.');
    assert(chars@.subrange(0, end as int) =~= chars@.take(end as int));
    text_of(&chars[0..end])
}

/// A text cut to a width is no wider, begins like the text and is the text itself if it fits.
pub proof fn truncated_fits(value: Seq<char>, width: int)
    requires
        width >= 0,
    ensures
        truncated(value, width).len() <= width,
        value.len() <= width ==> truncated(value, width) == value,
        value.len() > width ==> truncated(value, width).len() == width,
        value.len() > width >= 4 ==> truncated(value, width).take(width - 3) == value.take(width - 3),
{
    reveal_strlit("...");
    if value.len() > width && width >= 4 {
        assert(truncated(value, width).take(width - 3) =~= value.take(width - 3));
    }
}

/// A text padded to a width is exactly that wide if it was no wider, and holds the text at its end
/// or at its beginning.
pub proof fn padded_fills(text: Seq<char>, width: int)
    requires
        text.len() <= width,
    ensures
        padded_left(text, width).len() == width,
        padded_right(text, width).len() == width,
        padded_left(text, width).skip(width - text.len()) == text,
        padded_right(text, width).take(text.len() as int) == text,
{
    assert(padded_left(text, width).skip(width - text.len()) =~= text);
    assert(padded_right(text, width).take(text.len() as int) =~= text);
}

proof fn trailing_of_tail(head: Seq<char>, tail: Seq<char>, c: char)
    ensures
        without_trailing(head + tail, c) == (if without_trailing(tail, c).len() == 0 {
            without_trailing(head, c)
        } else {
            head + without_trailing(tail, c)
        }),
    decreases tail.len(),
{
    let text = head + tail;
    if tail.len() == 0 {
        assert(text =~= head);
    } else if tail.last() == c {
        assert(text.drop_last() =~= head + tail.drop_last());
        trailing_of_tail(head, tail.drop_last(), c);
    }
}

/// Only the zeros at the end of the decimals go, and the point goes with the last of them: the
/// digits before the point stay, zeros too.
pub proof fn trimmed_keeps_the_number(whole: Seq<char>, decimals: Seq<char>)
    requires
        whole.len() > 0,
        whole.last() != '.',
        !decimals.contains('.'),
    ensures
        trimmed(whole + seq!['.'] + decimals) == (if without_trailing(decimals, '0').len() == 0 {
            whole
        } else {
            whole + seq!['.'] + without_trailing(decimals, '0')
        }),
{
    let head = whole + seq!['.'];
    let rest = without_trailing(decimals, '0');
    trailing_of_tail(head, decimals, '0');
    assert(head.last() == '.');
    assert(head.drop_last() =~= whole);
    if rest.len() > 0 {
        trailing_is_a_start(decimals, '0');
        let short = head + rest;
        assert(short.last() == decimals[rest.len() - 1]);
        assert(decimals.contains(decimals[rest.len() - 1]));
    } else {
        assert(without_trailing(whole, '.') == whole);
        assert(without_trailing(head, '.') == without_trailing(whole, '.'));
    }
}

proof fn trailing_is_a_start(text: Seq<char>, c: char)
    ensures
        without_trailing(text, c).len() <= text.len(),
        without_trailing(text, c) == text.take(without_trailing(text, c).len() as int),
    decreases text.len(),
{
    if text.len() > 0 && text.last() == c {
        trailing_is_a_start(text.drop_last(), c);
        let kept = without_trailing(text, c).len() as int;
        assert(text.drop_last().take(kept) =~= text.take(kept));
    } else {
        assert(text.take(text.len() as int) =~= text);
    }
}

/// A repeated character is there as often as it was asked for, and nothing else is.
pub proof fn repeated_is_one_character(c: char, count: nat, i: int)
    requires
        0 <= i < count,
    ensures
        repeated(c, count).len() == count,
        repeated(c, count)[i] == c,
        repeated(c, 0).len() == 0,
{
}

/// Padding is spaces alone, and no more of them than the width asks for: a text that is as wide or
/// wider stays as it is.
pub proof fn padding_is_spaces_alone(text: Seq<char>, width: int)
    ensures
        text.len() >= width ==> padded_left(text, width) == text && padded_right(text, width)
            == text,
        text.len() < width ==> {
            &&& padded_left(text, width).len() == width
            &&& padded_right(text, width).len() == width
            &&& forall|i: int|
                0 <= i < width - text.len() ==> #[trigger] padded_left(text, width)[i] == ' '
            &&& forall|i: int|
                width - text.len() <= i < width ==> #[trigger] padded_left(text, width)[i] == text[i
                    - (width - text.len())]
            &&& forall|i: int|
                0 <= i < text.len() ==> #[trigger] padded_right(text, width)[i] == text[i]
            &&& forall|i: int|
                text.len() <= i < width ==> #[trigger] padded_right(text, width)[i] == ' '
        },
{
}

/// A text that is too wide keeps its beginning. Where there is room for four characters or more, the
/// last three of them are dots.
pub proof fn cut_text_ends_in_dots(value: Seq<char>, width: int, i: int)
    requires
        0 <= i < width < value.len(),
    ensures
        truncated(value, width).len() == width,
        width >= 4 && i >= width - 3 ==> truncated(value, width)[i] == '.',
        width < 4 || i < width - 3 ==> truncated(value, width)[i] == value[i],
        truncated(value, 0).len() == 0,
{
    reveal_strlit("...");
    assert("..."@.len() == 3 && "..."@[0] == '.' && "..."@[1] == '.' && "..."@[2] == '.');
}

/// Of the decimals of a number, those up to the last that is not zero are kept, and the point with
/// them; where all are zero, the point goes too.
pub proof fn trimming_keeps_up_to_the_last_figure(whole: Seq<char>, decimals: Seq<char>) -> (kept:
    int)
    requires
        whole.len() > 0,
        whole.last() != '.',
        !decimals.contains('.'),
    ensures
        0 <= kept <= decimals.len(),
        kept > 0 ==> decimals[kept - 1] != '0',
        forall|i: int| kept <= i < decimals.len() ==> decimals[i] == '0',
        trimmed(whole + seq!['.'] + decimals) == (if kept == 0 {
            whole
        } else {
            whole + seq!['.'] + decimals.take(kept)
        }),
{
    trimmed_keeps_the_number(whole, decimals);
    trailing_is_a_start(decimals, '0');
    trailing_is_all_alike(decimals, '0');
    without_trailing(decimals, '0').len() as int
}

proof fn trailing_is_all_alike(text: Seq<char>, c: char)
    ensures
        without_trailing(text, c).len() <= text.len(),
        forall|i: int| without_trailing(text, c).len() <= i < text.len() ==> text[i] == c,
        without_trailing(text, c).len() > 0 ==> text[without_trailing(text, c).len() - 1] != c,
    decreases text.len(),
{
    if text.len() > 0 && text.last() == c {
        let head = text.drop_last();
        trailing_is_all_alike(head, c);
        assert forall|i: int| without_trailing(text, c).len() <= i < text.len() implies text[i]
            == c by {
            if i < head.len() {
                assert(head[i] == text[i]);
            }
        }
        if without_trailing(text, c).len() > 0 {
            let last = without_trailing(text, c).len() - 1;
            assert(head[last] == text[last]);
        }
    }
}

/// Trimming takes zeros off the end of a text, and then dots: what it leaves does not end in a dot,
/// and not in a zero either unless dots stood behind it.
pub proof fn trimming_takes_zeros_and_then_dots(text: Seq<char>) -> (taken: (nat, nat))
    ensures
        text == trimmed(text) + repeated('.', taken.0) + repeated('0', taken.1),
        trimmed(text).len() > 0 ==> trimmed(text).last() != '.',
        trimmed(text).len() > 0 && taken.0 == 0 ==> trimmed(text).last() != '0',
{
    let middle = without_trailing(text, '0');
    let short = trimmed(text);
    trailing_is_a_start(text, '0');
    trailing_is_all_alike(text, '0');
    trailing_is_a_start(middle, '.');
    trailing_is_all_alike(middle, '.');
    let dots = (middle.len() - short.len()) as nat;
    let zeros = (text.len() - middle.len()) as nat;
    assert(middle =~= short + repeated('.', dots));
    assert(text =~= middle + repeated('0', zeros));
    (dots, zeros)
}

} // verus!
