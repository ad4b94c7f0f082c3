//! What holds of text: case, searches, white space, fields, lines and numbers.
use vstd::arithmetic::power::pow;
use vstd::prelude::*;
use vstd::utf8::is_ascii_chars;

use crate::number::{
    all_digits, decimal, decimal_digits, digit, digits_value, number, unsigned_part,
};
use crate::split::{
    fields, first_index, first_index_is_first, last_index, last_index_is_last, lines,
    split_at_first, split_at_last, word_fits, word_len,
};
use crate::text::{
    ascii_lower, ascii_upper, lower, occurs_in, optional_text, stands_at, texts, unicode_lower,
    white_space,
};

verus! {

// Case
/// Lowering keeps every character but the ASCII capitals, which become the small letters 32 behind
/// them.
pub proof fn lowering_changes_capitals_alone(text: Seq<char>, i: int)
    requires
        0 <= i < text.len(),
    ensures
        ascii_lower(text).len() == text.len(),
        65 <= text[i] as int <= 90 ==> ascii_lower(text)[i] as int == text[i] as int + 32,
        !(65 <= text[i] as int <= 90) ==> ascii_lower(text)[i] == text[i],
{
}

/// Raising keeps every character but the ASCII small letters, which become the capitals 32 before
/// them.
pub proof fn raising_changes_small_letters_alone(text: Seq<char>, i: int)
    requires
        0 <= i < text.len(),
    ensures
        ascii_upper(text).len() == text.len(),
        97 <= text[i] as int <= 122 ==> ascii_upper(text)[i] as int == text[i] as int - 32,
        !(97 <= text[i] as int <= 122) ==> ascii_upper(text)[i] == text[i],
{
}

/// Lowering and raising an empty text gives an empty text.
pub proof fn empty_text_has_no_case()
    ensures
        ascii_lower(seq![]).len() == 0,
        ascii_upper(seq![]).len() == 0,
{
}

/// The lower case of an ASCII text is that of its letters, and that of another text is what Unicode
/// says.
pub proof fn lower_case_is_that_of_ascii_or_unicode(text: Seq<char>)
    ensures
        is_ascii_chars(text) ==> lower(text).len() == text.len() && forall|i: int|
            0 <= i < text.len() ==> #[trigger] lower(text)[i] as int == (if 65 <= text[i] as int
                <= 90 {
                text[i] as int + 32
            } else {
                text[i] as int
            }),
        !is_ascii_chars(text) ==> lower(text) == unicode_lower(text),
{
}

// Searches
/// A text stands where it was put.
pub proof fn text_stands_where_it_was_put(
    before: Seq<char>,
    needle: Seq<char>,
    behind: Seq<char>,
)
    ensures
        stands_at(before + needle + behind, needle, before.len() as int),
        occurs_in(before + needle + behind, needle),
{
    let hay = before + needle + behind;
    assert(hay.subrange(before.len() as int, (before.len() + needle.len()) as int) =~= needle);
    assert(stands_at(hay, needle, before.len() as int));
}

/// A text that is found is there: what it was found in is the text with something before and behind
/// it.
pub proof fn found_text_is_there(hay: Seq<char>, needle: Seq<char>) -> (cut: (Seq<char>, Seq<char>))
    requires
        occurs_in(hay, needle),
    ensures
        hay == cut.0 + needle + cut.1,
{
    let at = choose|at: int| stands_at(hay, needle, at);
    let before = hay.take(at);
    let behind = hay.skip(at + needle.len());
    assert(hay =~= before + hay.subrange(at, at + needle.len()) + behind);
    (before, behind)
}

/// A text begins with another exactly if it is the other with something behind it.
pub proof fn beginning_is_a_cut(hay: Seq<char>, needle: Seq<char>)
    ensures
        stands_at(hay, needle, 0) <==> hay.len() >= needle.len() && forall|i: int|
            0 <= i < needle.len() ==> hay[i] == #[trigger] needle[i],
{
    if hay.len() >= needle.len() {
        let head = hay.subrange(0, needle.len() as int);
        if forall|i: int| 0 <= i < needle.len() ==> hay[i] == #[trigger] needle[i] {
            assert(head =~= needle);
        }
        if head == needle {
            assert forall|i: int| 0 <= i < needle.len() implies hay[i] == #[trigger] needle[i] by {
                assert(head[i] == hay[i]);
            }
        }
    }
}

/// The numbers of the characters with the Unicode property `White_Space`.
pub open spec fn white_space_numbers() -> Seq<int> {
    seq![
        9int, 10, 11, 12, 13, 32, 133, 160, 5760, 8192, 8193, 8194, 8195, 8196, 8197, 8198, 8199,
        8200, 8201, 8202, 8232, 8233, 8239, 8287, 12288,
    ]
}

/// White space is the twenty-five characters that Unicode lists, and no other.
pub proof fn white_space_is_what_unicode_lists(c: char)
    ensures
        white_space(c) <==> white_space_numbers().contains(c as int),
{
    let list = white_space_numbers();
    let n = c as int;
    if white_space(c) {
        let at = if n <= 13 {
            n - 9
        } else if n == 32 {
            5
        } else if n == 133 {
            6
        } else if n == 160 {
            7
        } else if n == 5760 {
            8
        } else if n <= 8202 {
            n - 8192 + 9
        } else if n == 8232 {
            20
        } else if n == 8233 {
            21
        } else if n == 8239 {
            22
        } else if n == 8287 {
            23
        } else {
            24int
        };
        assert(list[at] == n);
    }
    if list.contains(n) {
        let at = choose|at: int| 0 <= at < list.len() && list[at] == n;
        assert(0 <= at < 25);
    }
}

/// The texts of a list are the texts of its items, in their order.
pub proof fn texts_are_those_of_the_items(list: Seq<String>, i: int)
    requires
        0 <= i < list.len(),
    ensures
        texts(list).len() == list.len(),
        texts(list)[i] == list[i]@,
{
}

// Cuts
/// A text is cut at its first mark exactly if nothing before the cut is that mark.
pub proof fn first_cut_is_at_the_first_mark(
    text: Seq<char>,
    mark: char,
    before: Seq<char>,
    behind: Seq<char>,
)
    ensures
        split_at_first(text, mark) == Some((before, behind)) <==> text == before + seq![mark]
            + behind && !before.contains(mark),
        split_at_first(text, mark) is None <==> !text.contains(mark),
{
    first_index_is_first(text, mark);
    let put = before + seq![mark] + behind;
    first_index_is_first(put, mark);
    assert(put[before.len() as int] == mark);
    if !before.contains(mark) {
        assert forall|j: int| 0 <= j < before.len() implies put[j] != mark by {
            assert(before.contains(before[j]));
        }
        let at = first_index(put, mark)->0;
        assert(at == before.len());
        assert(put.take(at) =~= before);
        assert(put.skip(at + 1) =~= behind);
    }
    match first_index(text, mark) {
        Some(at) => {
            assert(text[at] == mark);
            assert(text =~= text.take(at) + seq![mark] + text.skip(at + 1));
        },
        None => {},
    }
}

/// A text is cut at its last mark exactly if nothing behind the cut is that mark.
pub proof fn last_cut_is_at_the_last_mark(
    text: Seq<char>,
    mark: char,
    before: Seq<char>,
    behind: Seq<char>,
)
    ensures
        split_at_last(text, mark) == Some((before, behind)) <==> text == before + seq![mark]
            + behind && !behind.contains(mark),
        split_at_last(text, mark) is None <==> !text.contains(mark),
{
    last_index_is_last(text, mark);
    let put = before + seq![mark] + behind;
    last_index_is_last(put, mark);
    assert(put[before.len() as int] == mark);
    if !behind.contains(mark) {
        assert forall|j: int| before.len() < j < put.len() implies put[j] != mark by {
            assert(put[j] == behind[j - before.len() - 1]);
            assert(behind.contains(behind[j - before.len() - 1]));
        }
        let at = last_index(put, mark)->0;
        assert(at == before.len());
        assert(put.take(at) =~= before);
        assert(put.skip(at + 1) =~= behind);
    }
    match last_index(text, mark) {
        Some(at) => {
            assert(text[at] == mark);
            assert(text =~= text.take(at) + seq![mark] + text.skip(at + 1));
        },
        None => {},
    }
}

// Fields
/// Whether a text is white space alone.
pub open spec fn blank(text: Seq<char>) -> bool {
    forall|i: int| 0 <= i < text.len() ==> white_space(#[trigger] text[i])
}

/// Whether a text is a word: not empty, and without white space.
pub open spec fn is_word(text: Seq<char>) -> bool {
    text.len() > 0 && forall|i: int| 0 <= i < text.len() ==> !white_space(#[trigger] text[i])
}

/// Words with gaps: the first gap, then each word with the gap behind it.
pub open spec fn spaced(words: Seq<Seq<char>>, gaps: Seq<Seq<char>>) -> Seq<char>
    decreases words.len(),
{
    if words.len() == 0 {
        gaps[0]
    } else {
        gaps[0] + words[0] + spaced(words.drop_first(), gaps.drop_first())
    }
}

/// Whether words and gaps can be told apart: words are words, gaps are blank, and there is a gap
/// between each two words.
pub open spec fn well_spaced(words: Seq<Seq<char>>, gaps: Seq<Seq<char>>) -> bool {
    &&& gaps.len() == words.len() + 1
    &&& forall|i: int| 0 <= i < words.len() ==> is_word(#[trigger] words[i])
    &&& forall|i: int| 0 <= i < gaps.len() ==> blank(#[trigger] gaps[i])
    &&& forall|i: int| 0 < i < words.len() ==> (#[trigger] gaps[i]).len() > 0
}

proof fn leading_blank_is_passed_over(gap: Seq<char>, rest: Seq<char>)
    requires
        blank(gap),
    ensures
        fields(gap + rest) == fields(rest),
    decreases gap.len(),
{
    if gap.len() == 0 {
        assert(gap + rest =~= rest);
    } else {
        let text = gap + rest;
        assert(text[0] == gap[0]);
        let tail = gap.drop_first();
        assert(text.drop_first() =~= tail + rest);
        assert forall|i: int| 0 <= i < tail.len() implies white_space(#[trigger] tail[i]) by {
            assert(tail[i] == gap[i + 1]);
        }
        leading_blank_is_passed_over(tail, rest);
    }
}

proof fn word_is_as_long_as_it_is(word: Seq<char>, rest: Seq<char>)
    requires
        forall|i: int| 0 <= i < word.len() ==> !white_space(#[trigger] word[i]),
        rest.len() > 0 ==> white_space(rest[0]),
    ensures
        word_len(word + rest) == word.len(),
    decreases word.len(),
{
    let text = word + rest;
    if word.len() == 0 {
        assert(text =~= rest);
    } else {
        let tail = word.drop_first();
        assert(text[0] == word[0]);
        assert(text.drop_first() =~= tail + rest);
        assert forall|i: int| 0 <= i < tail.len() implies !white_space(#[trigger] tail[i]) by {
            assert(tail[i] == word[i + 1]);
        }
        word_is_as_long_as_it_is(tail, rest);
    }
}

/// The fields of words with gaps between them are those words, however many there are and whatever
/// white space the gaps are made of.
pub proof fn spaced_words_are_fields(words: Seq<Seq<char>>, gaps: Seq<Seq<char>>)
    requires
        well_spaced(words, gaps),
    ensures
        fields(spaced(words, gaps)) == words,
    decreases words.len(),
{
    assert(blank(gaps[0]));
    if words.len() == 0 {
        assert(gaps[0] + seq![] =~= gaps[0]);
        leading_blank_is_passed_over(gaps[0], seq![]);
        assert(fields(Seq::<char>::empty()) =~= seq![]);
        assert(words =~= seq![]);
    } else {
        let word = words[0];
        let others = words.drop_first();
        let other_gaps = gaps.drop_first();
        let rest = spaced(others, other_gaps);
        assert(is_word(words[0]));
        assert forall|i: int| 0 <= i < others.len() implies is_word(#[trigger] others[i]) by {
            assert(others[i] == words[i + 1]);
        }
        assert forall|i: int| 0 <= i < other_gaps.len() implies blank(#[trigger] other_gaps[i]) by {
            assert(other_gaps[i] == gaps[i + 1]);
        }
        assert forall|i: int| 0 < i < others.len() implies (#[trigger] other_gaps[i]).len() > 0 by {
            assert(other_gaps[i] == gaps[i + 1]);
        }
        spaced_words_are_fields(others, other_gaps);
        assert(gaps[0] + word + rest =~= gaps[0] + (word + rest));
        leading_blank_is_passed_over(gaps[0], word + rest);
        if rest.len() > 0 {
            assert(other_gaps[0] == gaps[1]);
            assert(blank(gaps[1]));
            if others.len() > 0 {
                assert(gaps[1].len() > 0);
                assert(rest[0] == gaps[1][0]);
            } else {
                assert(rest == gaps[1]);
            }
        }
        word_is_as_long_as_it_is(word, rest);
        let text = word + rest;
        assert(text[0] == word[0]);
        assert(text.take(word.len() as int) =~= word);
        assert(text.skip(word.len() as int) =~= rest);
        assert(seq![word] + others =~= words);
    }
}

/// Every text is words with gaps between them: its fields.
pub proof fn text_is_its_fields(text: Seq<char>) -> (gaps: Seq<Seq<char>>)
    ensures
        well_spaced(fields(text), gaps),
        spaced(fields(text), gaps) == text,
    decreases text.len(),
{
    if text.len() == 0 {
        let gaps = seq![Seq::<char>::empty()];
        assert(spaced(fields(text), gaps) =~= text);
        gaps
    } else if white_space(text[0]) {
        let rest = text.drop_first();
        let others = text_is_its_fields(rest);
        let gaps = seq![seq![text[0]] + others[0]] + others.drop_first();
        let words = fields(text);
        assert(words == fields(rest));
        assert(blank(others[0]));
        assert forall|i: int| 0 <= i < gaps.len() implies blank(#[trigger] gaps[i]) by {
            if i > 0 {
                assert(gaps[i] == others[i]);
            }
        }
        assert forall|i: int| 0 < i < words.len() implies (#[trigger] gaps[i]).len() > 0 by {
            assert(gaps[i] == others[i]);
        }
        assert(gaps.drop_first() =~= others.drop_first());
        assert(spaced(words, gaps) =~= seq![text[0]] + spaced(words, others));
        assert(seq![text[0]] + rest =~= text);
        gaps
    } else {
        word_fits(text);
        word_fits(text.drop_first());
        let count = word_len(text);
        let word = text.take(count);
        let rest = text.skip(count);
        word_has_no_blank(text);
        let others = text_is_its_fields(rest);
        let nothing = Seq::<char>::empty();
        let gaps = seq![nothing] + others;
        let words = fields(text);
        assert(words == seq![word] + fields(rest));
        assert(words.drop_first() =~= fields(rest));
        assert(gaps.drop_first() =~= others);
        assert forall|i: int| 0 <= i < words.len() implies is_word(#[trigger] words[i]) by {
            if i > 0 {
                assert(words[i] == fields(rest)[i - 1]);
            }
        }
        assert forall|i: int| 0 <= i < gaps.len() implies blank(#[trigger] gaps[i]) by {
            if i > 0 {
                assert(gaps[i] == others[i - 1]);
            }
        }
        assert forall|i: int| 0 < i < words.len() implies (#[trigger] gaps[i]).len() > 0 by {
            assert(gaps[i] == others[i - 1]);
            if i == 1 {
                if others[0].len() == 0 {
                    let next = fields(rest)[0];
                    assert(is_word(fields(rest)[0]));
                    assert(rest[0] == next[0]);
                }
            }
        }
        assert(spaced(words, gaps) =~= word + spaced(fields(rest), others));
        assert(word + rest =~= text);
        gaps
    }
}

/// The first word of a text holds no white space, and white space stands behind it.
proof fn word_has_no_blank(text: Seq<char>)
    ensures
        0 <= word_len(text) <= text.len(),
        forall|i: int| 0 <= i < word_len(text) ==> !white_space(#[trigger] text.take(word_len(text))[i]),
        word_len(text) < text.len() ==> white_space(text[word_len(text)]),
    decreases text.len(),
{
    if text.len() > 0 && !white_space(text[0]) {
        let rest = text.drop_first();
        word_has_no_blank(rest);
        let count = word_len(text);
        assert forall|i: int| 0 <= i < count implies !white_space(#[trigger] text.take(count)[i]) by {
            if i > 0 {
                assert(text[i] == rest.take(count - 1)[i - 1]);
            }
        }
    }
}

// Lines
/// A line feed ends a line: the text before it is the first line, and the lines of what stands
/// behind it follow. A carriage return before the line feed belongs to the end.
pub proof fn line_feed_ends_a_line(line: Seq<char>, rest: Seq<char>)
    requires
        !line.contains('\n'),
    ensures
        lines(line + seq!['\r', '\n'] + rest) == seq![line] + lines(rest),
        line.len() == 0 || line.last() != '\r' ==> lines(line + seq!['\n'] + rest) == seq![line]
            + lines(rest),
{
    let plain = line + seq!['\n'] + rest;
    first_cut_is_at_the_first_mark(plain, '\n', line, rest);
    let at = first_index(plain, '\n')->0;
    assert(plain[line.len() as int] == '\n');
    let returned = line + seq!['\r'];
    let whole = line + seq!['\r', '\n'] + rest;
    assert(whole =~= returned + seq!['\n'] + rest);
    assert(!returned.contains('\n')) by {
        assert forall|i: int| 0 <= i < returned.len() implies returned[i] != '\n' by {
            if i < line.len() {
                assert(line.contains(line[i]));
            }
        }
    }
    first_cut_is_at_the_first_mark(whole, '\n', returned, rest);
    assert(returned.last() == '\r');
    assert(returned.drop_last() =~= line);
}

/// A text without a line feed is one line, an empty one is none.
pub proof fn last_line_needs_no_end(line: Seq<char>)
    requires
        !line.contains('\n'),
    ensures
        lines(line) == (if line.len() == 0 {
            seq![]
        } else {
            seq![line]
        }),
{
    first_cut_is_at_the_first_mark(line, '\n', seq![], seq![]);
}

// Numbers
/// A character is the digit of a value exactly if it is its figure, or its letter of either case.
pub proof fn digit_is_a_figure_or_a_letter(c: char, radix: int, value: int)
    requires
        2 <= radix <= 36,
    ensures
        digit(c, radix) == Some(value) <==> 0 <= value < radix && (value < 10 && c as int == 48
            + value || value >= 10 && (c as int == 87 + value || c as int == 55 + value)),
{
}

/// The first digit counts as often as the radix says for the digits behind it.
pub proof fn first_digit_counts_most(first: char, rest: Seq<char>, radix: int)
    requires
        1 <= radix,
    ensures
        digits_value(seq![], radix) == 0,
        digits_value(seq![first] + rest, radix) == digit(first, radix)->0 * pow(radix, rest.len())
            + digits_value(rest, radix),
    decreases rest.len(),
{
    reveal(pow);
    let text = seq![first] + rest;
    let value = digit(first, radix)->0;
    if rest.len() == 0 {
        assert(text.drop_last() =~= seq![]);
        assert(text.last() == first);
        assert(digits_value(text.drop_last(), radix) == 0);
        assert(value * 1 == value);
    } else {
        let head = rest.drop_last();
        assert(text.drop_last() =~= seq![first] + head);
        assert(text.last() == rest.last());
        first_digit_counts_most(first, head, radix);
        let place = pow(radix, head.len());
        let tail = digits_value(head, radix);
        assert(pow(radix, rest.len()) == radix * place);
        assert((value * place + tail) * radix == value * (radix * place) + tail * radix)
            by (nonlinear_arith);
    }
}

/// A text is read as a number exactly if it is digits, at least one, that write that number and no
/// more than the limit, with or without a plus sign before them.
pub proof fn number_is_written_in_digits(
    text: Seq<char>,
    digits: Seq<char>,
    radix: int,
    max: int,
)
    requires
        2 <= radix <= 36,
        text == digits || text == seq!['+'] + digits,
        digits.len() > 0 ==> digits[0] != '+',
    ensures
        number(text, radix, max) == (if digits.len() > 0 && (forall|i: int|
            0 <= i < digits.len() ==> digit(#[trigger] digits[i], radix) is Some)
            && digits_value(digits, radix) <= max {
            Some(digits_value(digits, radix))
        } else {
            None::<int>
        }),
{
    if text == digits {
        assert(unsigned_part(text) == digits);
    } else {
        assert((seq!['+'] + digits).drop_first() =~= digits);
    }
}

/// A sign is no digit: a text with two plus signs, or with a minus sign, is no number.
pub proof fn signs_are_no_digits(text: Seq<char>, radix: int, max: int)
    requires
        2 <= radix <= 36,
        text.len() > 0 && text[0] == '-' || text.len() > 1 && text[0] == '+' && text[1] == '+',
    ensures
        number(text, radix, max) is None,
{
    let digits = unsigned_part(text);
    assert(digit(digits[0], radix) is None);
}

/// A number in base ten has no zero at its head, unless it is zero.
pub proof fn decimal_has_no_leading_zero(value: nat)
    ensures
        decimal(value).len() > 0,
        decimal(value)[0] == '0' <==> value == 0,
        value < 10 <==> decimal(value).len() == 1,
        forall|i: int|
            0 <= i < decimal(value).len() ==> 48 <= (#[trigger] decimal(value)[i]) as int <= 57,
    decreases value,
{
    decimal_digits(value);
    assert(all_digits(decimal(value), 10));
    if value >= 10 {
        decimal_has_no_leading_zero(value / 10);
        assert(decimal(value)[0] == decimal(value / 10)[0]);
    }
    assert forall|i: int| 0 <= i < decimal(value).len() implies 48 <= (#[trigger] decimal(
        value,
    )[i]) as int <= 57 by {
        assert(digit(decimal(value)[i], 10) is Some);
    }
}

/// A text that may be missing is missing exactly if it is not there, and else is that text.
pub proof fn optional_text_is_the_text(text: &str)
    ensures
        optional_text(Some(text)) == Some(text@),
        optional_text(None) is None,
{
}

} // verus!
