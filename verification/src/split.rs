//! Cutting text at marks, into fields and into lines.
use vstd::prelude::*;

use crate::text::{chars_of, is_white_space, text_of, texts, white_space};

verus! {

/// Where `mark` first stands in `text`.
pub open spec fn first_index(text: Seq<char>, mark: char) -> Option<int>
    decreases text.len(),
{
    if text.len() == 0 {
        None
    } else if text[0] == mark {
        Some(0)
    } else {
        match first_index(text.drop_first(), mark) {
            Some(at) => Some(at + 1),
            None => None,
        }
    }
}

/// Where `mark` last stands in `text`.
pub open spec fn last_index(text: Seq<char>, mark: char) -> Option<int>
    decreases text.len(),
{
    if text.len() == 0 {
        None
    } else if text.last() == mark {
        Some(text.len() - 1)
    } else {
        last_index(text.drop_last(), mark)
    }
}

/// Where `first` with `second` right behind it last stands in `text`.
pub open spec fn last_pair_index(text: Seq<char>, first: char, second: char) -> Option<int>
    decreases text.len(),
{
    if text.len() < 2 {
        None
    } else if text[text.len() - 2] == first && text.last() == second {
        Some(text.len() - 2)
    } else {
        last_pair_index(text.drop_last(), first, second)
    }
}

/// What stands before and behind the first `mark`.
pub open spec fn split_at_first(text: Seq<char>, mark: char) -> Option<(Seq<char>, Seq<char>)> {
    match first_index(text, mark) {
        Some(at) => Some((text.take(at), text.skip(at + 1))),
        None => None,
    }
}

/// What stands before and behind the last `mark`.
pub open spec fn split_at_last(text: Seq<char>, mark: char) -> Option<(Seq<char>, Seq<char>)> {
    match last_index(text, mark) {
        Some(at) => Some((text.take(at), text.skip(at + 1))),
        None => None,
    }
}

/// The first `mark` of a text: it stands there, and not before.
pub proof fn first_index_is_first(text: Seq<char>, mark: char)
    ensures
        match first_index(text, mark) {
            Some(at) => 0 <= at < text.len() && text[at] == mark && (forall|j: int|
                0 <= j < at ==> text[j] != mark),
            None => forall|j: int| 0 <= j < text.len() ==> text[j] != mark,
        },
    decreases text.len(),
{
    if text.len() > 0 && text[0] != mark {
        let rest = text.drop_first();
        first_index_is_first(rest, mark);
        assert forall|j: int| 0 < j < text.len() implies text[j] == rest[j - 1] by {}
    }
}

/// The last `mark` of a text: it stands there, and not behind.
pub proof fn last_index_is_last(text: Seq<char>, mark: char)
    ensures
        match last_index(text, mark) {
            Some(at) => 0 <= at < text.len() && text[at] == mark && (forall|j: int|
                at < j < text.len() ==> text[j] != mark),
            None => forall|j: int| 0 <= j < text.len() ==> text[j] != mark,
        },
    decreases text.len(),
{
    if text.len() > 0 && text.last() != mark {
        let rest = text.drop_last();
        last_index_is_last(rest, mark);
        assert forall|j: int| 0 <= j < text.len() - 1 implies text[j] == rest[j] by {}
    }
}

/// The last `first` with `second` right behind it: it stands there, and not behind.
pub proof fn last_pair_index_is_last(text: Seq<char>, first: char, second: char)
    ensures
        match last_pair_index(text, first, second) {
            Some(at) => 0 <= at < text.len() - 1 && text[at] == first && text[at + 1] == second && (
            forall|j: int|
                at < j < text.len() - 1 ==> !(#[trigger] text[j] == first && text[j + 1]
                    == second)),
            None => forall|j: int|
                0 <= j < text.len() - 1 ==> !(#[trigger] text[j] == first && text[j + 1]
                    == second),
        },
    decreases text.len(),
{
    if text.len() >= 2 && !(text[text.len() - 2] == first && text.last() == second) {
        let rest = text.drop_last();
        last_pair_index_is_last(rest, first, second);
        assert forall|j: int| 0 <= j < text.len() - 1 implies text[j] == rest[j] by {}
    }
}

/// Finds the first `mark`.
pub fn find_first(text: &[char], mark: char) -> (found: Option<usize>)
    ensures
        match found {
            Some(at) => first_index(text@, mark) == Some(at as int),
            None => first_index(text@, mark) is None,
        },
{
    proof {
        first_index_is_first(text@, mark);
    }
    let mut i: usize = 0;
    while i < text.len()
        invariant
            i <= text@.len(),
            forall|j: int| 0 <= j < i ==> text@[j] != mark,
            match first_index(text@, mark) {
                Some(at) => 0 <= at < text@.len() && text@[at] == mark && (forall|j: int|
                    0 <= j < at ==> text@[j] != mark),
                None => forall|j: int| 0 <= j < text@.len() ==> text@[j] != mark,
            },
        decreases text@.len() - i,
    {
        if text[i] == mark {
            return Some(i);
        }
        i += 1;
    }
    None
}

/// Finds the last `mark`.
pub fn find_last(text: &[char], mark: char) -> (found: Option<usize>)
    ensures
        match found {
            Some(at) => last_index(text@, mark) == Some(at as int),
            None => last_index(text@, mark) is None,
        },
{
    proof {
        last_index_is_last(text@, mark);
    }
    let mut i: usize = text.len();
    while i > 0
        invariant
            i <= text@.len(),
            forall|j: int| i <= j < text@.len() ==> text@[j] != mark,
            match last_index(text@, mark) {
                Some(at) => 0 <= at < text@.len() && text@[at] == mark && (forall|j: int|
                    at < j < text@.len() ==> text@[j] != mark),
                None => forall|j: int| 0 <= j < text@.len() ==> text@[j] != mark,
            },
        decreases i,
    {
        i -= 1;
        if text[i] == mark {
            return Some(i);
        }
    }
    None
}

/// Finds the last `first` with `second` right behind it.
pub fn find_last_pair(text: &[char], first: char, second: char) -> (found: Option<usize>)
    ensures
        match found {
            Some(at) => last_pair_index(text@, first, second) == Some(at as int),
            None => last_pair_index(text@, first, second) is None,
        },
{
    let mut end: usize = text.len();
    assert(text@.take(end as int) =~= text@);
    while end >= 2
        invariant
            end <= text@.len(),
            last_pair_index(text@.take(end as int), first, second) == last_pair_index(
                text@,
                first,
                second,
            ),
        decreases end,
    {
        if text[end - 2] == first && text[end - 1] == second {
            return Some(end - 2);
        }
        assert(text@.take(end as int).drop_last() =~= text@.take(end - 1));
        end -= 1;
    }
    None
}

/// The number of characters before the first white space.
pub open spec fn word_len(text: Seq<char>) -> int
    decreases text.len(),
{
    if text.len() == 0 || white_space(text[0]) {
        0
    } else {
        1 + word_len(text.drop_first())
    }
}

/// A word is no longer than the text it begins.
pub proof fn word_fits(text: Seq<char>)
    ensures
        0 <= word_len(text) <= text.len(),
    decreases text.len(),
{
    if text.len() > 0 {
        word_fits(text.drop_first());
    }
}

/// The words of a text, that is what stands between runs of white space.
pub open spec fn fields(text: Seq<char>) -> Seq<Seq<char>>
    decreases text.len(),
    via fields_shrink
{
    if text.len() == 0 {
        seq![]
    } else if white_space(text[0]) {
        fields(text.drop_first())
    } else {
        seq![text.take(word_len(text))] + fields(text.skip(word_len(text)))
    }
}

#[via_fn]
proof fn fields_shrink(text: Seq<char>) {
    word_fits(text);
    if text.len() > 0 {
        word_fits(text.drop_first());
    }
}

/// Cuts `text` into its words.
pub fn split_fields(text: &str) -> (words: Vec<String>)
    ensures
        texts(words@) == fields(text@),
{
    let chars = chars_of(text);
    let mut words: Vec<String> = Vec::new();
    let mut i: usize = 0;
    assert(chars@.skip(0) =~= text@);
    while i < chars.len()
        invariant
            chars@ == text@,
            i <= chars@.len(),
            texts(words@) + fields(chars@.skip(i as int)) == fields(text@),
        decreases chars@.len() - i,
    {
        let ghost rest = chars@.skip(i as int);
        assert(rest[0] == chars@[i as int]);
        if is_white_space(chars[i]) {
            assert(rest.drop_first() =~= chars@.skip(i + 1));
            i += 1;
        } else {
            let start: usize = i;
            while i < chars.len() && !is_white_space(chars[i])
                invariant
                    start <= i <= chars@.len(),
                    rest == chars@.skip(start as int),
                    word_len(rest) == i - start + word_len(chars@.skip(i as int)),
                decreases chars@.len() - i,
            {
                assert(chars@.skip(i as int)[0] == chars@[i as int]);
                assert(chars@.skip(i as int).drop_first() =~= chars@.skip(i + 1));
                i += 1;
            }
            proof {
                word_fits(rest);
                if i < chars@.len() {
                    assert(chars@.skip(i as int)[0] == chars@[i as int]);
                }
                assert(word_len(chars@.skip(i as int)) == 0);
                if i == start {
                    assert(chars@.skip(i as int) =~= rest);
                }
                assert(rest.take(word_len(rest)) =~= chars@.subrange(start as int, i as int));
                assert(rest.skip(word_len(rest)) =~= chars@.skip(i as int));
            }
            let ghost before = words@;
            words.push(text_of(&chars[start..i]));
            assert(texts(words@) =~= texts(before) + seq![rest.take(word_len(rest))]);
            assert(texts(words@) + fields(chars@.skip(i as int)) =~= texts(before) + fields(rest));
        }
    }
    assert(chars@.skip(i as int) =~= Seq::<char>::empty());
    assert(texts(words@) =~= texts(words@) + fields(chars@.skip(i as int)));
    words
}

/// A line without the carriage return that ends it.
pub open spec fn without_return(line: Seq<char>) -> Seq<char> {
    if line.len() > 0 && line.last() == '\r' {
        line.drop_last()
    } else {
        line
    }
}

/// The lines of a text. A line feed ends a line, with or without a carriage return before it;
/// what stands behind the last line feed is a line unless it is empty.
pub open spec fn lines(text: Seq<char>) -> Seq<Seq<char>>
    decreases text.len(),
    via lines_shrink
{
    if text.len() == 0 {
        seq![]
    } else {
        match first_index(text, '\n') {
            Some(end) => seq![without_return(text.take(end))] + lines(text.skip(end + 1)),
            None => seq![text],
        }
    }
}

#[via_fn]
proof fn lines_shrink(text: Seq<char>) {
    first_index_is_first(text, '\n');
}

/// Cuts `text` into its lines.
pub fn split_lines(text: &str) -> (list: Vec<String>)
    ensures
        texts(list@) == lines(text@),
{
    let chars = chars_of(text);
    let mut list: Vec<String> = Vec::new();
    let mut start: usize = 0;
    assert(chars@.skip(0) =~= text@);
    while start < chars.len()
        invariant
            chars@ == text@,
            start <= chars@.len(),
            texts(list@) + lines(chars@.skip(start as int)) == lines(text@),
        decreases chars@.len() - start,
    {
        let ghost rest = chars@.skip(start as int);
        let ghost before = list@;
        assert(rest =~= chars@.subrange(start as int, chars@.len() as int));
        match find_first(&chars[start..chars.len()], '\n') {
            Some(length) => {
                proof {
                    first_index_is_first(rest, '\n');
                }
                let end: usize = start + length;
                assert(rest.take(length as int) =~= chars@.subrange(start as int, end as int));
                let stop: usize = if end > start && chars[end - 1] == '\r' {
                    end - 1
                } else {
                    end
                };
                assert(without_return(rest.take(length as int)) =~= chars@.subrange(
                    start as int,
                    stop as int,
                ));
                list.push(text_of(&chars[start..stop]));
                start = end + 1;
                assert(rest.skip(length + 1) =~= chars@.skip(start as int));
                assert(texts(list@) =~= texts(before) + seq![
                    without_return(rest.take(length as int)),
                ]);
                assert(texts(list@) + lines(chars@.skip(start as int)) =~= texts(before) + lines(
                    rest,
                ));
            },
            None => {
                list.push(text_of(&chars[start..chars.len()]));
                start = chars.len();
                assert(chars@.skip(start as int) =~= Seq::<char>::empty());
                assert(texts(list@) =~= texts(before) + seq![rest]);
                assert(texts(list@) + lines(chars@.skip(start as int)) =~= texts(before) + lines(
                    rest,
                ));
            },
        }
    }
    assert(chars@.skip(start as int) =~= Seq::<char>::empty());
    assert(texts(list@) =~= texts(list@) + lines(chars@.skip(start as int)));
    list
}

/// Texts that agree up to and behind a mark that neither first part holds have the same parts.
pub proof fn parts_are_the_same(
    first: Seq<char>,
    second: Seq<char>,
    other_first: Seq<char>,
    other_second: Seq<char>,
    mark: char,
)
    requires
        first + seq![mark] + second == other_first + seq![mark] + other_second,
        !first.contains(mark),
        !other_first.contains(mark),
    ensures
        first == other_first,
        second == other_second,
{
    let left = first + seq![mark] + second;
    let right = other_first + seq![mark] + other_second;
    assert(left[first.len() as int] == mark);
    assert(right[other_first.len() as int] == mark);
    if first.len() < other_first.len() {
        assert(right[first.len() as int] == other_first[first.len() as int]);
        assert(other_first.contains(mark));
    }
    if other_first.len() < first.len() {
        assert(left[other_first.len() as int] == first[other_first.len() as int]);
        assert(first.contains(mark));
    }
    assert(left.take(first.len() as int) =~= first);
    assert(right.take(first.len() as int) =~= other_first);
    assert(left.skip(first.len() + 1int) =~= second);
    assert(right.skip(first.len() + 1int) =~= other_second);
}

/// Texts that agree and have the same mark before second parts without it have the same parts.
pub proof fn last_parts_are_the_same(
    first: Seq<char>,
    second: Seq<char>,
    other_first: Seq<char>,
    other_second: Seq<char>,
    mark: char,
)
    requires
        first + seq![mark] + second == other_first + seq![mark] + other_second,
        !second.contains(mark),
        !other_second.contains(mark),
    ensures
        first == other_first,
        second == other_second,
{
    let left = first + seq![mark] + second;
    let right = other_first + seq![mark] + other_second;
    assert(left.len() == first.len() + 1 + second.len());
    assert(right.len() == other_first.len() + 1 + other_second.len());
    assert(left[first.len() as int] == mark);
    assert(right[other_first.len() as int] == mark);
    if first.len() < other_first.len() {
        assert(left[other_first.len() as int] == second[other_first.len() - first.len() - 1]);
        assert(second.contains(mark));
    }
    if other_first.len() < first.len() {
        assert(right[first.len() as int] == other_second[first.len() - other_first.len() - 1]);
        assert(other_second.contains(mark));
    }
    assert(left.take(first.len() as int) =~= first);
    assert(right.take(first.len() as int) =~= other_first);
    assert(left.skip(first.len() + 1int) =~= second);
    assert(right.skip(first.len() + 1int) =~= other_second);
}

} // verus!
