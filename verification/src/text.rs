//! Text as sequences of characters: case and searches.
use vstd::prelude::*;
use vstd::utf8::is_ascii_chars;

verus! {

/// `String::push` appends the character at the end of the text.
pub assume_specification[ String::push ](text: &mut String, ch: char)
    ensures
        final(text)@ == old(text)@.push(ch),
;

/// The characters with the Unicode property `White_Space`.
pub open spec fn white_space(c: char) -> bool {
    ||| '\u{9}' <= c <= '\u{d}'
    ||| c == '\u{20}'
    ||| c == '\u{85}'
    ||| c == '\u{a0}'
    ||| c == '\u{1680}'
    ||| '\u{2000}' <= c <= '\u{200a}'
    ||| c == '\u{2028}'
    ||| c == '\u{2029}'
    ||| c == '\u{202f}'
    ||| c == '\u{205f}'
    ||| c == '\u{3000}'
}

/// Tells whether a character has the Unicode property `White_Space`.
pub fn is_white_space(c: char) -> (white: bool)
    ensures
        white == white_space(c),
{
    ('\u{9}' <= c && c <= '\u{d}') || c == '\u{20}' || c == '\u{85}' || c == '\u{a0}' || c
        == '\u{1680}' || ('\u{2000}' <= c && c <= '\u{200a}') || c == '\u{2028}' || c
        == '\u{2029}' || c == '\u{202f}' || c == '\u{205f}' || c == '\u{3000}'
}

/// Reads the characters of `text`, first to last.
pub fn chars_of(text: &str) -> (chars: Vec<char>)
    ensures
        chars@ == text@,
{
    let mut chars: Vec<char> = Vec::new();
    for c in it: text.chars()
        invariant
            it.seq() == text@,
            chars@ == text@.take(it.index()),
    {
        chars.push(c);
    }
    chars
}

/// The text made of `chars`.
pub fn text_of(chars: &[char]) -> (text: String)
    ensures
        text@ == chars@,
{
    let mut text = String::new();
    let mut i: usize = 0;
    while i < chars.len()
        invariant
            i <= chars@.len(),
            text@ == chars@.take(i as int),
        decreases chars@.len() - i,
    {
        text.push(chars[i]);
        i += 1;
        assert(chars@.take(i as int) =~= chars@.take(i - 1).push(chars@[i - 1]));
    }
    assert(chars@.take(i as int) =~= chars@);
    text
}

/// Tells whether two runs of characters are the same.
pub fn same_chars(left: &[char], right: &[char]) -> (same: bool)
    ensures
        same == (left@ == right@),
{
    if left.len() != right.len() {
        return false;
    }
    let mut i: usize = 0;
    while i < left.len()
        invariant
            left@.len() == right@.len(),
            i <= left@.len(),
            forall|j: int| 0 <= j < i ==> left@[j] == right@[j],
        decreases left@.len() - i,
    {
        if left[i] != right[i] {
            return false;
        }
        i += 1;
    }
    assert(left@ =~= right@);
    true
}

/// Tells whether two texts are the same.
pub fn same_text(left: &str, right: &str) -> (same: bool)
    ensures
        same == (left@ == right@),
{
    let left_chars = chars_of(left);
    let right_chars = chars_of(right);
    same_chars(&left_chars, &right_chars)
}

// Case
/// The ASCII lower case of a character: other characters stay as they are.
pub open spec fn lower_char(c: char) -> char {
    if 'A' <= c <= 'Z' {
        (c as u8 + 32) as char
    } else {
        c
    }
}

/// The ASCII upper case of a character: other characters stay as they are.
pub open spec fn upper_char(c: char) -> char {
    if 'a' <= c <= 'z' {
        (c as u8 - 32) as char
    } else {
        c
    }
}

/// A text with its ASCII letters in lower case.
pub open spec fn ascii_lower(text: Seq<char>) -> Seq<char> {
    text.map_values(|c: char| lower_char(c))
}

/// A text with its ASCII letters in upper case.
pub open spec fn ascii_upper(text: Seq<char>) -> Seq<char> {
    text.map_values(|c: char| upper_char(c))
}

/// Puts the ASCII letters of `text` in lower case.
pub fn to_ascii_lower(text: &str) -> (lower: String)
    ensures
        lower@ == ascii_lower(text@),
{
    let chars = chars_of(text);
    let mut lower = String::new();
    let mut i: usize = 0;
    while i < chars.len()
        invariant
            chars@ == text@,
            i <= chars@.len(),
            lower@ == ascii_lower(text@).take(i as int),
        decreases chars@.len() - i,
    {
        let c = chars[i];
        let low: char = if 'A' <= c && c <= 'Z' {
            (c as u8 + 32) as char
        } else {
            c
        };
        lower.push(low);
        i += 1;
        assert(ascii_lower(text@).take(i as int) =~= ascii_lower(text@).take(i - 1).push(
            ascii_lower(text@)[i - 1],
        ));
    }
    assert(ascii_lower(text@).take(i as int) =~= ascii_lower(text@));
    lower
}

/// Puts the ASCII letters of `text` in upper case.
pub fn to_ascii_upper(text: &str) -> (upper: String)
    ensures
        upper@ == ascii_upper(text@),
{
    let chars = chars_of(text);
    let mut upper = String::new();
    let mut i: usize = 0;
    while i < chars.len()
        invariant
            chars@ == text@,
            i <= chars@.len(),
            upper@ == ascii_upper(text@).take(i as int),
        decreases chars@.len() - i,
    {
        let c = chars[i];
        let up: char = if 'a' <= c && c <= 'z' {
            (c as u8 - 32) as char
        } else {
            c
        };
        upper.push(up);
        i += 1;
        assert(ascii_upper(text@).take(i as int) =~= ascii_upper(text@).take(i - 1).push(
            ascii_upper(text@)[i - 1],
        ));
    }
    assert(ascii_upper(text@).take(i as int) =~= ascii_upper(text@));
    upper
}

/// Lowering twice is lowering once, and a lowered text holds no ASCII capital.
pub proof fn lower_is_idempotent(text: Seq<char>)
    ensures
        ascii_lower(ascii_lower(text)) == ascii_lower(text),
        forall|i: int| 0 <= i < text.len() ==> !('A' <= #[trigger] ascii_lower(text)[i] <= 'Z'),
{
    assert(ascii_lower(ascii_lower(text)) =~= ascii_lower(text));
}

/// What `str::to_lowercase` makes of a text that is not all ASCII.
pub uninterp spec fn unicode_lower(text: Seq<char>) -> Seq<char>;

/// A text in lower case, by the rules of Unicode.
pub open spec fn lower(text: Seq<char>) -> Seq<char> {
    if is_ascii_chars(text) {
        ascii_lower(text)
    } else {
        unicode_lower(text)
    }
}

/// `str::to_lowercase`: an ASCII text gets its letters in lower case. Of another text it makes what
/// the Unicode lower case mappings say; the outcome depends on the text alone, and nothing more is
/// said of it here.
#[verifier::external_body]
fn to_lowercase(text: &str) -> (low: String)
    ensures
        is_ascii_chars(text@) ==> low@ == ascii_lower(text@),
        !is_ascii_chars(text@) ==> low@ == unicode_lower(text@),
{
    text.to_lowercase()
}

/// Puts a text in lower case.
pub fn to_lower(text: &str) -> (low: String)
    ensures
        low@ == lower(text@),
{
    to_lowercase(text)
}

// Searches
/// Whether `needle` stands in `hay` at `at`.
pub open spec fn stands_at(hay: Seq<char>, needle: Seq<char>, at: int) -> bool {
    0 <= at && at + needle.len() <= hay.len() && hay.subrange(at, at + needle.len()) == needle
}

/// Whether `needle` stands somewhere in `hay`.
pub open spec fn occurs_in(hay: Seq<char>, needle: Seq<char>) -> bool {
    exists|at: int| stands_at(hay, needle, at)
}

/// Tells whether `hay` begins with `needle`.
pub fn starts_with(hay: &str, needle: &str) -> (found: bool)
    ensures
        found == stands_at(hay@, needle@, 0),
{
    let hay_chars = chars_of(hay);
    let needle_chars = chars_of(needle);
    if needle_chars.len() > hay_chars.len() {
        return false;
    }
    same_chars(&hay_chars[0..needle_chars.len()], &needle_chars)
}

/// Tells whether `needle` stands somewhere in `hay`.
pub fn contains_text(hay: &str, needle: &str) -> (found: bool)
    ensures
        found == occurs_in(hay@, needle@),
{
    let hay_chars = chars_of(hay);
    let needle_chars = chars_of(needle);
    let width: usize = needle_chars.len();
    if width > hay_chars.len() {
        return false;
    }
    let last: usize = hay_chars.len() - width;
    let mut at: usize = 0;
    loop
        invariant
            hay_chars@ == hay@,
            needle_chars@ == needle@,
            width == needle@.len(),
            last + width == hay@.len(),
            last + width <= usize::MAX,
            at <= last,
            forall|j: int| 0 <= j < at ==> !stands_at(hay@, needle@, j),
        decreases last - at,
    {
        if same_chars(&hay_chars[at..at + width], &needle_chars) {
            assert(stands_at(hay@, needle@, at as int));
            return true;
        }
        if at == last {
            return false;
        }
        at += 1;
    }
}

/// The characters of a text that may be missing.
pub open spec fn optional_text(text: Option<&str>) -> Option<Seq<char>> {
    match text {
        Some(found) => Some(found@),
        None => None,
    }
}

/// The texts of a list.
pub open spec fn texts(list: Seq<String>) -> Seq<Seq<char>> {
    list.map_values(|text: String| text@)
}

} // verus!
