//! Numbers in text.
use vstd::arithmetic::power::pow;
use vstd::prelude::*;

use crate::text::chars_of;

verus! {

/// What a character counts as a digit in base `radix`, which is at most 36. Letters of either case
/// follow the ten figures.
pub open spec fn digit(c: char, radix: int) -> Option<int> {
    let value = if '0' <= c <= '9' {
        c as int - '0' as int
    } else if 'a' <= c <= 'z' {
        c as int - 'a' as int + 10
    } else if 'A' <= c <= 'Z' {
        c as int - 'A' as int + 10
    } else {
        radix
    };
    if value < radix {
        Some(value)
    } else {
        None
    }
}

/// Whether `text` holds digits in base `radix` alone.
pub open spec fn all_digits(text: Seq<char>, radix: int) -> bool {
    forall|i: int| 0 <= i < text.len() ==> digit(#[trigger] text[i], radix) is Some
}

/// The number that digits write.
pub open spec fn digits_value(text: Seq<char>, radix: int) -> int
    decreases text.len(),
{
    if text.len() == 0 {
        0
    } else {
        digits_value(text.drop_last(), radix) * radix + digit(text.last(), radix)->0
    }
}

/// A text without the plus sign at its head.
pub open spec fn unsigned_part(text: Seq<char>) -> Seq<char> {
    if text.len() > 0 && text[0] == '+' {
        text.drop_first()
    } else {
        text
    }
}

/// The number that a text writes in base `radix`: digits, at least one, with or without a plus sign
/// before them. `None` for other text and for a number above `max`.
pub open spec fn number(text: Seq<char>, radix: int, max: int) -> Option<int> {
    let digits = unsigned_part(text);
    if digits.len() > 0 && all_digits(digits, radix) && digits_value(digits, radix) <= max {
        Some(digits_value(digits, radix))
    } else {
        None
    }
}

/// Digits write no negative number, and more digits write no smaller one.
pub proof fn more_digits_are_no_less(text: Seq<char>, radix: int, count: int)
    requires
        all_digits(text, radix),
        1 <= radix,
        0 <= count <= text.len(),
    ensures
        0 <= digits_value(text.take(count), radix) <= digits_value(text, radix),
    decreases text.len(),
{
    if text.len() == 0 {
        assert(text.take(count) =~= text);
    } else {
        let head = text.drop_last();
        assert(all_digits(head, radix)) by {
            assert forall|i: int| 0 <= i < head.len() implies digit(
                #[trigger] head[i],
                radix,
            ) is Some by {
                assert(head[i] == text[i]);
            }
        }
        let last = digit(text[text.len() - 1], radix)->0;
        more_digits_are_no_less(head, radix, 0);
        assert(head.take(0) =~= Seq::<char>::empty());
        let before = digits_value(head, radix);
        assert(before <= before * radix) by (nonlinear_arith)
            requires
                0 <= before,
                1 <= radix,
        ;
        if count == text.len() {
            assert(text.take(count) =~= text);
        } else {
            more_digits_are_no_less(head, radix, count);
            assert(head.take(count) =~= text.take(count));
        }
    }
}

/// What a character counts as a digit.
fn digit_value(c: char, radix: u32) -> (value: Option<u32>)
    requires
        radix <= 36,
    ensures
        match value {
            Some(found) => digit(c, radix as int) == Some(found as int),
            None => digit(c, radix as int) is None,
        },
{
    let value: u32 = if '0' <= c && c <= '9' {
        c as u32 - 48
    } else if 'a' <= c && c <= 'z' {
        c as u32 - 97 + 10
    } else if 'A' <= c && c <= 'Z' {
        c as u32 - 65 + 10
    } else {
        radix
    };
    if value < radix {
        Some(value)
    } else {
        None
    }
}

/// Reads the number that `text` writes in base `radix`, up to `max`.
pub fn parse_number(text: &str, radix: u32, max: u64) -> (found: Option<u64>)
    requires
        2 <= radix <= 36,
    ensures
        match found {
            Some(value) => number(text@, radix as int, max as int) == Some(value as int),
            None => number(text@, radix as int, max as int) is None,
        },
{
    let chars = chars_of(text);
    let start: usize = if chars.len() > 0 && chars[0] == '+' {
        1
    } else {
        0
    };
    let ghost digits = unsigned_part(text@);
    assert(digits =~= chars@.skip(start as int));
    if start == chars.len() {
        return None;
    }
    let mut value: u128 = 0;
    let mut i: usize = start;
    assert(digits.take(0) =~= Seq::<char>::empty());
    while i < chars.len()
        invariant
            2 <= radix <= 36,
            chars@ == text@,
            digits == unsigned_part(text@),
            digits == chars@.skip(start as int),
            start <= i <= chars@.len(),
            forall|j: int| 0 <= j < i - start ==> digit(#[trigger] digits[j], radix as int) is Some,
            value == digits_value(digits.take(i - start), radix as int),
            value <= max,
        decreases chars@.len() - i,
    {
        assert(digits[i - start] == chars@[i as int]);
        match digit_value(chars[i], radix) {
            Some(next) => {
                assert(value * radix + next <= 0xffff_ffff_ffff_ffff * 36 + 36) by (nonlinear_arith)
                    requires
                        0 <= value <= 0xffff_ffff_ffff_ffff,
                        0 <= radix <= 36,
                        0 <= next <= 36,
                ;
                assert(0 <= value * radix) by (nonlinear_arith)
                    requires
                        0 <= value,
                        0 <= radix,
                ;
                value = value * radix as u128 + next as u128;
                i += 1;
                assert(digits.take(i - start).drop_last() =~= digits.take(i - start - 1));
                if value > max as u128 {
                    proof {
                        if all_digits(digits, radix as int) {
                            more_digits_are_no_less(digits, radix as int, i - start);
                        }
                    }
                    return None;
                }
            },
            None => {
                return None;
            },
        }
    }
    assert(digits.take(i - start) =~= digits);
    Some(value as u64)
}

/// The figure of a number below ten.
pub open spec fn figure(value: int) -> char {
    (value + 48) as u8 as char
}

/// A number in base ten, without leading zeros.
pub open spec fn decimal(value: nat) -> Seq<char>
    decreases value,
{
    if value < 10 {
        seq![figure(value as int)]
    } else {
        decimal(value / 10).push(figure((value % 10) as int))
    }
}

/// Writes a number in base ten.
pub fn to_decimal(value: u64) -> (text: String)
    ensures
        text@ == decimal(value as nat),
    decreases value,
{
    let last: char = ((value % 10) as u8 + 48) as char;
    if value < 10 {
        let mut text = String::new();
        text.push(last);
        assert(text@ =~= seq![figure(value as int)]);
        text
    } else {
        let mut text = to_decimal(value / 10);
        text.push(last);
        text
    }
}

/// A number in base ten is made of figures, and they write that number.
pub proof fn decimal_digits(value: nat)
    ensures
        decimal(value).len() > 0,
        all_digits(decimal(value), 10),
        digits_value(decimal(value), 10) == value,
    decreases value,
{
    let text = decimal(value);
    if value < 10 {
        assert(text.drop_last() =~= Seq::<char>::empty());
        assert(text.last() == figure(value as int));
        assert(digits_value(text.drop_last(), 10) == 0);
    } else {
        decimal_digits(value / 10);
        let head = decimal(value / 10);
        assert(text.drop_last() =~= head);
        assert forall|i: int| 0 <= i < text.len() implies digit(#[trigger] text[i], 10) is Some by {
            if i < head.len() {
                assert(text[i] == head[i]);
            }
        }
    }
}

/// Reading a number in base ten gives back the number that was written.
pub proof fn decimal_is_read(value: nat, max: int)
    requires
        value <= max,
    ensures
        number(decimal(value), 10, max) == Some(value as int),
{
    decimal_digits(value);
    assert(digit(decimal(value)[0], 10) is Some);
    assert(unsigned_part(decimal(value)) == decimal(value));
}

/// The capital hexadecimal figure of a number below sixteen.
pub open spec fn hex_figure(value: int) -> char {
    if value < 10 {
        figure(value)
    } else {
        (value + 55) as u8 as char
    }
}

/// A number as `width` hexadecimal figures.
pub open spec fn hex(value: nat, width: nat) -> Seq<char>
    decreases width,
{
    if width == 0 {
        seq![]
    } else {
        hex(value / 16, (width - 1) as nat).push(hex_figure((value % 16) as int))
    }
}

/// Hexadecimal figures are as many as they are asked to be, are ASCII, and write the number.
pub proof fn hex_digits(value: nat, width: nat)
    requires
        value < pow(16, width),
    ensures
        hex(value, width).len() == width,
        forall|i: int|
            #![trigger hex(value, width)[i]]
            0 <= i < width ==> digit(hex(value, width)[i], 16) is Some && hex(value, width)[i]
                != '+' && hex(value, width)[i] != ':' && hex(value, width)[i] <= '\u{7f}',
        digits_value(hex(value, width), 16) == value,
    decreases width,
{
    reveal(pow);
    if width > 0 {
        let text = hex(value, width);
        let head = hex(value / 16, (width - 1) as nat);
        assert(pow(16, width) == 16 * pow(16, (width - 1) as nat));
        hex_digits(value / 16, (width - 1) as nat);
        assert(text.drop_last() =~= head);
        assert forall|i: int| #![trigger text[i]] 0 <= i < width implies digit(text[i], 16) is Some
            && text[i] != '+' && text[i] != ':' && text[i] <= '\u{7f}' by {
            if i < head.len() {
                assert(text[i] == head[i]);
            }
        }
    }
}

} // verus!
