//! Command line values.
use vstd::prelude::*;

use crate::number::{number, parse_number};

verus! {

/// What is said of a value that is no whole number.
pub open spec fn not_an_integer(value: Seq<char>) -> Seq<char> {
    "`"@ + value + "` is not a positive integer"@
}

/// What is said of a value that is no number.
pub open spec fn not_a_number(value: Seq<char>) -> Seq<char> {
    "`"@ + value + "` is not a number"@
}

/// What is said of a number that is too small.
pub open spec fn not_above_zero() -> Seq<char> {
    "value must be greater than 0"@
}

/// Reads a limit: a whole number above zero.
pub fn positive_usize(value: &str) -> (limit: Result<usize, String>)
    ensures
        match number(value@, 10, usize::MAX as int) {
            None => limit is Err && limit->Err_0@ == not_an_integer(value@),
            Some(found) => if found > 0 {
                limit == Ok::<usize, String>(found as usize)
            } else {
                limit is Err && limit->Err_0@ == not_above_zero()
            },
        },
{
    match parse_number(value, 10, usize::MAX as u64) {
        None => {
            let mut text = "`".to_owned();
            text.append(value);
            text.append("` is not a positive integer");
            Err(text)
        },
        Some(found) => if found > 0 {
            Ok(found as usize)
        } else {
            Err("value must be greater than 0".to_owned())
        },
    }
}

/// Judges a time span given as `value`: `number` tells whether it reads as a number at all, and
/// `positive` whether that number is finite and above zero.
pub fn check_interval(value: &str, number: bool, positive: bool) -> (judged: Result<(), String>)
    ensures
        judged is Ok <==> number && positive,
        judged is Err ==> judged->Err_0@ == (if number {
            not_above_zero()
        } else {
            not_a_number(value@)
        }),
{
    if !number {
        let mut text = "`".to_owned();
        text.append(value);
        text.append("` is not a number");
        Err(text)
    } else if positive {
        Ok(())
    } else {
        Err("value must be greater than 0".to_owned())
    }
}

/// What is said of a value that is no number quotes that value.
pub proof fn messages_quote_the_value(value: Seq<char>)
    ensures
        not_an_integer(value)[0] == '`',
        not_an_integer(value).subrange(1, 1int + value.len()) == value,
        not_an_integer(value)[1int + value.len()] == '`',
        not_a_number(value)[0] == '`',
        not_a_number(value).subrange(1, 1int + value.len()) == value,
        not_a_number(value)[1int + value.len()] == '`',
        not_a_number(value) != not_an_integer(value),
{
    reveal_strlit("`");
    reveal_strlit("` is not a positive integer");
    reveal_strlit("` is not a number");
    assert("`"@.len() == 1 && "`"@[0] == '`');
    assert("` is not a positive integer"@[0] == '`' && "` is not a number"@[0] == '`');
    assert("` is not a positive integer"@.len() == 27 && "` is not a number"@.len() == 17);
    assert(not_an_integer(value).subrange(1, 1int + value.len()) =~= value);
    assert(not_a_number(value).subrange(1, 1int + value.len()) =~= value);
    assert(not_a_number(value).len() != not_an_integer(value).len());
}

} // verus!
