//! Amounts in units of powers of 1024.
use vstd::prelude::*;

verus! {

/// How rates are shown.
#[derive(Clone, Copy, Debug, PartialEq, Eq, Structural)]
pub enum Unit {
    Auto,
    Bytes,
    Bits,
}

/// How an amount is shown: divided by 1024 `steps` times, with so many decimals.
#[derive(Clone, Copy, Debug, PartialEq, Eq, Structural)]
pub struct Scale {
    pub steps: u32,
    pub decimals: usize,
}

/// 1024 to the power of `steps`.
pub open spec fn power(steps: nat) -> int
    decreases steps,
{
    if steps == 0 {
        1
    } else {
        1024 * power((steps - 1) as nat)
    }
}

/// How often an amount is divided by 1024: until it is below 1024, and four times at most. `whole`
/// is the amount without its fraction.
pub open spec fn steps_of(whole: int) -> nat {
    if whole >= power(4) {
        4
    } else if whole >= power(3) {
        3
    } else if whole >= power(2) {
        2
    } else if whole >= power(1) {
        1
    } else {
        0
    }
}

/// How an amount is shown. An undivided one has no decimals, one below ten has two, another one.
pub open spec fn scale(whole: int) -> Scale {
    let steps = steps_of(whole);
    Scale {
        steps: steps as u32,
        decimals: if steps == 0 {
            0
        } else if whole < 10 * power(steps) {
            2
        } else {
            1
        },
    }
}

/// The name of a unit.
pub open spec fn unit_name(bits: bool, steps: nat) -> Seq<char> {
    if bits {
        if steps == 0 {
            "b"@
        } else if steps == 1 {
            "Kib"@
        } else if steps == 2 {
            "Mib"@
        } else if steps == 3 {
            "Gib"@
        } else {
            "Tib"@
        }
    } else {
        if steps == 0 {
            "B"@
        } else if steps == 1 {
            "KiB"@
        } else if steps == 2 {
            "MiB"@
        } else if steps == 3 {
            "GiB"@
        } else {
            "TiB"@
        }
    }
}

proof fn powers()
    ensures
        power(0) == 1,
        power(1) == 1024,
        power(2) == 1_048_576,
        power(3) == 1_073_741_824,
        power(4) == 1_099_511_627_776,
{
    assert(power(1) == 1024 * power(0));
    assert(power(2) == 1024 * power(1));
    assert(power(3) == 1024 * power(2));
    assert(power(4) == 1024 * power(3));
}

/// Decides how an amount is shown, where `whole` is the amount without its fraction.
pub fn scale_of(whole: u64) -> (shown: Scale)
    ensures
        shown == scale(whole as int),
{
    proof {
        powers();
    }
    if whole >= 1_099_511_627_776 {
        Scale { steps: 4, decimals: if whole < 10_995_116_277_760 { 2 } else { 1 } }
    } else if whole >= 1_073_741_824 {
        Scale { steps: 3, decimals: if whole < 10_737_418_240 { 2 } else { 1 } }
    } else if whole >= 1_048_576 {
        Scale { steps: 2, decimals: if whole < 10_485_760 { 2 } else { 1 } }
    } else if whole >= 1024 {
        Scale { steps: 1, decimals: if whole < 10_240 { 2 } else { 1 } }
    } else {
        Scale { steps: 0, decimals: 0 }
    }
}

/// Names a unit.
fn name_of(bits: bool, steps: u32) -> (name: &'static str)
    ensures
        name@ == unit_name(bits, steps as nat),
{
    if bits {
        match steps {
            0 => "b",
            1 => "Kib",
            2 => "Mib",
            3 => "Gib",
            _ => "Tib",
        }
    } else {
        match steps {
            0 => "B",
            1 => "KiB",
            2 => "MiB",
            3 => "GiB",
            _ => "TiB",
        }
    }
}

/// Writes an amount with its unit, where `number` is the scaled amount in figures and `whole` the
/// amount without its fraction.
pub fn format_scaled(number: &str, whole: u64, bits: bool) -> (text: String)
    ensures
        text@ == number@ + " "@ + unit_name(bits, steps_of(whole as int)),
{
    let mut text = number.to_owned();
    text.append(" ");
    text.append(name_of(bits, scale_of(whole).steps));
    text
}

/// Tells whether rates are counted in bits.
pub fn counts_bits(unit: Unit) -> (bits: bool)
    ensures
        bits == (unit is Bits),
{
    match unit {
        Unit::Auto => false,
        Unit::Bytes => false,
        Unit::Bits => true,
    }
}

/// Writes a rate, where `amount` is what passes in a second.
pub fn format_rate(amount: &str) -> (text: String)
    ensures
        text@ == amount@ + "/s"@,
{
    let mut text = amount.to_owned();
    text.append("/s");
    text
}

/// A scaled amount is at least one, and below 1024 unless it has the largest unit.
pub proof fn scaled_amount_is_small(whole: int)
    ensures
        steps_of(whole) > 0 ==> power(steps_of(whole)) <= whole,
        steps_of(whole) < 4 ==> whole < power(steps_of(whole) + 1),
{
    powers();
}

/// A larger amount has no smaller unit.
pub proof fn larger_amount_has_no_smaller_unit(less: int, more: int)
    requires
        less <= more,
    ensures
        steps_of(less) <= steps_of(more),
{
    powers();
}

/// Units have different names.
pub proof fn unit_names_are_distinct(bits: bool, steps: nat, other_bits: bool, other_steps: nat)
    requires
        steps <= 4,
        other_steps <= 4,
        unit_name(bits, steps) == unit_name(other_bits, other_steps),
    ensures
        bits == other_bits,
        steps == other_steps,
{
    reveal_strlit("b");
    reveal_strlit("Kib");
    reveal_strlit("Mib");
    reveal_strlit("Gib");
    reveal_strlit("Tib");
    reveal_strlit("B");
    reveal_strlit("KiB");
    reveal_strlit("MiB");
    reveal_strlit("GiB");
    reveal_strlit("TiB");
    let name = unit_name(bits, steps);
    if steps > 0 {
        assert(name.len() == 3);
        assert(name[2] == if bits { 'b' } else { 'B' });
        assert(unit_name(other_bits, other_steps)[2] == if other_bits { 'b' } else { 'B' });
        assert(name[0] == if steps == 1 { 'K' } else if steps == 2 { 'M' } else if steps == 3 { 'G' } else { 'T' });
    } else {
        assert(name.len() == 1);
        assert(name[0] == if bits { 'b' } else { 'B' });
    }
}

/// An amount is divided by 1024 as often as it takes to get below 1024, and at most four times: the
/// limits are the powers of 1024.
pub proof fn steps_are_those_of_the_powers(whole: int)
    ensures
        whole < 1024 ==> steps_of(whole) == 0,
        1024 <= whole < 1_048_576 ==> steps_of(whole) == 1,
        1_048_576 <= whole < 1_073_741_824 ==> steps_of(whole) == 2,
        1_073_741_824 <= whole < 1_099_511_627_776 ==> steps_of(whole) == 3,
        1_099_511_627_776 <= whole ==> steps_of(whole) == 4,
        scale(whole).steps == steps_of(whole),
{
    powers();
}

/// An undivided amount is shown without decimals. A divided one is shown with two while its whole
/// part has one figure, and with one from ten on.
pub proof fn decimals_are_those_of_the_scaled_amount(whole: int)
    requires
        0 <= whole,
    ensures
        whole < 1024 ==> scale(whole).decimals == 0,
        whole >= 1024 ==> {
            let unit: int = if whole < 1_048_576 {
                1024
            } else if whole < 1_073_741_824 {
                1_048_576
            } else if whole < 1_099_511_627_776 {
                1_073_741_824
            } else {
                1_099_511_627_776
            };
            scale(whole).decimals == (if whole / unit < 10 {
                2
            } else {
                1int
            })
        },
{
    powers();
}

/// A unit is named by the letter of its power, `i`, and `b` for bits or `B` for bytes; the undivided
/// ones by the last letter alone.
pub proof fn unit_is_named_by_its_letters(bits: bool, steps: nat)
    requires
        steps <= 4,
    ensures
        unit_name(bits, steps).last() == (if bits {
            'b'
        } else {
            'B'
        }),
        steps == 0 ==> unit_name(bits, steps).len() == 1,
        steps > 0 ==> unit_name(bits, steps).len() == 3 && unit_name(bits, steps)[0]
            == seq!['K', 'M', 'G', 'T'][steps - 1] && unit_name(bits, steps)[1] == 'i',
{
    reveal_strlit("b");
    reveal_strlit("Kib");
    reveal_strlit("Mib");
    reveal_strlit("Gib");
    reveal_strlit("Tib");
    reveal_strlit("B");
    reveal_strlit("KiB");
    reveal_strlit("MiB");
    reveal_strlit("GiB");
    reveal_strlit("TiB");
    let name = unit_name(bits, steps);
    if steps == 0 {
        assert(name.len() == 1);
        assert(name[0] == if bits { 'b' } else { 'B' });
    } else {
        assert(name.len() == 3);
        assert(name[2] == if bits { 'b' } else { 'B' });
        assert(name[1] == 'i');
    }
}

} // verus!
