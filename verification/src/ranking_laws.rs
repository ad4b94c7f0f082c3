//! What holds of counting, ranking and choosing.
use vstd::prelude::*;
use vstd::utf8::is_ascii_chars;

use crate::counts::{
    is_ranking, occurrences, occurrences_fit, ranking, row_views, tallies, tallies_have_a_ranking,
};
use crate::devices::{
    default_place, device_matches, first_is_first, first_where, preferred, usable, DeviceInfo,
};
use crate::interfaces::{
    is_selection, kept, name_matches, sample_loads, sample_names, InterfaceSample,
};
use crate::order::{ahead, is_order, ranks_before, text_less, text_order_is_total};
use crate::text::{lower, occurs_in};
use crate::text_laws::{found_text_is_there, text_stands_where_it_was_put};

verus! {

// Order
/// Of two texts the one with the smaller character comes first where they first differ.
pub proof fn first_difference_decides(
    common: Seq<char>,
    left: char,
    left_rest: Seq<char>,
    right: char,
    right_rest: Seq<char>,
)
    requires
        left != right,
    ensures
        text_less(common + seq![left] + left_rest, common + seq![right] + right_rest) <==> left
            < right,
    decreases common.len(),
{
    let first = common + seq![left] + left_rest;
    let second = common + seq![right] + right_rest;
    if common.len() == 0 {
        assert(first[0] == left && second[0] == right);
    } else {
        let rest = common.drop_first();
        assert(first[0] == common[0] && second[0] == common[0]);
        assert(first.drop_first() =~= rest + seq![left] + left_rest);
        assert(second.drop_first() =~= rest + seq![right] + right_rest);
        first_difference_decides(rest, left, left_rest, right, right_rest);
    }
}

/// A text comes before the texts that go on behind it, and not behind itself.
pub proof fn shorter_text_comes_first(text: Seq<char>, more: Seq<char>)
    ensures
        text_less(text, text + more) <==> more.len() > 0,
        !text_less(text + more, text),
    decreases text.len(),
{
    let longer = text + more;
    if text.len() > 0 {
        let rest = text.drop_first();
        assert(longer[0] == text[0]);
        assert(longer.drop_first() =~= rest + more);
        shorter_text_comes_first(rest, more);
    }
}

// Counts
/// How often a text is left when all others are taken out of a list.
pub open spec fn times(keys: Seq<Seq<char>>, key: Seq<char>) -> nat {
    keys.filter(|other: Seq<char>| other == key).len()
}

/// A text occurs as often as it is left when all others are taken out of the list.
pub proof fn occurrences_are_counted(keys: Seq<Seq<char>>, key: Seq<char>)
    ensures
        occurrences(keys, key) == times(keys, key),
    decreases keys.len(),
{
    reveal(Seq::filter);
    if keys.len() > 0 {
        occurrences_are_counted(keys.drop_last(), key);
    }
}

/// A ranking holds every name with its count and nothing else, each name once: a larger count comes
/// first, and of equal counts the name that comes first.
pub proof fn ranking_is_by_count_and_name(
    counts: Map<Seq<char>, u64>,
    rows: Seq<(Seq<char>, u64)>,
)
    requires
        is_ranking(counts, rows),
    ensures
        forall|i: int|
            0 <= i < rows.len() ==> counts.contains_key((#[trigger] rows[i]).0) && counts[rows[i].0]
                == rows[i].1,
        forall|name: Seq<char>| #[trigger]
            counts.contains_key(name) ==> rows.contains((name, counts[name])),
        forall|i: int, j: int|
            0 <= i < j < rows.len() ==> (#[trigger] rows[i]).0 != (#[trigger] rows[j]).0,
        forall|i: int, j: int|
            0 <= i < j < rows.len() ==> (#[trigger] rows[i]).1 > (#[trigger] rows[j]).1
                || rows[i].1 == rows[j].1 && text_less(rows[i].0, rows[j].0),
{
    assert forall|i: int| 0 <= i < rows.len() implies counts.contains_key((#[trigger] rows[i]).0)
        && counts[rows[i].0] == rows[i].1 by {
        assert(rows.contains(rows[i]));
    }
    assert forall|name: Seq<char>| #[trigger] counts.contains_key(name) implies rows.contains(
        (name, counts[name]),
    ) by {
        let row = (name, counts[name]);
        assert(counts.contains_key(row.0) && counts[row.0] == row.1);
    }
    assert forall|i: int, j: int| 0 <= i < j < rows.len() implies (#[trigger] rows[i]).0 != (
    #[trigger] rows[j]).0 by {
        assert(ranks_before(rows[i], rows[j]));
        text_order_is_total(rows[i].0, rows[j].0);
        assert(counts[rows[i].0] == rows[i].1);
        assert(counts[rows[j].0] == rows[j].1);
    }
}

/// Each row of the ranking of a list holds a text of the list, with the number of times that it
/// stands there.
pub proof fn ranked_text_is_counted(keys: Seq<Seq<char>>, i: int)
    requires
        keys.len() <= u64::MAX,
        0 <= i < ranking(tallies(keys)).len(),
    ensures
        keys.contains(ranking(tallies(keys))[i].0),
        ranking(tallies(keys))[i].1 == times(keys, ranking(tallies(keys))[i].0),
{
    tallies_have_a_ranking(keys);
    let row = ranking(tallies(keys))[i];
    ranking_is_by_count_and_name(tallies(keys), ranking(tallies(keys)));
    assert(tallies(keys).contains_key(row.0));
    occurrences_fit(keys, row.0);
    occurrences_are_counted(keys, row.0);
}

/// Each text of a list has a row in its ranking, and only one.
pub proof fn each_text_has_a_row(keys: Seq<Seq<char>>, k: int) -> (i: int)
    requires
        0 <= k < keys.len(),
    ensures
        0 <= i < ranking(tallies(keys)).len(),
        ranking(tallies(keys))[i].0 == keys[k],
        forall|j: int|
            0 <= j < ranking(tallies(keys)).len() && j != i ==> (#[trigger] ranking(
                tallies(keys),
            )[j]).0 != keys[k],
{
    tallies_have_a_ranking(keys);
    let rows = ranking(tallies(keys));
    ranking_is_by_count_and_name(tallies(keys), rows);
    assert(keys.contains(keys[k]));
    assert(tallies(keys).contains_key(keys[k]));
    let row = (keys[k], tallies(keys)[keys[k]]);
    assert(rows.contains(row));
    choose|i: int| 0 <= i < rows.len() && rows[i] == row
}

/// The views of rows are their names and counts, in their order.
pub proof fn row_views_show_everything(rows: Seq<(String, u64)>, i: int)
    requires
        0 <= i < rows.len(),
    ensures
        row_views(rows).len() == rows.len(),
        row_views(rows)[i].0 == rows[i].0@,
        row_views(rows)[i].1 == rows[i].1,
{
}

// Interfaces
/// Whether two characters are the same but for the case of an ASCII letter.
pub open spec fn alike(left: char, right: char) -> bool {
    ||| left == right
    ||| 65 <= left as int <= 90 && right as int == left as int + 32
    ||| 65 <= right as int <= 90 && left as int == right as int + 32
}

/// Whether a text stands in another at `at`, but for the case of ASCII letters.
pub open spec fn alike_at(name: Seq<char>, part: Seq<char>, at: int) -> bool {
    0 <= at && at + part.len() <= name.len() && forall|i: int|
        0 <= i < part.len() ==> alike(name[at + i], #[trigger] part[i])
}

/// An ASCII name matches an ASCII filter exactly if the filter stands somewhere in the name, letter
/// by letter and whatever their case. Without a filter every name matches.
pub proof fn filter_stands_in_matching_names(name: Seq<char>, part: Seq<char>)
    requires
        is_ascii_chars(name),
        is_ascii_chars(part),
    ensures
        name_matches(name, None),
        name_matches(name, Some(part)) <==> exists|at: int|
            alike_at(name, part, at),
{
    let low = lower(name);
    let low_part = lower(part);
    assert(low.len() == name.len() && low_part.len() == part.len());
    if name_matches(name, Some(part)) {
        let (before, behind) = found_text_is_there(low, low_part);
        let at = before.len() as int;
        assert forall|i: int| 0 <= i < part.len() implies alike(name[at + i], #[trigger] part[i]) by {
            assert(low[at + i] == low_part[i]);
        }
        assert(alike_at(name, part, at));
    }
    if exists|at: int| alike_at(name, part, at) {
        let at = choose|at: int| alike_at(name, part, at);
        assert(low.subrange(at, at + part.len()) =~= low_part) by {
            assert forall|i: int| 0 <= i < part.len() implies low[at + i] == low_part[i] by {
                assert(alike(name[at + i], part[i]));
            }
        }
        assert(low =~= low.take(at) + low_part + low.skip(at + part.len()));
        text_stands_where_it_was_put(low.take(at), low_part, low.skip(at + part.len()));
    }
}

/// A selection holds the interfaces whose name matches and that had traffic, or all whose name
/// matches where all are shown: each once, the busiest first, and by name where they are equally
/// busy.
pub proof fn selection_is_by_load_and_name(
    samples: Seq<InterfaceSample>,
    filter: Option<Seq<char>>,
    all: bool,
    places: Seq<usize>,
)
    requires
        is_selection(samples, filter, all, places),
    ensures
        forall|place: usize| #[trigger]
            places.contains(place) <==> {
                &&& place < samples.len()
                &&& name_matches(samples[place as int].name@, filter)
                &&& all || samples[place as int].received > 0 || samples[place as int].transmitted
                    > 0
            },
        forall|i: int, j: int|
            0 <= i < j < places.len() ==> (#[trigger] places[i]) != (#[trigger] places[j]),
        forall|i: int, j: int|
            0 <= i < j < places.len() ==> {
                let left = samples[(#[trigger] places[i]) as int];
                let right = samples[(#[trigger] places[j]) as int];
                ||| left.load > right.load
                ||| left.load == right.load && text_less(left.name@, right.name@)
                ||| left.load == right.load && left.name@ == right.name@ && places[i] < places[j]
            },
{
    assert forall|i: int, j: int| 0 <= i < j < places.len() implies {
        let left = samples[(#[trigger] places[i]) as int];
        let right = samples[(#[trigger] places[j]) as int];
        &&& places[i] != places[j]
        &&& {
            ||| left.load > right.load
            ||| left.load == right.load && text_less(left.name@, right.name@)
            ||| left.load == right.load && left.name@ == right.name@ && places[i] < places[j]
        }
    } by {
        assert(places.contains(places[i]));
        assert(places.contains(places[j]));
        let left = places[i] as int;
        let right = places[j] as int;
        assert(ahead(sample_names(samples), sample_loads(samples), left, right));
        assert(sample_names(samples)[left] == samples[left].name@);
        assert(sample_names(samples)[right] == samples[right].name@);
        text_order_is_total(samples[left].name@, samples[right].name@);
    }
    assert forall|place: usize| #[trigger] places.contains(place) <==> {
        &&& place < samples.len()
        &&& name_matches(samples[place as int].name@, filter)
        &&& all || samples[place as int].received > 0 || samples[place as int].transmitted > 0
    } by {
        assert(places.contains(place) <==> place < samples.len() && kept(
            samples[place as int],
            filter,
            all,
        ));
    }
}

// Devices
/// Whether a text contains one of some words.
pub open spec fn contains_one(text: Seq<char>, words: Seq<Seq<char>>) -> bool {
    exists|k: int, at: int|
        0 <= k < words.len() && 0 <= at && at + words[k].len() <= text.len() && #[trigger] text.subrange(
            at,
            at + words[k].len(),
        ) == words[k]
}

/// The words for devices to pass over.
pub open spec fn words_to_pass_over() -> Seq<Seq<char>> {
    seq![
        "wan miniport"@,
        "loopback"@,
        "tunnel"@,
        "teredo"@,
        "isatap"@,
        "bluetooth"@,
    ]
}

/// The words for devices of a common kind.
pub open spec fn words_to_prefer() -> Seq<Seq<char>> {
    seq!["ethernet"@, "wi-fi"@, "wireless"@, "realtek"@, "intel"@, "qualcomm"@]
}

proof fn occurrence_of_one(text: Seq<char>, words: Seq<Seq<char>>, k: int)
    requires
        0 <= k < words.len(),
        occurs_in(text, words[k]),
    ensures
        contains_one(text, words),
{
    let (before, behind) = found_text_is_there(text, words[k]);
    let at = before.len() as int;
    assert(text.subrange(at, at + words[k].len()) =~= words[k]);
}

proof fn one_occurs(text: Seq<char>, words: Seq<Seq<char>>) -> (k: int)
    requires
        contains_one(text, words),
    ensures
        0 <= k < words.len(),
        occurs_in(text, words[k]),
{
    let (k, at) = choose|k: int, at: int|
        0 <= k < words.len() && 0 <= at && at + words[k].len() <= text.len() && #[trigger] text.subrange(
            at,
            at + words[k].len(),
        ) == words[k];
    let word = words[k];
    assert(text =~= text.take(at) + word + text.skip(at + word.len()));
    text_stands_where_it_was_put(text.take(at), word, text.skip(at + word.len()));
    k
}

/// What a device says of itself, in lower case, nothing if it says nothing.
pub open spec fn lower_words(device: DeviceInfo) -> Seq<char> {
    lower(
        match device.desc {
            Some(text) => text@,
            None => seq![],
        },
    )
}

proof fn device_words(device: DeviceInfo)
    ensures
        preferred(device) <==> contains_one(lower_words(device), words_to_prefer())
            && !contains_one(lower_words(device), words_to_pass_over()),
        usable(device) <==> !contains_one(lower_words(device), words_to_pass_over())
            && device.has_addresses,
{
    reveal_strlit("");
    assert(""@ =~= Seq::<char>::empty());
    let text = lower_words(device);
    assert(text == lower(crate::devices::description(device)));
    let over = words_to_pass_over();
    let good = words_to_prefer();
    if crate::devices::skipped(text) {
        if occurs_in(text, over[0]) {
            occurrence_of_one(text, over, 0);
        } else if occurs_in(text, over[1]) {
            occurrence_of_one(text, over, 1);
        } else if occurs_in(text, over[2]) {
            occurrence_of_one(text, over, 2);
        } else if occurs_in(text, over[3]) {
            occurrence_of_one(text, over, 3);
        } else if occurs_in(text, over[4]) {
            occurrence_of_one(text, over, 4);
        } else {
            occurrence_of_one(text, over, 5);
        }
    }
    if contains_one(text, over) {
        let k = one_occurs(text, over);
        assert(crate::devices::skipped(text));
    }
    if crate::devices::common(text) {
        if occurs_in(text, good[0]) {
            occurrence_of_one(text, good, 0);
        } else if occurs_in(text, good[1]) {
            occurrence_of_one(text, good, 1);
        } else if occurs_in(text, good[2]) {
            occurrence_of_one(text, good, 2);
        } else if occurs_in(text, good[3]) {
            occurrence_of_one(text, good, 3);
        } else if occurs_in(text, good[4]) {
            occurrence_of_one(text, good, 4);
        } else {
            occurrence_of_one(text, good, 5);
        }
    }
    if contains_one(text, good) {
        let k = one_occurs(text, good);
        assert(crate::devices::common(text));
    }
}

/// Whether a device is of a common kind and not one to pass over, by the words it says of itself.
pub open spec fn is_good(device: DeviceInfo) -> bool {
    contains_one(lower_words(device), words_to_prefer()) && !contains_one(
        lower_words(device),
        words_to_pass_over(),
    )
}

/// Whether a device has an address and is not one to pass over.
pub open spec fn will_do(device: DeviceInfo) -> bool {
    device.has_addresses && !contains_one(lower_words(device), words_to_pass_over())
}

/// The default device is the first of a common kind that is not to be passed over; without one it is
/// the first with an address that is not to be passed over; without that either there is none.
pub proof fn default_device_is_the_first_good_one(devices: Seq<DeviceInfo>)
    ensures
        match default_place(devices) {
            Some(place) => {
                &&& 0 <= place < devices.len()
                &&& {
                    ||| is_good(devices[place]) && forall|j: int|
                        0 <= j < place ==> !is_good(#[trigger] devices[j])
                    ||| will_do(devices[place]) && (forall|j: int|
                        0 <= j < devices.len() ==> !is_good(#[trigger] devices[j])) && (forall|
                        j: int,
                    |
                        0 <= j < place ==> !will_do(#[trigger] devices[j]))
                }
            },
            None => forall|j: int|
                0 <= j < devices.len() ==> !is_good(#[trigger] devices[j]) && !will_do(devices[j]),
        },
{
    let first_choice = |device: DeviceInfo| preferred(device);
    let second_choice = |device: DeviceInfo| usable(device);
    first_is_first(devices, first_choice);
    first_is_first(devices, second_choice);
    assert forall|j: int| 0 <= j < devices.len() implies is_good(#[trigger] devices[j])
        == first_choice(devices[j]) && will_do(devices[j]) == second_choice(devices[j]) by {
        device_words(devices[j]);
    }
}

/// A filter finds the first device that has it in its name or in what it says of itself, in lower
/// case all of them.
pub proof fn filter_finds_the_first_device(
    devices: Seq<DeviceInfo>,
    filter: Seq<char>,
    place: int,
)
    requires
        0 <= place < devices.len(),
        first_where(devices, |device: DeviceInfo| device_matches(device, filter)) == Some(place),
    ensures
        contains_one(lower(devices[place].name@), seq![lower(filter)]) || contains_one(
            lower_words(devices[place]),
            seq![lower(filter)],
        ),
        forall|j: int|
            0 <= j < place ==> !contains_one(lower(#[trigger] devices[j].name@), seq![lower(filter)])
                && !contains_one(lower_words(devices[j]), seq![lower(filter)]),
{
    let wanted = |device: DeviceInfo| device_matches(device, filter);
    first_is_first(devices, wanted);
    assert forall|j: int| 0 <= j < devices.len() implies wanted(devices[j]) == (contains_one(
        lower(#[trigger] devices[j].name@),
        seq![lower(filter)],
    ) || contains_one(lower_words(devices[j]), seq![lower(filter)])) by {
        match_is_an_occurrence(devices[j], filter);
    }
    assert(devices[place].name@ == devices[place].name@);
}

/// A filter finds no device only if none has it in its name or in what it says of itself.
pub proof fn filter_misses_no_device(devices: Seq<DeviceInfo>, filter: Seq<char>, j: int)
    requires
        0 <= j < devices.len(),
        first_where(devices, |device: DeviceInfo| device_matches(device, filter)) is None,
    ensures
        !contains_one(lower(devices[j].name@), seq![lower(filter)]),
        !contains_one(lower_words(devices[j]), seq![lower(filter)]),
{
    let wanted = |device: DeviceInfo| device_matches(device, filter);
    first_is_first(devices, wanted);
    assert(!wanted(devices[j]));
    match_is_an_occurrence(devices[j], filter);
}

proof fn match_is_an_occurrence(device: DeviceInfo, filter: Seq<char>)
    ensures
        device_matches(device, filter) <==> contains_one(
            lower(device.name@),
            seq![lower(filter)],
        ) || contains_one(lower_words(device), seq![lower(filter)]),
{
    reveal_strlit("");
    assert(""@ =~= Seq::<char>::empty());
    let words = seq![lower(filter)];
    assert(words[0] == lower(filter));
    if occurs_in(lower(device.name@), words[0]) {
        occurrence_of_one(lower(device.name@), words, 0);
    }
    if occurs_in(lower_words(device), words[0]) {
        occurrence_of_one(lower_words(device), words, 0);
    }
    if contains_one(lower(device.name@), words) {
        let k = one_occurs(lower(device.name@), words);
    }
    if contains_one(lower_words(device), words) {
        let k = one_occurs(lower_words(device), words);
    }
}

/// A name matches a filter exactly if the filter stands somewhere in the name, both in lower case.
pub proof fn filter_stands_in_the_name(name: Seq<char>, part: Seq<char>)
    ensures
        name_matches(name, None),
        name_matches(name, Some(part)) <==> contains_one(lower(name), seq![lower(part)]),
{
    let words = seq![lower(part)];
    assert(words[0] == lower(part));
    if occurs_in(lower(name), words[0]) {
        occurrence_of_one(lower(name), words, 0);
    }
    if contains_one(lower(name), words) {
        let k = one_occurs(lower(name), words);
    }
}

/// An order holds each item of a list once: a larger count comes first, of equal counts the name that
/// comes first, and of equal names the item that comes first.
pub proof fn order_is_by_count_and_name(
    names: Seq<Seq<char>>,
    counts: Seq<u64>,
    order: Seq<usize>,
    count: int,
    i: int,
    j: int,
)
    requires
        is_order(names, counts, order, count),
        0 <= i < j < count,
    ensures
        order.len() == count,
        order[i] < count,
        order[j] < count,
        order[i] != order[j],
        forall|item: usize| item < count ==> #[trigger] order.contains(item),
        ({
            let left = order[i] as int;
            let right = order[j] as int;
            ||| counts[left] > counts[right]
            ||| counts[left] == counts[right] && text_less(names[left], names[right])
            ||| counts[left] == counts[right] && names[left] == names[right] && left < right
        }),
{
    let left = order[i] as int;
    let right = order[j] as int;
    assert(ahead(names, counts, left, right));
    text_order_is_total(names[left], names[right]);
}

} // verus!
