//! The traffic of network interfaces: which are shown, and in what order.
use vstd::prelude::*;
use vstd::utf8::is_ascii_chars;

use crate::order::{ahead, is_order, order_is_unique, rank_order};
use crate::text::{ascii_lower, contains_text, lower, occurs_in, optional_text, texts, to_lower};

verus! {

/// What was counted at an interface.
///
/// `load` stands for the rate of its traffic: of two interfaces the one with more traffic has the
/// larger load.
#[derive(Clone, Debug, PartialEq, Eq)]
pub struct InterfaceSample {
    pub name: String,
    pub received: u64,
    pub transmitted: u64,
    pub load: u64,
    pub rx_total: u64,
    pub tx_total: u64,
    pub packets_rx: u64,
    pub packets_tx: u64,
    pub errors_rx: u64,
    pub errors_tx: u64,
}

/// Whether the name of an interface contains a filter, whatever their case.
pub open spec fn name_matches(name: Seq<char>, filter: Option<Seq<char>>) -> bool {
    match filter {
        Some(part) => occurs_in(lower(name), lower(part)),
        None => true,
    }
}

/// Tells whether the name of an interface contains a filter, whatever their case.
pub fn matches_interface(name: &str, filter: Option<&str>) -> (yes: bool)
    ensures
        yes == name_matches(name@, optional_text(filter)),
{
    match filter {
        Some(part) => contains_text(to_lower(name).as_str(), to_lower(part).as_str()),
        None => true,
    }
}

/// Whether an interface is shown: its name contains the filter, and it had traffic or all are
/// shown.
pub open spec fn kept(sample: InterfaceSample, filter: Option<Seq<char>>, all: bool) -> bool {
    &&& name_matches(sample.name@, filter)
    &&& all || sample.received > 0 || sample.transmitted > 0
}

/// The names of samples.
pub open spec fn sample_names(samples: Seq<InterfaceSample>) -> Seq<Seq<char>> {
    samples.map_values(|sample: InterfaceSample| sample.name@)
}

/// The loads of samples.
pub open spec fn sample_loads(samples: Seq<InterfaceSample>) -> Seq<u64> {
    samples.map_values(|sample: InterfaceSample| sample.load)
}

/// Whether `places` holds the places of the interfaces that are shown, each once: the largest load
/// first, and by name where the loads are equal.
pub open spec fn is_selection(
    samples: Seq<InterfaceSample>,
    filter: Option<Seq<char>>,
    all: bool,
    places: Seq<usize>,
) -> bool {
    &&& forall|place: usize| #[trigger]
        places.contains(place) <==> place < samples.len() && kept(
            samples[place as int],
            filter,
            all,
        )
    &&& forall|i: int, j: int|
        0 <= i < j < places.len() ==> ahead(
            sample_names(samples),
            sample_loads(samples),
            #[trigger] places[i] as int,
            #[trigger] places[j] as int,
        )
}

/// Tells whether an interface is shown.
fn is_kept(sample: &InterfaceSample, filter: Option<&str>, all: bool) -> (yes: bool)
    ensures
        yes == kept(*sample, optional_text(filter), all),
{
    (all || sample.received > 0 || sample.transmitted > 0) && matches_interface(
        sample.name.as_str(),
        filter,
    )
}

/// Chooses the interfaces that are shown and puts them in order: gives their places in `samples`.
pub fn collect_interface_rows(
    samples: &Vec<InterfaceSample>,
    filter: Option<&str>,
    all: bool,
) -> (places: Vec<usize>)
    ensures
        is_selection(samples@, optional_text(filter), all, places@),
{
    let total: usize = samples.len();
    let ghost wanted = optional_text(filter);
    let mut chosen: Vec<usize> = Vec::new();
    let mut names: Vec<String> = Vec::new();
    let mut loads: Vec<u64> = Vec::new();
    let mut n: usize = 0;
    while n < total
        invariant
            n <= total,
            total == samples@.len(),
            wanted == optional_text(filter),
            names@.len() == chosen@.len(),
            loads@.len() == chosen@.len(),
            forall|k: int| 0 <= k < chosen@.len() ==> #[trigger] chosen@[k] < n,
            forall|k: int|
                0 <= k < chosen@.len() ==> kept(samples@[#[trigger] chosen@[k] as int], wanted, all),
            forall|k: int|
                0 <= k < chosen@.len() ==> #[trigger] names@[k] == samples@[chosen@[k] as int].name,
            forall|k: int|
                0 <= k < chosen@.len() ==> #[trigger] loads@[k] == samples@[chosen@[k] as int].load,
            forall|k: int, m: int|
                0 <= k < m < chosen@.len() ==> #[trigger] chosen@[k] < #[trigger] chosen@[m],
            forall|place: usize|
                place < n && kept(samples@[place as int], wanted, all)
                    ==> #[trigger] chosen@.contains(place),
        decreases total - n,
    {
        let ghost before = chosen@;
        if is_kept(&samples[n], filter, all) {
            chosen.push(n);
            names.push(samples[n].name.clone());
            loads.push(samples[n].load);
            assert(chosen@[before.len() as int] == n);
        }
        assert forall|place: usize|
            place < n + 1 && kept(
                samples@[place as int],
                wanted,
                all,
            ) implies #[trigger] chosen@.contains(place) by {
            if place < n {
                assert(before.contains(place));
                let k = choose|k: int| 0 <= k < before.len() && before[k] == place;
                assert(chosen@[k] == place);
            }
        }
        n += 1;
    }
    let order = rank_order(&names, &loads);
    let count: usize = order.len();
    let mut places: Vec<usize> = Vec::new();
    let mut i: usize = 0;
    while i < count
        invariant
            i <= count,
            count == order@.len(),
            count == chosen@.len(),
            is_order(texts(names@), loads@, order@, count as int),
            places@.len() == i,
            forall|j: int| 0 <= j < i ==> #[trigger] places@[j] == chosen@[order@[j] as int],
        decreases count - i,
    {
        assert(order@[i as int] < count);
        places.push(chosen[order[i]]);
        i += 1;
    }
    proof {
        assert forall|place: usize| #[trigger] places@.contains(place) implies place < samples@.len()
            && kept(samples@[place as int], wanted, all) by {
            let j = choose|j: int| 0 <= j < places@.len() && places@[j] == place;
            assert(order@[j] < count);
            assert(chosen@[order@[j] as int] == place);
        }
        assert forall|place: usize|
            place < samples@.len() && kept(
                samples@[place as int],
                wanted,
                all,
            ) implies #[trigger] places@.contains(place) by {
            assert(chosen@.contains(place));
            let k = choose|k: int| 0 <= k < chosen@.len() && chosen@[k] == place;
            assert(order@.contains(k as usize));
            let j = choose|j: int| 0 <= j < order@.len() && order@[j] == k as usize;
            assert(places@[j] == place);
        }
        assert forall|a: int, b: int| 0 <= a < b < places@.len() implies ahead(
            sample_names(samples@),
            sample_loads(samples@),
            #[trigger] places@[a] as int,
            #[trigger] places@[b] as int,
        ) by {
            let left = order@[a] as int;
            let right = order@[b] as int;
            assert(ahead(texts(names@), loads@, left, right));
            assert(places@[a] == chosen@[left] && places@[b] == chosen@[right]);
            assert(names@[left] == samples@[chosen@[left] as int].name);
            assert(names@[right] == samples@[chosen@[right] as int].name);
            assert(loads@[left] == samples@[chosen@[left] as int].load);
            assert(loads@[right] == samples@[chosen@[right] as int].load);
        }
    }
    places
}

/// There is only one selection: it does not depend on how it was found.
pub proof fn selection_is_unique(
    samples: Seq<InterfaceSample>,
    filter: Option<Seq<char>>,
    all: bool,
    left: Seq<usize>,
    right: Seq<usize>,
)
    requires
        is_selection(samples, filter, all, left),
        is_selection(samples, filter, all, right),
    ensures
        left == right,
{
    assert forall|item: usize| #[trigger] left.contains(item) <==> right.contains(item) by {}
    order_is_unique(sample_names(samples), sample_loads(samples), left, right);
}

/// Showing all interfaces shows those with traffic too, and a filter only takes some away.
pub proof fn selections_grow(
    samples: Seq<InterfaceSample>,
    filter: Option<Seq<char>>,
    busy: Seq<usize>,
    every: Seq<usize>,
    unfiltered: Seq<usize>,
    place: usize,
)
    requires
        is_selection(samples, filter, false, busy),
        is_selection(samples, filter, true, every),
        is_selection(samples, None, false, unfiltered),
        busy.contains(place),
    ensures
        every.contains(place),
        unfiltered.contains(place),
{
}

/// The case of ASCII names and filters does not matter.
pub proof fn case_does_not_matter(
    name: Seq<char>,
    other_name: Seq<char>,
    part: Seq<char>,
    other_part: Seq<char>,
)
    requires
        is_ascii_chars(name),
        is_ascii_chars(other_name),
        is_ascii_chars(part),
        is_ascii_chars(other_part),
        ascii_lower(name) == ascii_lower(other_name),
        ascii_lower(part) == ascii_lower(other_part),
    ensures
        name_matches(name, Some(part)) == name_matches(other_name, Some(other_part)),
{
}

} // verus!
