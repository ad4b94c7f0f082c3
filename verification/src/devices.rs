//! Choosing the device to capture from.
use vstd::prelude::*;

use crate::text::{contains_text, lower, occurs_in, optional_text, to_lower};

verus! {

/// A device that packets can be captured from.
#[derive(Clone, Debug, PartialEq, Eq)]
pub struct DeviceInfo {
    pub name: String,
    pub desc: Option<String>,
    pub has_addresses: bool,
}

/// The description of a device, empty if it has none.
pub open spec fn description(device: DeviceInfo) -> Seq<char> {
    match device.desc {
        Some(text) => text@,
        None => ""@,
    }
}

/// Whether a description in lower case is that of a device to pass over.
pub open spec fn skipped(desc: Seq<char>) -> bool {
    ||| occurs_in(desc, "wan miniport"@)
    ||| occurs_in(desc, "loopback"@)
    ||| occurs_in(desc, "tunnel"@)
    ||| occurs_in(desc, "teredo"@)
    ||| occurs_in(desc, "isatap"@)
    ||| occurs_in(desc, "bluetooth"@)
}

/// Whether a description in lower case is that of a device of a common kind.
pub open spec fn common(desc: Seq<char>) -> bool {
    ||| occurs_in(desc, "ethernet"@)
    ||| occurs_in(desc, "wi-fi"@)
    ||| occurs_in(desc, "wireless"@)
    ||| occurs_in(desc, "realtek"@)
    ||| occurs_in(desc, "intel"@)
    ||| occurs_in(desc, "qualcomm"@)
}

/// Whether a device is one to prefer.
pub open spec fn preferred(device: DeviceInfo) -> bool {
    common(lower(description(device))) && !skipped(lower(description(device)))
}

/// Whether a device can do where there is none to prefer.
pub open spec fn usable(device: DeviceInfo) -> bool {
    !skipped(lower(description(device))) && device.has_addresses
}

/// Whether the name or the description of a device contains a filter, whatever their case.
pub open spec fn device_matches(device: DeviceInfo, filter: Seq<char>) -> bool {
    ||| occurs_in(lower(device.name@), lower(filter))
    ||| occurs_in(lower(description(device)), lower(filter))
}

/// The place of the first device that is wanted.
pub open spec fn first_where(devices: Seq<DeviceInfo>, wanted: spec_fn(DeviceInfo) -> bool) -> Option<
    int,
>
    decreases devices.len(),
{
    if devices.len() == 0 {
        None
    } else {
        match first_where(devices.drop_last(), wanted) {
            Some(place) => Some(place),
            None => if wanted(devices.last()) {
                Some(devices.len() - 1)
            } else {
                None
            },
        }
    }
}

/// The first device that is wanted is wanted, and none before it is; if there is none, no device is
/// wanted.
pub proof fn first_is_first(devices: Seq<DeviceInfo>, wanted: spec_fn(DeviceInfo) -> bool)
    ensures
        match first_where(devices, wanted) {
            Some(place) => {
                &&& 0 <= place < devices.len()
                &&& wanted(devices[place])
                &&& forall|j: int| 0 <= j < place ==> !wanted(#[trigger] devices[j])
            },
            None => forall|j: int| 0 <= j < devices.len() ==> !wanted(#[trigger] devices[j]),
        },
    decreases devices.len(),
{
    if devices.len() > 0 {
        let head = devices.drop_last();
        first_is_first(head, wanted);
        assert forall|j: int| 0 <= j < head.len() implies head[j] == #[trigger] devices[j] by {}
    }
}

/// A device that is wanted behind devices that are not is the first.
proof fn first_is_found(devices: Seq<DeviceInfo>, wanted: spec_fn(DeviceInfo) -> bool, place: int)
    requires
        0 <= place < devices.len(),
        wanted(devices[place]),
        forall|j: int| 0 <= j < place ==> !wanted(#[trigger] devices[j]),
    ensures
        first_where(devices, wanted) == Some(place),
{
    first_is_first(devices, wanted);
    match first_where(devices, wanted) {
        Some(found) => {
            if found < place {
                assert(!wanted(devices[found]));
            } else if place < found {
                assert(!wanted(devices[place]));
            }
        },
        None => {
            assert(!wanted(devices[place]));
        },
    }
}

/// The place of the device to capture from where none was named: the first to prefer, or else the
/// first that can do.
pub open spec fn default_place(devices: Seq<DeviceInfo>) -> Option<int> {
    match first_where(devices, |device: DeviceInfo| preferred(device)) {
        Some(place) => Some(place),
        None => first_where(devices, |device: DeviceInfo| usable(device)),
    }
}

/// What is said where no device matches a filter.
pub open spec fn no_match(filter: Seq<char>) -> Seq<char> {
    "no network interface matching '"@ + filter + "'"@
}

/// Tells whether a description in lower case is that of a device to pass over.
pub fn is_skipped(desc: &str) -> (yes: bool)
    ensures
        yes == skipped(desc@),
{
    contains_text(desc, "wan miniport") || contains_text(desc, "loopback") || contains_text(
        desc,
        "tunnel",
    ) || contains_text(desc, "teredo") || contains_text(desc, "isatap") || contains_text(
        desc,
        "bluetooth",
    )
}

/// Tells whether a description in lower case is that of a device of a common kind.
pub fn is_common(desc: &str) -> (yes: bool)
    ensures
        yes == common(desc@),
{
    contains_text(desc, "ethernet") || contains_text(desc, "wi-fi") || contains_text(
        desc,
        "wireless",
    ) || contains_text(desc, "realtek") || contains_text(desc, "intel") || contains_text(
        desc,
        "qualcomm",
    )
}

/// The description of a device in lower case.
fn lower_description(device: &DeviceInfo) -> (desc: String)
    ensures
        desc@ == lower(description(*device)),
{
    match &device.desc {
        Some(text) => to_lower(text.as_str()),
        None => to_lower(""),
    }
}

/// Chooses the device to capture from where none was named: gives its place, or `None` if no device
/// of the list will do.
pub fn select_default_device(devices: &Vec<DeviceInfo>) -> (place: Option<usize>)
    ensures
        match place {
            Some(i) => default_place(devices@) == Some(i as int),
            None => default_place(devices@) is None,
        },
{
    let ghost first_choice = |device: DeviceInfo| preferred(device);
    let ghost second_choice = |device: DeviceInfo| usable(device);
    let mut i: usize = 0;
    while i < devices.len()
        invariant
            i <= devices@.len(),
            first_choice == (|device: DeviceInfo| preferred(device)),
            forall|j: int| 0 <= j < i ==> !first_choice(#[trigger] devices@[j]),
        decreases devices@.len() - i,
    {
        let desc = lower_description(&devices[i]);
        if is_common(desc.as_str()) && !is_skipped(desc.as_str()) {
            proof {
                first_is_found(devices@, first_choice, i as int);
            }
            return Some(i);
        }
        i += 1;
    }
    proof {
        first_is_first(devices@, first_choice);
    }
    let mut k: usize = 0;
    while k < devices.len()
        invariant
            k <= devices@.len(),
            first_choice == (|device: DeviceInfo| preferred(device)),
            second_choice == (|device: DeviceInfo| usable(device)),
            first_where(devices@, first_choice) is None,
            forall|j: int| 0 <= j < k ==> !second_choice(#[trigger] devices@[j]),
        decreases devices@.len() - k,
    {
        let desc = lower_description(&devices[k]);
        if !is_skipped(desc.as_str()) && devices[k].has_addresses {
            proof {
                first_is_found(devices@, second_choice, k as int);
            }
            return Some(k);
        }
        k += 1;
    }
    proof {
        first_is_first(devices@, second_choice);
    }
    None
}

/// Chooses the device to capture from: the first that matches the filter, or without a filter the
/// default one. Gives its place, or `None` if the system is to be asked for its default.
pub fn select_pcap_device(devices: &Vec<DeviceInfo>, interface: Option<&str>) -> (choice: Result<
    Option<usize>,
    String,
>)
    ensures
        match optional_text(interface) {
            Some(filter) => match first_where(
                devices@,
                |device: DeviceInfo| device_matches(device, filter),
            ) {
                Some(place) => choice is Ok && choice->Ok_0 == Some(place as usize),
                None => choice is Err && choice->Err_0@ == no_match(filter),
            },
            None => choice is Ok && match default_place(devices@) {
                Some(place) => choice->Ok_0 == Some(place as usize),
                None => choice->Ok_0 is None,
            },
        },
{
    match interface {
        Some(filter) => {
            let ghost wanted = |device: DeviceInfo| device_matches(device, filter@);
            let low = to_lower(filter);
            let mut i: usize = 0;
            while i < devices.len()
                invariant
                    i <= devices@.len(),
                    low@ == lower(filter@),
                    wanted == (|device: DeviceInfo| device_matches(device, filter@)),
                    forall|j: int| 0 <= j < i ==> !wanted(#[trigger] devices@[j]),
                    optional_text(interface) == Some(filter@),
                decreases devices@.len() - i,
            {
                if contains_text(to_lower(devices[i].name.as_str()).as_str(), low.as_str())
                    || contains_text(lower_description(&devices[i]).as_str(), low.as_str()) {
                    proof {
                        first_is_found(devices@, wanted, i as int);
                    }
                    return Ok(Some(i));
                }
                i += 1;
            }
            proof {
                first_is_first(devices@, wanted);
            }
            let mut text = "no network interface matching '".to_owned();
            text.append(filter);
            text.append("'");
            Err(text)
        },
        None => Ok(select_default_device(devices)),
    }
}

/// What is said where the system has no default device either.
pub open spec fn no_default() -> Seq<char> {
    "no default network interface found"@
}

/// Says that the system has no default device either.
pub fn no_default_text() -> (text: &'static str)
    ensures
        text@ == no_default(),
{
    "no default network interface found"
}

/// The default device is never one to pass over, and it is one to prefer if there is any.
pub proof fn default_is_preferred(devices: Seq<DeviceInfo>, place: int)
    requires
        default_place(devices) == Some(place),
    ensures
        0 <= place < devices.len(),
        !skipped(lower(description(devices[place]))),
        forall|j: int|
            0 <= j < devices.len() && preferred(#[trigger] devices[j]) ==> preferred(devices[place])
                && place <= j,
        !preferred(devices[place]) ==> devices[place].has_addresses,
{
    let first_choice = |device: DeviceInfo| preferred(device);
    let second_choice = |device: DeviceInfo| usable(device);
    first_is_first(devices, first_choice);
    first_is_first(devices, second_choice);
    assert forall|j: int| 0 <= j < devices.len() && preferred(#[trigger] devices[j]) implies preferred(
        devices[place],
    ) && place <= j by {
        assert(first_choice(devices[j]));
    }
}

/// There is no default device only if every device is one to pass over, or is of no common kind and
/// has no address.
pub proof fn no_default_means_none_will_do(devices: Seq<DeviceInfo>, j: int)
    requires
        default_place(devices) is None,
        0 <= j < devices.len(),
    ensures
        skipped(lower(description(devices[j]))) || !common(lower(description(devices[j])))
            && !devices[j].has_addresses,
{
    let first_choice = |device: DeviceInfo| preferred(device);
    let second_choice = |device: DeviceInfo| usable(device);
    first_is_first(devices, first_choice);
    first_is_first(devices, second_choice);
    assert(!first_choice(devices[j]));
    assert(!second_choice(devices[j]));
}

/// What is said where no device matches ends with the filter in quotes.
pub proof fn no_match_quotes_the_filter(filter: Seq<char>)
    ensures
        no_match(filter).last() == '\'',
        no_match(filter).drop_last().skip(no_match(filter).len() - 1 - filter.len()) == filter,
        no_match(filter)[no_match(filter).len() - 2 - filter.len()] == '\'',
{
    reveal_strlit("no network interface matching '");
    reveal_strlit("'");
    let start = "no network interface matching '"@;
    assert(start.len() == 31 && start[30] == '\'');
    assert("'"@.len() == 1 && "'"@[0] == '\'');
    assert(no_match(filter).drop_last().skip(no_match(filter).len() - 1 - filter.len())
        =~= filter);
}

} // verus!
