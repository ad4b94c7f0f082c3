//! IP addresses in text.
use vstd::prelude::*;

use crate::address::IpAddr;
use crate::number::{decimal, decimal_digits, digit};
use crate::split::parts_are_the_same;

verus! {

/// Four octets in dotted decimal notation.
pub open spec fn dotted_octets(octets: Seq<u8>) -> Seq<char> {
    decimal(octets[0] as nat) + seq!['.'] + (decimal(octets[1] as nat) + seq!['.'] + (decimal(
        octets[2] as nat,
    ) + seq!['.'] + decimal(octets[3] as nat)))
}

/// Whether a text is an IPv4 address in dotted decimal notation, without leading zeros.
pub open spec fn is_dotted(text: Seq<char>) -> bool {
    exists|octets: Seq<u8>| octets.len() == 4 && #[trigger] dotted_octets(octets) == text
}

/// The octets of the address that the standard reader of IP addresses makes of a text that is not
/// in dotted decimal notation, which may be an IPv6 address or none.
pub uninterp spec fn other_octets(text: Seq<char>) -> Option<Seq<u8>>;

/// The octets of the address that a text writes, `None` if it writes none.
pub open spec fn address_octets(text: Seq<char>) -> Option<Seq<u8>> {
    if is_dotted(text) {
        Some(choose|octets: Seq<u8>| octets.len() == 4 && #[trigger] dotted_octets(octets) == text)
    } else {
        other_octets(text)
    }
}

/// The text that the standard writer of IP addresses makes of the sixteen octets of an IPv6 address.
pub uninterp spec fn ipv6_text(octets: Seq<u8>) -> Seq<char>;

/// An address in text: IPv4 in dotted decimal notation, IPv6 as the standard writer writes it.
pub open spec fn address_text(octets: Seq<u8>) -> Seq<char> {
    if octets.len() == 4 {
        dotted_octets(octets)
    } else {
        ipv6_text(octets)
    }
}

/// `str::parse` to `core::net::IpAddr`: four octets in dotted decimal notation without leading zeros
/// read as those octets. What another text reads as, if anything, depends on the text alone; the
/// notations of IPv6 are not spelled out here.
#[verifier::external_body]
fn parse_ip(text: &str) -> (found: Option<IpAddr>)
    ensures
        is_dotted(text@) ==> found is Some && (found->0)@.len() == 4 && dotted_octets((found->0)@)
            == text@,
        !is_dotted(text@) ==> match found {
            Some(address) => other_octets(text@) == Some(address@),
            None => other_octets(text@) is None,
        },
{
    match text.parse::<core::net::IpAddr>() {
        Ok(core::net::IpAddr::V4(address)) => Some(IpAddr::V4(address.octets())),
        Ok(core::net::IpAddr::V6(address)) => Some(IpAddr::V6(address.octets())),
        Err(_) => None,
    }
}

/// `core::net::IpAddr::to_string`: an IPv4 address is written in dotted decimal notation. What an
/// IPv6 address is written as depends on its octets alone, and is not spelled out here.
#[verifier::external_body]
fn ip_to_string(address: &IpAddr) -> (text: String)
    ensures
        address is V4 ==> text@ == dotted_octets(address@),
        address is V6 ==> text@ == ipv6_text(address@),
{
    let address = match address {
        IpAddr::V4(octets) => core::net::IpAddr::from(*octets),
        IpAddr::V6(octets) => core::net::IpAddr::from(*octets),
    };
    address.to_string()
}

/// A number in base ten holds no dot.
proof fn decimal_has_no_dot(value: nat)
    ensures
        !decimal(value).contains('.'),
{
    decimal_digits(value);
    assert forall|i: int| 0 <= i < decimal(value).len() implies decimal(value)[i] != '.' by {
        assert(digit(decimal(value)[i], 10) is Some);
    }
}

/// Different numbers are written differently.
proof fn decimal_is_injective(left: nat, right: nat)
    requires
        decimal(left) == decimal(right),
    ensures
        left == right,
{
    decimal_digits(left);
    decimal_digits(right);
}

/// Different IPv4 addresses are written differently.
pub proof fn dotted_octets_are_injective(left: Seq<u8>, right: Seq<u8>)
    requires
        left.len() == 4,
        right.len() == 4,
        dotted_octets(left) == dotted_octets(right),
    ensures
        left == right,
{
    let l = |i: int| decimal(left[i] as nat);
    let r = |i: int| decimal(right[i] as nat);
    assert forall|i: int| 0 <= i < 4 implies !(#[trigger] l(i)).contains('.') && !r(i).contains(
        '.',
    ) by {
        decimal_has_no_dot(left[i] as nat);
        decimal_has_no_dot(right[i] as nat);
    }
    assert(!l(0).contains('.') && !l(1).contains('.') && !l(2).contains('.'));
    let l3 = l(2) + seq!['.'] + l(3);
    let r3 = r(2) + seq!['.'] + r(3);
    parts_are_the_same(l(0), l(1) + seq!['.'] + l3, r(0), r(1) + seq!['.'] + r3, '.');
    parts_are_the_same(l(1), l3, r(1), r3, '.');
    parts_are_the_same(l(2), l(3), r(2), r(3), '.');
    decimal_is_injective(left[0] as nat, right[0] as nat);
    decimal_is_injective(left[1] as nat, right[1] as nat);
    decimal_is_injective(left[2] as nat, right[2] as nat);
    decimal_is_injective(left[3] as nat, right[3] as nat);
    assert(left =~= right);
}

/// An IPv4 address that was written is read back.
pub proof fn written_ipv4_is_read(octets: Seq<u8>)
    requires
        octets.len() == 4,
    ensures
        address_octets(address_text(octets)) == Some(octets),
{
    let text = dotted_octets(octets);
    assert(is_dotted(text));
    let found = choose|other: Seq<u8>| other.len() == 4 && #[trigger] dotted_octets(other) == text;
    dotted_octets_are_injective(found, octets);
}

/// Reads an IP address.
pub fn read_address(text: &str) -> (found: Option<IpAddr>)
    ensures
        match found {
            Some(address) => address_octets(text@) == Some(address@),
            None => address_octets(text@) is None,
        },
{
    let found = parse_ip(text);
    proof {
        if is_dotted(text@) {
            written_ipv4_is_read((found->0)@);
        }
    }
    found
}

/// Writes an IP address.
pub fn write_address(address: &IpAddr) -> (text: String)
    ensures
        text@ == address_text(address@),
{
    ip_to_string(address)
}

/// What is not in dotted decimal notation is read and written as the standard reader and writer do,
/// IPv6 addresses among it.
pub proof fn other_notations_are_the_standard_ones(text: Seq<char>, octets: Seq<u8>)
    ensures
        !is_dotted(text) ==> address_octets(text) == other_octets(text),
        octets.len() == 16 ==> address_text(octets) == ipv6_text(octets),
{
}

} // verus!
