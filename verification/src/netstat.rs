//! The connections that `netstat` prints.
use vstd::prelude::*;

use crate::address::{connection_views, is_remote, remote, shown, IpAddr, TcpConnection};
use crate::ip_text::{address_octets, address_text, read_address, written_ipv4_is_read};
use crate::number::{
    decimal, decimal_digits, decimal_is_read, digit, number, parse_number,
};
use crate::split::{
    fields, find_last, find_last_pair, last_index_is_last, last_pair_index,
    last_pair_index_is_last, lines, split_at_last, split_fields, split_lines,
};
use crate::text::{
    ascii_lower, ascii_upper, chars_of, same_text, stands_at, starts_with, text_of, texts,
    to_ascii_lower, to_ascii_upper,
};

verus! {

/// The octets of an address, if there is one.
pub open spec fn octets_of(address: Option<IpAddr>) -> Option<Seq<u8>> {
    match address {
        Some(ip) => Some(ip@),
        None => None,
    }
}

/// The text of an endpoint's address and that of its port. An address in brackets ends at the last
/// `]:`, another at the last colon.
pub open spec fn endpoint_parts(value: Seq<char>) -> Option<(Seq<char>, Seq<char>)> {
    if value.len() > 0 && value[0] == '[' {
        match last_pair_index(value, ']', ':') {
            Some(end) => Some((value.subrange(1, end), value.skip(end + 2))),
            None => None,
        }
    } else {
        split_at_last(value, ':')
    }
}

/// The endpoint that `value` writes, where `address` is what its address reads as.
pub open spec fn endpoint(value: Seq<char>, address: Option<Seq<u8>>) -> Option<(Seq<u8>, int)> {
    match (endpoint_parts(value), address) {
        (Some((_, port)), Some(octets)) => match number(port, 10, 0xffff) {
            Some(port_number) => Some((octets, port_number)),
            None => None,
        },
        _ => None,
    }
}

/// The octets of the address that stands in an endpoint.
pub open spec fn endpoint_octets(value: Seq<char>) -> Option<Seq<u8>> {
    match endpoint_parts(value) {
        Some((address, _)) => address_octets(address),
        None => None,
    }
}

/// The endpoint that `value` writes.
pub open spec fn endpoint_of(value: Seq<char>) -> Option<(Seq<u8>, int)> {
    endpoint(value, endpoint_octets(value))
}

/// The texts of a line's remote endpoint and state, if the line is that of a TCP connection.
/// Windows prints the protocol, two endpoints and the state; other systems may print two queue
/// lengths behind the protocol. A line without a state has the state UNKNOWN.
pub open spec fn netstat_words(line: Seq<char>, windows: bool) -> Option<(Seq<char>, Seq<char>)> {
    let words = fields(line);
    let at = if !windows && words.len() >= 6 {
        4int
    } else {
        2int
    };
    if words.len() > at && stands_at(ascii_lower(words[0]), "tcp"@, 0) {
        Some(
            (
                words[at],
                if at + 1 < words.len() {
                    words[at + 1]
                } else {
                    "UNKNOWN"@
                },
            ),
        )
    } else {
        None
    }
}

/// The text of the address of a line's remote endpoint.
pub open spec fn netstat_address(line: Seq<char>, windows: bool) -> Option<Seq<char>> {
    match netstat_words(line, windows) {
        Some((value, _)) => match endpoint_parts(value) {
            Some((address, _)) => Some(address),
            None => None,
        },
        None => None,
    }
}

/// The connection of a line, where `address` is what the address of its remote endpoint reads as.
pub open spec fn netstat_line(line: Seq<char>, windows: bool, address: Option<Seq<u8>>) -> Option<
    (Seq<u8>, int, Seq<char>),
> {
    match netstat_words(line, windows) {
        Some((value, state)) => match endpoint(value, address) {
            Some((octets, port)) => if remote(octets, port) {
                Some((octets, port, ascii_upper(state)))
            } else {
                None
            },
            None => None,
        },
        None => None,
    }
}

/// The connection of a line.
pub open spec fn connection_of(line: Seq<char>, windows: bool) -> Option<
    (Seq<u8>, int, Seq<char>),
> {
    netstat_line(
        line,
        windows,
        match netstat_address(line, windows) {
            Some(address) => address_octets(address),
            None => None,
        },
    )
}

/// The connections of the lines from `i` on.
pub open spec fn netstat_connections(
    list: Seq<Seq<char>>,
    i: int,
    windows: bool,
    all_states: bool,
) -> Seq<(Seq<u8>, int, Seq<char>)>
    decreases list.len() - i,
{
    if i < 0 || i >= list.len() {
        seq![]
    } else {
        let rest = netstat_connections(list, i + 1, windows, all_states);
        match connection_of(list[i], windows) {
            Some(connection) => if shown(all_states, connection.2) {
                seq![connection] + rest
            } else {
                rest
            },
            None => rest,
        }
    }
}

/// Cuts an endpoint into the text of its address and that of its port.
pub fn split_endpoint(value: &str) -> (parts: Option<(String, String)>)
    ensures
        match parts {
            Some((address, port)) => endpoint_parts(value@) == Some((address@, port@)),
            None => endpoint_parts(value@) is None,
        },
{
    let chars = chars_of(value);
    let total: usize = chars.len();
    if total > 0 && chars[0] == '[' {
        match find_last_pair(&chars, ']', ':') {
            Some(end) => {
                proof {
                    last_pair_index_is_last(value@, ']', ':');
                }
                let address = text_of(&chars[1..end]);
                let port = text_of(&chars[end + 2..total]);
                assert(port@ =~= value@.skip(end + 2));
                Some((address, port))
            },
            None => None,
        }
    } else {
        match find_last(&chars, ':') {
            Some(colon) => {
                proof {
                    last_index_is_last(value@, ':');
                }
                let address = text_of(&chars[0..colon]);
                let port = text_of(&chars[colon + 1..total]);
                assert(address@ =~= value@.take(colon as int));
                assert(port@ =~= value@.skip(colon + 1));
                Some((address, port))
            },
            None => None,
        }
    }
}

/// Reads an endpoint, where `address` is what its address reads as.
pub fn read_endpoint(value: &str, address: Option<IpAddr>) -> (found: Option<(IpAddr, u16)>)
    ensures
        match found {
            Some((ip, port)) => endpoint(value@, octets_of(address)) == Some((ip@, port as int)),
            None => endpoint(value@, octets_of(address)) is None,
        },
        found is Some ==> Some((found->0).0) == address,
{
    match (split_endpoint(value), address) {
        (Some((_, port)), Some(ip)) => match parse_number(port.as_str(), 10, 0xffff) {
            Some(port_number) => Some((ip, port_number as u16)),
            None => None,
        },
        _ => None,
    }
}

/// Reads an endpoint.
pub fn parse_endpoint(value: &str) -> (found: Option<(IpAddr, u16)>)
    ensures
        match found {
            Some((ip, port)) => endpoint_of(value@) == Some((ip@, port as int)),
            None => endpoint_of(value@) is None,
        },
{
    match split_endpoint(value) {
        Some((address, _)) => read_endpoint(value, read_address(address.as_str())),
        None => None,
    }
}

/// Cuts the texts of the remote endpoint and the state out of a line.
fn split_netstat_line(line: &str, windows: bool) -> (found: Option<(String, String)>)
    ensures
        match found {
            Some((value, state)) => netstat_words(line@, windows) == Some((value@, state@)),
            None => netstat_words(line@, windows) is None,
        },
{
    let words = split_fields(line);
    assert(texts(words@).len() == words@.len());
    assert forall|i: int| 0 <= i < words@.len() implies fields(line@)[i] == words@[i]@ by {}
    let at: usize = if !windows && words.len() >= 6 {
        4
    } else {
        2
    };
    if words.len() <= at {
        return None;
    }
    let protocol = to_ascii_lower(words[0].as_str());
    if !starts_with(protocol.as_str(), "tcp") {
        return None;
    }
    let state = if at + 1 < words.len() {
        words[at + 1].clone()
    } else {
        "UNKNOWN".to_owned()
    };
    Some((words[at].clone(), state))
}

/// Cuts the text of the address of the remote endpoint out of a line.
pub fn netstat_address_text(line: &str, windows: bool) -> (text: Option<String>)
    ensures
        match text {
            Some(address) => netstat_address(line@, windows) == Some(address@),
            None => netstat_address(line@, windows) is None,
        },
{
    match split_netstat_line(line, windows) {
        Some((value, _)) => match split_endpoint(value.as_str()) {
            Some((address, _)) => Some(address),
            None => None,
        },
        None => None,
    }
}

/// Reads the connection of a line, where `address` is what the address of its remote endpoint reads
/// as.
pub fn read_netstat_line(line: &str, windows: bool, address: Option<IpAddr>) -> (connection: Option<
    TcpConnection,
>)
    ensures
        match connection {
            Some(found) => netstat_line(line@, windows, octets_of(address)) == Some(found@),
            None => netstat_line(line@, windows, octets_of(address)) is None,
        },
{
    match split_netstat_line(line, windows) {
        Some((value, state)) => match read_endpoint(value.as_str(), address) {
            Some((remote_ip, remote_port)) => {
                if !is_remote(&remote_ip, remote_port) {
                    return None;
                }
                Some(
                    TcpConnection {
                        remote_ip,
                        remote_port,
                        state: to_ascii_upper(state.as_str()),
                    },
                )
            },
            None => None,
        },
        None => None,
    }
}

/// Reads the connection of a line.
pub fn parse_netstat_line(line: &str, windows: bool) -> (connection: Option<TcpConnection>)
    ensures
        match connection {
            Some(found) => connection_of(line@, windows) == Some(found@),
            None => connection_of(line@, windows) is None,
        },
{
    match netstat_address_text(line, windows) {
        Some(address) => read_netstat_line(line, windows, read_address(address.as_str())),
        None => None,
    }
}

/// Collects the connections that `text` lists.
pub fn collect_netstat_connections(
    text: &str,
    windows: bool,
    all_states: bool,
) -> (connections: Vec<TcpConnection>)
    ensures
        connection_views(connections@) == netstat_connections(
            lines(text@),
            0,
            windows,
            all_states,
        ),
{
    let list = split_lines(text);
    let ghost all = netstat_connections(lines(text@), 0, windows, all_states);
    assert(texts(list@).len() == list@.len());
    let mut connections: Vec<TcpConnection> = Vec::new();
    let mut i: usize = 0;
    assert(connection_views(connections@) + all =~= all);
    while i < list.len()
        invariant
            texts(list@) == lines(text@),
            texts(list@).len() == list@.len(),
            i <= list@.len(),
            connection_views(connections@) + netstat_connections(
                lines(text@),
                i as int,
                windows,
                all_states,
            ) == all,
        decreases list@.len() - i,
    {
        let ghost before = connection_views(connections@);
        let ghost rest = netstat_connections(
            lines(text@),
            i + 1,
            windows,
            all_states,
        );
        assert(lines(text@)[i as int] == list@[i as int]@);
        if let Some(connection) = parse_netstat_line(list[i].as_str(), windows) {
            if all_states || same_text(connection.state.as_str(), "ESTABLISHED") {
                let ghost added = connection@;
                connections.push(connection);
                assert(connection_views(connections@) =~= before.push(added));
                assert(connection_views(connections@) + rest =~= before + (seq![added] + rest));
            }
        }
        i += 1;
    }
    assert(connection_views(connections@) + Seq::<(Seq<u8>, int, Seq<char>)>::empty()
        =~= connection_views(connections@));
    connections
}

/// An endpoint with its address in brackets is cut into that address and its port. The port may be
/// any text without `]:`.
pub proof fn bracketed_endpoint_is_cut(address: Seq<char>, port: Seq<char>)
    requires
        last_pair_index(port, ']', ':') is None,
    ensures
        endpoint_parts(seq!['['] + address + seq![']', ':'] + port) == Some((address, port)),
{
    let value = seq!['['] + address + seq![']', ':'] + port;
    let end = address.len() + 1int;
    last_pair_index_is_last(value, ']', ':');
    last_pair_index_is_last(port, ']', ':');
    assert(value[end] == ']' && value[end + 1] == ':');
    assert forall|j: int| end < j < value.len() - 1 implies !(#[trigger] value[j] == ']' && value[j
        + 1] == ':') by {
        if j > end + 1 {
            assert(value[j] == port[j - end - 2] && value[j + 1] == port[j - end - 1]);
            if value[j] == ']' && value[j + 1] == ':' {
                assert(port[j - end - 2] == ']' && port[j - end - 2 + 1] == ':');
            }
        }
    }
    match last_pair_index(value, ']', ':') {
        Some(at) => {
            if at < end {
                assert(value[end] == ']');
            }
            assert(at == end);
        },
        None => {
            assert(value[end] == ']');
        },
    }
    assert(value.subrange(1, end) =~= address);
    assert(value.skip(end + 2) =~= port);
}

/// An endpoint without a bracket at its head is cut at its last colon: the port may be any text
/// without a colon.
pub proof fn plain_endpoint_is_cut(address: Seq<char>, port: Seq<char>)
    requires
        address.len() == 0 || address[0] != '[',
        forall|i: int| 0 <= i < port.len() ==> port[i] != ':',
    ensures
        endpoint_parts(address + seq![':'] + port) == Some((address, port)),
{
    let value = address + seq![':'] + port;
    let colon = address.len() as int;
    last_index_is_last(value, ':');
    assert(value[colon] == ':');
    assert forall|j: int| colon < j < value.len() implies value[j] != ':' by {
        assert(value[j] == port[j - colon - 1]);
    }
    assert(value.take(colon) =~= address);
    assert(value.skip(colon + 1) =~= port);
}

/// An IPv4 endpoint that was written is read back.
pub proof fn written_ipv4_endpoint_is_read(octets: Seq<u8>, port: nat)
    requires
        octets.len() == 4,
        port <= 0xffff,
    ensures
        endpoint_of(address_text(octets) + seq![':'] + decimal(port)) == Some((octets, port as int)),
{
    let address = address_text(octets);
    let digits = decimal(port);
    decimal_digits(octets[0] as nat);
    decimal_digits(port);
    assert(digit(decimal(octets[0] as nat)[0], 10) is Some);
    assert(address[0] == decimal(octets[0] as nat)[0]);
    assert forall|i: int| 0 <= i < digits.len() implies digits[i] != ':' by {
        assert(digit(digits[i], 10) is Some);
    }
    plain_endpoint_is_cut(address, digits);
    written_ipv4_is_read(octets);
    decimal_is_read(port, 0xffff);
}

/// Each connection that is collected has a remote endpoint and a state without ASCII small letters,
/// and is established unless all states are asked for.
pub proof fn netstat_connections_are_remote(
    list: Seq<Seq<char>>,
    i: int,
    windows: bool,
    all_states: bool,
)
    ensures
        forall|k: int|
            #![trigger netstat_connections(list, i, windows, all_states)[k]]
            0 <= k < netstat_connections(list, i, windows, all_states).len() ==> {
                let found = netstat_connections(list, i, windows, all_states)[k];
                &&& remote(found.0, found.1)
                &&& shown(all_states, found.2)
                &&& ascii_upper(found.2) == found.2
            },
    decreases list.len() - i,
{
    if 0 <= i < list.len() {
        let rest = netstat_connections(list, i + 1, windows, all_states);
        let all = netstat_connections(list, i, windows, all_states);
        netstat_connections_are_remote(list, i + 1, windows, all_states);
        let line = connection_of(list[i], windows);
        if line is Some {
            let state = (netstat_words(list[i], windows)->0).1;
            assert(ascii_upper(ascii_upper(state)) =~= ascii_upper(state));
        }
        assert forall|k: int| #![trigger all[k]] 0 <= k < all.len() implies remote(
            all[k].0,
            all[k].1,
        ) && shown(all_states, all[k].2) && ascii_upper(all[k].2) == all[k].2 by {
            if line is Some && shown(all_states, (line->0).2) && k > 0 {
                assert(all[k] == rest[k - 1]);
            }
        }
    }
}

/// The established connections are those that are collected for all states, as far as their state
/// is ESTABLISHED, in the same order.
pub proof fn established_are_a_part(
    list: Seq<Seq<char>>,
    i: int,
    windows: bool,
)
    ensures
        netstat_connections(list, i, windows, false) == netstat_connections(
            list,
            i,
            windows,
            true,
        ).filter(|found: (Seq<u8>, int, Seq<char>)| found.2 == "ESTABLISHED"@),
    decreases list.len() - i,
{
    let established = |found: (Seq<u8>, int, Seq<char>)| found.2 == "ESTABLISHED"@;
    let all = netstat_connections(list, i, windows, true);
    if 0 <= i < list.len() {
        let rest = netstat_connections(list, i + 1, windows, true);
        established_are_a_part(list, i + 1, windows);
        if let Some(found) = connection_of(list[i], windows) {
            Seq::filter_distributes_over_add(seq![found], rest, established);
            reveal_with_fuel(Seq::filter, 2);
            assert(seq![found].drop_last() =~= Seq::empty());
            assert(seq![found].filter(established) =~= if established(found) {
                seq![found]
            } else {
                Seq::empty()
            });
            assert(netstat_connections(list, i, windows, false) =~= all.filter(
                established,
            ));
        }
    } else {
        reveal(Seq::filter);
        assert(all.filter(established) =~= Seq::empty());
    }
}

} // verus!
