//! What holds of connection tables: which lines are listed, and as what.
use vstd::prelude::*;
use vstd::utf8::{encode_utf8, is_ascii_chars};

use crate::address::{connection_views, remote, shown, IpAddr, TcpConnection};
use crate::netstat::{
    connection_of, endpoint, endpoint_of, endpoint_parts, netstat_address, netstat_connections,
    netstat_line, octets_of,
};
use crate::number::number;
use crate::proc_laws::{ascii_endpoint_is_cuttable, ascii_is_cut, written_endpoint, written_endpoint_is_read};
use crate::proc_table::{
    proc_connections, proc_endpoint, proc_line, proc_line_cuttable, proc_table_cuttable,
    state_name, table_lines, word, word_bytes, words_bytes,
};
use crate::split::{
    fields, first_index, first_index_is_first, last_pair_index, last_pair_index_is_last, lines,
    word_len,
};
use crate::text::{ascii_lower, ascii_upper, stands_at, white_space};
use crate::text_laws::{
    beginning_is_a_cut, first_cut_is_at_the_first_mark, last_cut_is_at_the_last_mark, spaced,
    spaced_words_are_fields, well_spaced,
};

verus! {

/// Whether an endpoint is that of another machine: its port is not zero, and its address is neither
/// all zeros nor that of the machine itself, which is 127 and any three octets, or fifteen zeros and
/// a one.
pub open spec fn is_far(octets: Seq<u8>, port: int) -> bool {
    &&& port != 0
    &&& exists|i: int| 0 <= i < octets.len() && #[trigger] octets[i] != 0
    &&& octets.len() == 4 ==> octets[0] != 127
    &&& octets.len() == 16 ==> octets[15] != 1 || exists|i: int|
        0 <= i < 15 && #[trigger] octets[i] != 0
}

/// An endpoint is remote exactly if it is that of another machine.
pub proof fn remote_endpoints_are_far(octets: Seq<u8>, port: int)
    requires
        octets.len() == 4 || octets.len() == 16,
    ensures
        remote(octets, port) <==> is_far(octets, port),
{
    let one = Seq::new(16, |i: int| if i == 15 { 1u8 } else { 0u8 });
    if octets.len() == 16 {
        if octets[15] == 1 && forall|i: int| 0 <= i < 15 ==> #[trigger] octets[i] == 0 {
            assert(octets =~= one);
        }
        if octets == one {
            assert(octets[15] == 1);
            assert forall|i: int| 0 <= i < 15 implies #[trigger] octets[i] == 0 by {
                assert(one[i] == 0);
            }
        }
    }
}

/// All connections are shown, or those whose state is ESTABLISHED.
pub proof fn established_are_always_shown(state: Seq<char>)
    ensures
        shown(true, state),
        shown(false, state) <==> state == "ESTABLISHED"@,
{
}

/// The views of connections are their addresses, ports and states, in their order.
pub proof fn connection_views_show_everything(connections: Seq<TcpConnection>, i: int)
    requires
        0 <= i < connections.len(),
    ensures
        connection_views(connections).len() == connections.len(),
        connection_views(connections)[i].0 == connections[i].remote_ip@,
        connection_views(connections)[i].1 == connections[i].remote_port,
        connection_views(connections)[i].2 == connections[i].state@,
{
}

/// The codes of the states, and their names behind them.
pub open spec fn known_states() -> Seq<(Seq<char>, Seq<char>)> {
    seq![
        ("01"@, "ESTABLISHED"@),
        ("02"@, "SYN_SENT"@),
        ("03"@, "SYN_RECV"@),
        ("04"@, "FIN_WAIT1"@),
        ("05"@, "FIN_WAIT2"@),
        ("06"@, "TIME_WAIT"@),
        ("07"@, "CLOSE"@),
        ("08"@, "CLOSE_WAIT"@),
        ("09"@, "LAST_ACK"@),
        ("0A"@, "LISTEN"@),
        ("0B"@, "CLOSING"@),
    ]
}

/// A state code is named as the system names it, and a code that is none of its codes is unknown.
pub proof fn states_are_named_as_known(code: Seq<char>)
    ensures
        forall|i: int|
            0 <= i < known_states().len() ==> state_name((#[trigger] known_states()[i]).0)
                == known_states()[i].1,
        (forall|i: int| 0 <= i < known_states().len() ==> (#[trigger] known_states()[i]).0 != code)
            ==> state_name(code) == "UNKNOWN"@,
{
    reveal_strlit("01");
    reveal_strlit("02");
    reveal_strlit("03");
    reveal_strlit("04");
    reveal_strlit("05");
    reveal_strlit("06");
    reveal_strlit("07");
    reveal_strlit("08");
    reveal_strlit("09");
    reveal_strlit("0A");
    reveal_strlit("0B");
    assert("01"@[1] == '1' && "02"@[1] == '2' && "03"@[1] == '3' && "04"@[1] == '4');
    assert("05"@[1] == '5' && "06"@[1] == '6' && "07"@[1] == '7' && "08"@[1] == '8');
    assert("09"@[1] == '9' && "0A"@[1] == 'A' && "0B"@[1] == 'B');
    let known = known_states();
    if forall|i: int| 0 <= i < known.len() ==> (#[trigger] known[i]).0 != code {
        assert(known[0].0 == "01"@ && known[1].0 == "02"@ && known[2].0 == "03"@);
        assert(known[3].0 == "04"@ && known[4].0 == "05"@ && known[5].0 == "06"@);
        assert(known[6].0 == "07"@ && known[7].0 == "08"@ && known[8].0 == "09"@);
        assert(known[9].0 == "0A"@ && known[10].0 == "0B"@);
    }
}

// Tables
/// A line of a table whose third word is the endpoint of another machine is listed, whatever its
/// other words are and however many follow: with the address and the port of that endpoint and the
/// state that its fourth word names. Where not all states are asked for, it is listed if that word is
/// 01.
pub proof fn line_of_a_connection_is_listed(
    words: Seq<Seq<char>>,
    gaps: Seq<Seq<char>>,
    octets: Seq<u8>,
    port: int,
)
    requires
        well_spaced(words, gaps),
        words.len() >= 4,
        octets.len() == 4 || octets.len() == 16,
        proc_endpoint(words[2]) == Some((octets, port)),
        is_far(octets, port),
    ensures
        proc_line(spaced(words, gaps), true) == Some((octets, port, state_name(words[3]))),
        words[3] == "01"@ ==> proc_line(spaced(words, gaps), false) == Some(
            (octets, port, "ESTABLISHED"@),
        ),
        words[3] != "01"@ ==> proc_line(spaced(words, gaps), false) is None,
{
    spaced_words_are_fields(words, gaps);
    remote_endpoints_are_far(octets, port);
    other_codes_are_not_established(words[3]);
}

/// A line of a table as the system writes it is listed: its third word is the endpoint of another
/// machine, written in hexadecimal.
pub proof fn written_line_is_listed(
    words: Seq<Seq<char>>,
    gaps: Seq<Seq<char>>,
    octets: Seq<u8>,
    port: nat,
)
    requires
        well_spaced(words, gaps),
        words.len() >= 4,
        octets.len() == 4 || octets.len() == 16,
        port < 65536,
        words[2] == written_endpoint(octets, port),
        is_far(octets, port as int),
    ensures
        proc_line(spaced(words, gaps), true) == Some((octets, port as int, state_name(words[3]))),
        words[3] == "01"@ ==> proc_line(spaced(words, gaps), false) == Some(
            (octets, port as int, "ESTABLISHED"@),
        ),
{
    written_endpoint_is_read(octets, port);
    line_of_a_connection_is_listed(words, gaps, octets, port as int);
}

proof fn other_codes_are_not_established(code: Seq<char>)
    ensures
        state_name(code) == "ESTABLISHED"@ <==> code == "01"@,
{
    reveal_strlit("ESTABLISHED");
    reveal_strlit("SYN_SENT");
    reveal_strlit("SYN_RECV");
    reveal_strlit("FIN_WAIT1");
    reveal_strlit("FIN_WAIT2");
    reveal_strlit("TIME_WAIT");
    reveal_strlit("CLOSE");
    reveal_strlit("CLOSE_WAIT");
    reveal_strlit("LAST_ACK");
    reveal_strlit("LISTEN");
    reveal_strlit("CLOSING");
    reveal_strlit("UNKNOWN");
    assert("ESTABLISHED"@.len() == 11);
    assert("SYN_SENT"@.len() == 8 && "SYN_RECV"@.len() == 8 && "FIN_WAIT1"@.len() == 9);
    assert("FIN_WAIT2"@.len() == 9 && "TIME_WAIT"@.len() == 9 && "CLOSE"@.len() == 5);
    assert("CLOSE_WAIT"@.len() == 10 && "LAST_ACK"@.len() == 8 && "LISTEN"@.len() == 6);
    assert("CLOSING"@.len() == 7 && "UNKNOWN"@.len() == 7);
}

/// A line with fewer than four words, or whose third word is no endpoint of another machine, is not
/// listed.
pub proof fn other_line_is_not_listed(
    words: Seq<Seq<char>>,
    gaps: Seq<Seq<char>>,
    all_states: bool,
)
    requires
        well_spaced(words, gaps),
        words.len() < 4 || match proc_endpoint(words[2]) {
            Some((octets, port)) => (octets.len() == 4 || octets.len() == 16) && !is_far(
                octets,
                port,
            ),
            None => true,
        },
    ensures
        proc_line(spaced(words, gaps), all_states) is None,
{
    spaced_words_are_fields(words, gaps);
    if words.len() >= 4 {
        if let Some((octets, port)) = proc_endpoint(words[2]) {
            remote_endpoints_are_far(octets, port);
        }
    }
}

/// The connections of lines are those of each line, in their order.
pub proof fn lines_are_listed_one_by_one(
    first: Seq<Seq<char>>,
    second: Seq<Seq<char>>,
    line: Seq<char>,
    all_states: bool,
)
    ensures
        proc_connections(seq![], all_states).len() == 0,
        proc_connections(seq![line], all_states) == (match proc_line(line, all_states) {
            Some(connection) => seq![connection],
            None => seq![],
        }),
        proc_connections(first + second, all_states) == proc_connections(first, all_states)
            + proc_connections(second, all_states),
    decreases first.len(),
{
    let single = seq![line];
    assert(single.drop_first() =~= seq![]);
    assert(proc_connections(single.drop_first(), all_states) =~= seq![]);
    assert(proc_connections(single, all_states) =~= match proc_line(line, all_states) {
        Some(connection) => seq![connection],
        None => seq![],
    });
    if first.len() == 0 {
        assert(first + second =~= second);
        assert(proc_connections(first + second, all_states) =~= proc_connections(first, all_states)
            + proc_connections(second, all_states));
    } else {
        let rest = first.drop_first();
        assert((first + second).drop_first() =~= rest + second);
        assert((first + second)[0] == first[0]);
        lines_are_listed_one_by_one(rest, second, line, all_states);
        assert(proc_connections(first + second, all_states) =~= proc_connections(first, all_states)
            + proc_connections(second, all_states));
    }
}

/// The first line of a table is its heading, and the others are its lines.
pub proof fn heading_is_no_line(heading: Seq<char>, rest: Seq<char>)
    requires
        !heading.contains('\n'),
    ensures
        table_lines(heading + seq!['\n'] + rest) == lines(rest),
        table_lines(heading).len() == 0,
{
    let text = heading + seq!['\n'] + rest;
    first_cut_is_at_the_first_mark(text, '\n', heading, rest);
    first_cut_is_at_the_first_mark(heading, '\n', seq![], seq![]);
    let at = first_index(text, '\n')->0;
    assert(text.skip(at + 1) == rest);
    assert(lines(text).drop_first() =~= lines(rest));
}

/// The number that four octets write, lowest first.
pub open spec fn low_first(octets: Seq<u8>, at: int) -> int {
    octets[at] + octets[at + 1] * 256 + octets[at + 2] * 65536 + octets[at + 3] * 16777216
}

proof fn word_is_written_low_first(value: int)
    requires
        0 <= value <= 0xffff_ffff,
    ensures
        word_bytes(value).len() == 4,
        low_first(word_bytes(value), 0) == value,
{
}

/// An endpoint of eight figures, a colon and a port is the IPv4 address whose octets, lowest first,
/// write the number of the figures.
pub proof fn eight_figures_are_an_ipv4_address(address: Seq<char>, port: Seq<char>)
    requires
        is_ascii_chars(address),
        address.len() == 8,
        !address.contains(':'),
    ensures
        match (number(address, 16, 0xffff_ffff), number(port, 16, 0xffff)) {
            (Some(value), Some(port_number)) => {
                &&& proc_endpoint(address + seq![':'] + port) is Some
                &&& (proc_endpoint(address + seq![':'] + port)->0).1 == port_number
                &&& (proc_endpoint(address + seq![':'] + port)->0).0.len() == 4
                &&& low_first((proc_endpoint(address + seq![':'] + port)->0).0, 0) == value
            },
            _ => proc_endpoint(address + seq![':'] + port) is None,
        },
{
    let text = address + seq![':'] + port;
    first_cut_is_at_the_first_mark(text, ':', address, port);
    vstd::utf8::is_ascii_chars_encode_utf8(address);
    if let Some(value) = number(address, 16, 0xffff_ffff) {
        number_is_not_negative(address, 0xffff_ffff);
        word_is_written_low_first(value);
    }
}

proof fn number_is_not_negative(text: Seq<char>, max: int)
    ensures
        number(text, 16, max) matches Some(value) ==> 0 <= value <= max,
{
    let digits = crate::number::unsigned_part(text);
    if crate::number::all_digits(digits, 16) {
        crate::number::more_digits_are_no_less(digits, 16, 0);
    }
}

/// An endpoint of thirty-two figures, a colon and a port is the IPv6 address whose octets write,
/// four at a time and lowest first, the numbers of eight figures at a time.
pub proof fn thirty_two_figures_are_an_ipv6_address(address: Seq<char>, port: Seq<char>, k: int)
    requires
        is_ascii_chars(address),
        address.len() == 32,
        !address.contains(':'),
        0 <= k < 4,
    ensures
        proc_endpoint(address + seq![':'] + port) is Some <==> {
            &&& number(port, 16, 0xffff) is Some
            &&& number(address.subrange(0, 8), 16, 0xffff_ffff) is Some
            &&& number(address.subrange(8, 16), 16, 0xffff_ffff) is Some
            &&& number(address.subrange(16, 24), 16, 0xffff_ffff) is Some
            &&& number(address.subrange(24, 32), 16, 0xffff_ffff) is Some
        },
        proc_endpoint(address + seq![':'] + port) is Some ==> {
            let found = proc_endpoint(address + seq![':'] + port)->0;
            &&& found.0.len() == 16
            &&& Some(found.1) == number(port, 16, 0xffff)
            &&& Some(low_first(found.0, 4 * k)) == number(
                address.subrange(8 * k, 8 * k + 8),
                16,
                0xffff_ffff,
            )
        },
{
    let text = address + seq![':'] + port;
    first_cut_is_at_the_first_mark(text, ':', address, port);
    vstd::utf8::is_ascii_chars_encode_utf8(address);
    let t1 = address.skip(8);
    let t2 = t1.skip(8);
    let t3 = t2.skip(8);
    ascii_is_cut(address);
    ascii_is_cut(t1);
    ascii_is_cut(t2);
    ascii_is_cut(t3);
    let a = address.subrange(0, 8);
    let b = address.subrange(8, 16);
    let c = address.subrange(16, 24);
    let d = address.subrange(24, 32);
    assert(address.take(8) =~= a);
    assert(t1.take(8) =~= b);
    assert(t2.take(8) =~= c);
    assert(t3.take(8) =~= d);
    number_is_not_negative(a, 0xffff_ffff);
    number_is_not_negative(b, 0xffff_ffff);
    number_is_not_negative(c, 0xffff_ffff);
    number_is_not_negative(d, 0xffff_ffff);
    reveal_with_fuel(words_bytes, 5);
    if word(a) is Some && word(b) is Some && word(c) is Some && word(d) is Some {
        word_is_written_low_first(word(a)->0);
        word_is_written_low_first(word(b)->0);
        word_is_written_low_first(word(c)->0);
        word_is_written_low_first(word(d)->0);
        let octets = words_bytes(address, 4)->0;
        assert(octets == word_bytes(word(a)->0) + (word_bytes(word(b)->0) + (word_bytes(
            word(c)->0,
        ) + (word_bytes(word(d)->0) + seq![]))));
    }
}

/// An endpoint without a colon, or whose address is neither eight nor thirty-two bytes long, is none.
pub proof fn other_lengths_are_no_address(value: Seq<char>, address: Seq<char>, port: Seq<char>)
    requires
        !value.contains(':') || value == address + seq![':'] + port && !address.contains(':')
            && encode_utf8(address).len() != 8 && encode_utf8(address).len() != 32,
    ensures
        proc_endpoint(value) is None,
{
    first_cut_is_at_the_first_mark(value, ':', address, port);
}

// netstat
/// What has no colon is no endpoint, and an address that begins with a bracket needs `]:` behind it.
pub proof fn endpoint_needs_a_colon(value: Seq<char>)
    ensures
        !value.contains(':') ==> endpoint_parts(value) is None,
        value.len() > 0 && value[0] == '[' && (forall|i: int|
            0 <= i < value.len() - 1 ==> !(#[trigger] value[i] == ']' && value[i + 1] == ':'))
            ==> endpoint_parts(value) is None,
{
    last_cut_is_at_the_last_mark(value, ':', seq![], seq![]);
    last_pair_index_is_last(value, ']', ':');
    if !value.contains(':') {
        match last_pair_index(value, ']', ':') {
            Some(at) => {
                assert(value[at + 1] == ':');
            },
            None => {},
        }
    }
}

/// An endpoint has the octets that its address reads as and the port that is written behind it in
/// base ten, and is none if one of them is missing.
pub proof fn endpoint_is_its_address_and_port(
    value: Seq<char>,
    address: Seq<char>,
    port: Seq<char>,
    octets: Option<Seq<u8>>,
)
    requires
        endpoint_parts(value) == Some((address, port)),
    ensures
        endpoint(value, octets) == (match (octets, number(port, 10, 0xffff)) {
            (Some(found), Some(port_number)) => Some((found, port_number)),
            _ => None::<(Seq<u8>, int)>,
        }),
        endpoint_of(value) == endpoint(value, crate::ip_text::address_octets(address)),
{
}

/// Where the remote endpoint stands among the words of a line: the fifth word where there are two
/// queue lengths before the endpoints, which Windows does not print, and else the third.
pub open spec fn remote_word(count: int, windows: bool) -> int {
    if count >= 6 && !windows {
        4
    } else {
        2
    }
}

/// Whether a word begins with `tcp`, in letters of either case.
pub open spec fn names_tcp(word: Seq<char>) -> bool {
    &&& word.len() >= 3
    &&& word[0] == 't' || word[0] == 'T'
    &&& word[1] == 'c' || word[1] == 'C'
    &&& word[2] == 'p' || word[2] == 'P'
}

proof fn tcp_is_named_in_either_case(word: Seq<char>)
    ensures
        stands_at(ascii_lower(word), "tcp"@, 0) <==> names_tcp(word),
{
    reveal_strlit("tcp");
    let low = ascii_lower(word);
    beginning_is_a_cut(low, "tcp"@);
    assert("tcp"@.len() == 3 && "tcp"@[0] == 't' && "tcp"@[1] == 'c' && "tcp"@[2] == 'p');
    if word.len() >= 3 {
        assert(low[0] == crate::text::lower_char(word[0]));
        assert(low[1] == crate::text::lower_char(word[1]));
        assert(low[2] == crate::text::lower_char(word[2]));
        if names_tcp(word) {
            assert forall|i: int| 0 <= i < 3 implies low[i] == #[trigger] "tcp"@[i] by {}
        }
    }
}

/// A line of a TCP connection to another machine is listed, with the address and the port of its
/// remote endpoint and its state in capitals, or UNKNOWN where it prints none.
pub proof fn netstat_line_is_listed(
    words: Seq<Seq<char>>,
    gaps: Seq<Seq<char>>,
    windows: bool,
    octets: Seq<u8>,
    port: int,
)
    requires
        well_spaced(words, gaps),
        words.len() > remote_word(words.len() as int, windows),
        names_tcp(words[0]),
        octets.len() == 4 || octets.len() == 16,
        endpoint_of(words[remote_word(words.len() as int, windows)]) == Some((octets, port)),
        is_far(octets, port),
    ensures
        connection_of(spaced(words, gaps), windows) == Some(
            (
                octets,
                port,
                if remote_word(words.len() as int, windows) + 1 < words.len() {
                    ascii_upper(words[remote_word(words.len() as int, windows) + 1])
                } else {
                    "UNKNOWN"@
                },
            ),
        ),
{
    spaced_words_are_fields(words, gaps);
    tcp_is_named_in_either_case(words[0]);
    remote_endpoints_are_far(octets, port);
    reveal_strlit("UNKNOWN");
    assert(ascii_upper("UNKNOWN"@) =~= "UNKNOWN"@);
}

/// A line of another protocol, without a remote endpoint, or with one that is not of another
/// machine, is not listed.
pub proof fn other_netstat_line_is_not_listed(
    words: Seq<Seq<char>>,
    gaps: Seq<Seq<char>>,
    windows: bool,
)
    requires
        well_spaced(words, gaps),
        ({
            ||| words.len() <= remote_word(words.len() as int, windows)
            ||| !names_tcp(words[0])
            ||| match endpoint_of(words[remote_word(words.len() as int, windows)]) {
                Some((octets, port)) => (octets.len() == 4 || octets.len() == 16) && !is_far(
                    octets,
                    port,
                ),
                None => true,
            }
        }),
    ensures
        connection_of(spaced(words, gaps), windows) is None,
{
    spaced_words_are_fields(words, gaps);
    if words.len() > remote_word(words.len() as int, windows) {
        tcp_is_named_in_either_case(words[0]);
        if let Some((octets, port)) = endpoint_of(
            words[remote_word(words.len() as int, windows)],
        ) {
            if octets.len() == 4 || octets.len() == 16 {
                remote_endpoints_are_far(octets, port);
            }
        }
    }
}

/// The line with a given address is listed as the line is whose address reads as that one.
pub proof fn given_address_stands_for_the_text(
    words: Seq<Seq<char>>,
    gaps: Seq<Seq<char>>,
    windows: bool,
    octets: Seq<u8>,
    port: int,
)
    requires
        well_spaced(words, gaps),
        words.len() > remote_word(words.len() as int, windows),
        names_tcp(words[0]),
        octets.len() == 4 || octets.len() == 16,
        endpoint(words[remote_word(words.len() as int, windows)], Some(octets)) == Some(
            (octets, port),
        ),
    ensures
        is_far(octets, port) ==> netstat_line(spaced(words, gaps), windows, Some(octets)) == Some(
            (
                octets,
                port,
                if remote_word(words.len() as int, windows) + 1 < words.len() {
                    ascii_upper(words[remote_word(words.len() as int, windows) + 1])
                } else {
                    "UNKNOWN"@
                },
            ),
        ),
        !is_far(octets, port) ==> netstat_line(spaced(words, gaps), windows, Some(octets)) is None,
{
    spaced_words_are_fields(words, gaps);
    tcp_is_named_in_either_case(words[0]);
    remote_endpoints_are_far(octets, port);
    reveal_strlit("UNKNOWN");
    assert(ascii_upper("UNKNOWN"@) =~= "UNKNOWN"@);
}

/// The connections of printed lines are those of each line that are shown, in their order.
pub proof fn printed_lines_are_listed_one_by_one(
    list: Seq<Seq<char>>,
    i: int,
    windows: bool,
    all_states: bool,
)
    requires
        0 <= i <= list.len(),
    ensures
        netstat_connections(list, list.len() as int, windows, all_states).len() == 0,
        i < list.len() ==> netstat_connections(list, i, windows, all_states) == (
        match connection_of(list[i], windows) {
            Some(connection) => if all_states || connection.2 == "ESTABLISHED"@ {
                seq![connection]
            } else {
                seq![]
            },
            None => seq![],
        }) + netstat_connections(list, i + 1, windows, all_states),
{
    if i < list.len() {
        let rest = netstat_connections(list, i + 1, windows, all_states);
        assert(Seq::<(Seq<u8>, int, Seq<char>)>::empty() + rest =~= rest);
    }
}

proof fn fields_of_ascii_are_ascii(text: Seq<char>, i: int)
    requires
        is_ascii_chars(text),
        0 <= i < fields(text).len(),
    ensures
        is_ascii_chars(fields(text)[i]),
    decreases text.len(),
{
    crate::split::word_fits(text);
    if text.len() > 0 {
        crate::split::word_fits(text.drop_first());
        if white_space(text[0]) {
            let rest = text.drop_first();
            part_of_ascii_is_ascii(text, 1, text.len() as int);
            assert(rest =~= text.subrange(1, text.len() as int));
            fields_of_ascii_are_ascii(rest, i);
        } else {
            let count = word_len(text);
            part_of_ascii_is_ascii(text, 0, count);
            part_of_ascii_is_ascii(text, count, text.len() as int);
            assert(text.take(count) =~= text.subrange(0, count));
            assert(text.skip(count) =~= text.subrange(count, text.len() as int));
            if i > 0 {
                fields_of_ascii_are_ascii(text.skip(count), i - 1);
            }
        }
    }
}

proof fn part_of_ascii_is_ascii(text: Seq<char>, start: int, end: int)
    requires
        is_ascii_chars(text),
        0 <= start <= end <= text.len(),
    ensures
        is_ascii_chars(text.subrange(start, end)),
{
    let part = text.subrange(start, end);
    assert forall|i: int| 0 <= i < part.len() implies '\0' <= #[trigger] part[i] <= '\u{7f}' by {
        assert(part[i] == text[start + i]);
    }
}

proof fn lines_of_ascii_are_ascii(text: Seq<char>, i: int)
    requires
        is_ascii_chars(text),
        0 <= i < lines(text).len(),
    ensures
        is_ascii_chars(lines(text)[i]),
    decreases text.len(),
{
    first_index_is_first(text, '\n');
    if text.len() > 0 {
        if let Some(end) = first_index(text, '\n') {
            part_of_ascii_is_ascii(text, 0, end);
            part_of_ascii_is_ascii(text, end + 1, text.len() as int);
            let line = text.take(end);
            assert(line =~= text.subrange(0, end));
            assert(text.skip(end + 1) =~= text.subrange(end + 1, text.len() as int));
            if i > 0 {
                lines_of_ascii_are_ascii(text.skip(end + 1), i - 1);
            } else if line.len() > 0 {
                part_of_ascii_is_ascii(line, 0, line.len() - 1);
                assert(line.drop_last() =~= line.subrange(0, line.len() - 1));
            }
        }
    }
}

/// A table that is ASCII, as the system writes it, can be read.
pub proof fn ascii_table_is_cuttable(text: Seq<char>)
    requires
        is_ascii_chars(text),
    ensures
        proc_table_cuttable(text),
{
    assert forall|i: int| 0 <= i < table_lines(text).len() implies proc_line_cuttable(
        #[trigger] table_lines(text)[i],
    ) by {
        let line = table_lines(text)[i];
        assert(line == lines(text)[i + 1]);
        lines_of_ascii_are_ascii(text, i + 1);
        if fields(line).len() >= 4 {
            fields_of_ascii_are_ascii(line, 2);
            ascii_endpoint_is_cuttable(fields(line)[2]);
        }
    }
}

/// The view of an address is its octets: four of them for IPv4, sixteen for IPv6.
pub proof fn address_views_are_octets(four: [u8; 4], sixteen: [u8; 16])
    ensures
        IpAddr::V4(four)@ == four@,
        IpAddr::V6(sixteen)@ == sixteen@,
        octets_of(Some(IpAddr::V4(four))) == Some(four@),
        octets_of(Some(IpAddr::V6(sixteen))) == Some(sixteen@),
        octets_of(None) is None,
{
}

/// What cannot be cut into an address and a port is no endpoint, whatever its address would be.
pub proof fn uncut_text_is_no_endpoint(value: Seq<char>, octets: Option<Seq<u8>>)
    requires
        endpoint_parts(value) is None,
    ensures
        endpoint(value, octets) is None,
        endpoint_of(value) is None,
{
}

/// The address of a line is that of its remote endpoint, if the line is one of TCP.
pub proof fn address_of_a_line_is_its_remote_one(
    words: Seq<Seq<char>>,
    gaps: Seq<Seq<char>>,
    windows: bool,
)
    requires
        well_spaced(words, gaps),
    ensures
        netstat_address(spaced(words, gaps), windows) == (if words.len() > remote_word(
            words.len() as int,
            windows,
        ) && names_tcp(words[0]) {
            match endpoint_parts(words[remote_word(words.len() as int, windows)]) {
                Some((address, _)) => Some(address),
                None => None,
            }
        } else {
            None::<Seq<char>>
        }),
{
    spaced_words_are_fields(words, gaps);
    if words.len() > 0 {
        tcp_is_named_in_either_case(words[0]);
    }
}

} // verus!
