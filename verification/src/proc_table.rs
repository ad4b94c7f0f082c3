//! The TCP connection tables of Linux, `/proc/net/tcp` and `/proc/net/tcp6`.
use vstd::prelude::*;
use vstd::utf8::{decode_utf8, encode_utf8, is_char_boundary};

use crate::address::{connection_views, is_remote, remote, shown, IpAddr, TcpConnection};
use crate::number::{number, parse_number};
use crate::split::{fields, find_first, lines, split_at_first, split_fields, split_lines};
use crate::text::{chars_of, same_text, text_of, texts};

verus! {

/// The name of a state that the table writes as two hexadecimal figures.
pub open spec fn state_name(code: Seq<char>) -> Seq<char> {
    if code == "01"@ {
        "ESTABLISHED"@
    } else if code == "02"@ {
        "SYN_SENT"@
    } else if code == "03"@ {
        "SYN_RECV"@
    } else if code == "04"@ {
        "FIN_WAIT1"@
    } else if code == "05"@ {
        "FIN_WAIT2"@
    } else if code == "06"@ {
        "TIME_WAIT"@
    } else if code == "07"@ {
        "CLOSE"@
    } else if code == "08"@ {
        "CLOSE_WAIT"@
    } else if code == "09"@ {
        "LAST_ACK"@
    } else if code == "0A"@ {
        "LISTEN"@
    } else if code == "0B"@ {
        "CLOSING"@
    } else {
        "UNKNOWN"@
    }
}

/// The four bytes of a word, lowest first.
pub open spec fn word_bytes(word: int) -> Seq<u8> {
    seq![
        (word % 256) as u8,
        (word / 256 % 256) as u8,
        (word / 65536 % 256) as u8,
        (word / 16777216) as u8,
    ]
}

/// The text of the first eight bytes of `text`.
pub open spec fn word_text(text: Seq<char>) -> Seq<char> {
    decode_utf8(encode_utf8(text).subrange(0, 8))
}

/// The text behind the first eight bytes of `text`.
pub open spec fn behind_word(text: Seq<char>) -> Seq<char> {
    decode_utf8(encode_utf8(text).subrange(8, encode_utf8(text).len() as int))
}

/// The word that a hexadecimal text writes.
pub open spec fn word(text: Seq<char>) -> Option<int> {
    number(text, 16, 0xffff_ffff)
}

/// The bytes of `count` words of eight figures each.
pub open spec fn words_bytes(text: Seq<char>, count: nat) -> Option<Seq<u8>>
    decreases count,
{
    if count == 0 {
        Some(seq![])
    } else {
        match (word(word_text(text)), words_bytes(behind_word(text), (count - 1) as nat)) {
            (Some(first), Some(rest)) => Some(word_bytes(first) + rest),
            _ => None,
        }
    }
}

/// Whether no character of `text` stands across the end of one of the words that are read from it:
/// words are read up to the first that is no number.
pub open spec fn words_cuttable(text: Seq<char>, count: nat) -> bool
    decreases count,
{
    count == 0 || {
        &&& is_char_boundary(encode_utf8(text), 8)
        &&& word(word_text(text)) is Some ==> words_cuttable(behind_word(text), (count - 1) as nat)
    }
}

/// The address that eight or thirty-two figures write, word by word.
pub open spec fn proc_octets(text: Seq<char>) -> Option<Seq<u8>> {
    if encode_utf8(text).len() == 8 {
        match word(text) {
            Some(only) => Some(word_bytes(only)),
            None => None,
        }
    } else if encode_utf8(text).len() == 32 {
        words_bytes(text, 4)
    } else {
        None
    }
}

/// The octets and port of an endpoint of the table: an address, a colon and a port.
pub open spec fn proc_endpoint(value: Seq<char>) -> Option<(Seq<u8>, int)> {
    match split_at_first(value, ':') {
        Some((address, port)) => match (number(port, 16, 0xffff), proc_octets(address)) {
            (Some(number), Some(octets)) => Some((octets, number)),
            _ => None,
        },
        None => None,
    }
}

/// Whether an endpoint can be read: its address can be cut into words. Text that is ASCII can.
pub open spec fn proc_endpoint_cuttable(value: Seq<char>) -> bool {
    match split_at_first(value, ':') {
        Some((address, port)) => number(port, 16, 0xffff) is Some && encode_utf8(address).len()
            == 32 ==> words_cuttable(address, 4),
        None => true,
    }
}

/// The connection of a line of the table: the third field is the remote endpoint, the fourth the
/// state. Only remote endpoints are connections.
pub open spec fn proc_line(line: Seq<char>, all_states: bool) -> Option<
    (Seq<u8>, int, Seq<char>),
> {
    let words = fields(line);
    if words.len() < 4 {
        None
    } else {
        match proc_endpoint(words[2]) {
            Some((octets, port)) => if remote(octets, port) && shown(
                all_states,
                state_name(words[3]),
            ) {
                Some((octets, port, state_name(words[3])))
            } else {
                None
            },
            None => None,
        }
    }
}

/// Whether the endpoint of a line can be read.
pub open spec fn proc_line_cuttable(line: Seq<char>) -> bool {
    fields(line).len() >= 4 ==> proc_endpoint_cuttable(fields(line)[2])
}

/// The connections of some lines of the table.
pub open spec fn proc_connections(table: Seq<Seq<char>>, all_states: bool) -> Seq<
    (Seq<u8>, int, Seq<char>),
>
    decreases table.len(),
{
    if table.len() == 0 {
        seq![]
    } else {
        let rest = proc_connections(table.drop_first(), all_states);
        match proc_line(table[0], all_states) {
            Some(connection) => seq![connection] + rest,
            None => rest,
        }
    }
}

/// The lines of a table without its heading.
pub open spec fn table_lines(text: Seq<char>) -> Seq<Seq<char>> {
    if lines(text).len() == 0 {
        seq![]
    } else {
        lines(text).drop_first()
    }
}

/// Whether the endpoint of each line of a table can be read.
pub open spec fn proc_table_cuttable(text: Seq<char>) -> bool {
    forall|i: int|
        0 <= i < table_lines(text).len() ==> proc_line_cuttable(#[trigger] table_lines(text)[i])
}

/// Names a state that the table writes as two hexadecimal figures.
pub fn tcp_state_name(hex_state: &str) -> (name: &'static str)
    ensures
        name@ == state_name(hex_state@),
{
    if same_text(hex_state, "01") {
        "ESTABLISHED"
    } else if same_text(hex_state, "02") {
        "SYN_SENT"
    } else if same_text(hex_state, "03") {
        "SYN_RECV"
    } else if same_text(hex_state, "04") {
        "FIN_WAIT1"
    } else if same_text(hex_state, "05") {
        "FIN_WAIT2"
    } else if same_text(hex_state, "06") {
        "TIME_WAIT"
    } else if same_text(hex_state, "07") {
        "CLOSE"
    } else if same_text(hex_state, "08") {
        "CLOSE_WAIT"
    } else if same_text(hex_state, "09") {
        "LAST_ACK"
    } else if same_text(hex_state, "0A") {
        "LISTEN"
    } else if same_text(hex_state, "0B") {
        "CLOSING"
    } else {
        "UNKNOWN"
    }
}

/// Reads a word and gives its four bytes, lowest first.
fn read_word(text: &str) -> (bytes: Option<[u8; 4]>)
    ensures
        match bytes {
            Some(four) => word(text@) is Some && four@ == word_bytes(word(text@)->0),
            None => word(text@) is None,
        },
{
    match parse_number(text, 16, 0xffff_ffff) {
        Some(value) => {
            let four: [u8; 4] = [
                (value % 256) as u8,
                (value / 256 % 256) as u8,
                (value / 65536 % 256) as u8,
                (value / 16777216) as u8,
            ];
            assert(four@ =~= word_bytes(value as int));
            Some(four)
        },
        None => None,
    }
}

/// Cutting a text at a character boundary.
proof fn cut_text(text: Seq<char>, head: Seq<char>, tail: Seq<char>)
    requires
        encode_utf8(head) == encode_utf8(text).subrange(0, 8),
        encode_utf8(tail) == encode_utf8(text).subrange(8, encode_utf8(text).len() as int),
    ensures
        head == word_text(text),
        tail == behind_word(text),
{
    vstd::utf8::encode_utf8_decode_utf8(head);
    vstd::utf8::encode_utf8_decode_utf8(tail);
}

/// Reads the bytes of four words of eight figures each.
fn read_words(text: &str) -> (bytes: Option<[u8; 16]>)
    requires
        encode_utf8(text@).len() == 32,
        words_cuttable(text@, 4),
    ensures
        match bytes {
            Some(all) => words_bytes(text@, 4) == Some(all@),
            None => words_bytes(text@, 4) is None,
        },
{
    reveal_with_fuel(words_bytes, 5);
    reveal_with_fuel(words_cuttable, 5);
    let (first, rest1) = text.split_at(8);
    proof {
        cut_text(text@, first@, rest1@);
    }
    let a = match read_word(first) {
        Some(four) => four,
        None => {
            return None;
        },
    };
    let (second, rest2) = rest1.split_at(8);
    proof {
        cut_text(rest1@, second@, rest2@);
    }
    let b = match read_word(second) {
        Some(four) => four,
        None => {
            return None;
        },
    };
    let (third, rest3) = rest2.split_at(8);
    proof {
        cut_text(rest2@, third@, rest3@);
    }
    let c = match read_word(third) {
        Some(four) => four,
        None => {
            return None;
        },
    };
    let (fourth, rest4) = rest3.split_at(8);
    proof {
        cut_text(rest3@, fourth@, rest4@);
    }
    let d = match read_word(fourth) {
        Some(four) => four,
        None => {
            return None;
        },
    };
    let all: [u8; 16] = [
        a[0],
        a[1],
        a[2],
        a[3],
        b[0],
        b[1],
        b[2],
        b[3],
        c[0],
        c[1],
        c[2],
        c[3],
        d[0],
        d[1],
        d[2],
        d[3],
    ];
    assert(all@ =~= a@ + (b@ + (c@ + (d@ + Seq::<u8>::empty()))));
    Some(all)
}

/// Reads an endpoint of the table.
pub fn parse_linux_proc_address(value: &str) -> (endpoint: Option<(IpAddr, u16)>)
    requires
        proc_endpoint_cuttable(value@),
    ensures
        match endpoint {
            Some((address, port)) => proc_endpoint(value@) == Some((address@, port as int)),
            None => proc_endpoint(value@) is None,
        },
{
    let chars = chars_of(value);
    let colon: usize = match find_first(&chars, ':') {
        Some(at) => at,
        None => {
            return None;
        },
    };
    proof {
        crate::split::first_index_is_first(value@, ':');
    }
    let address = text_of(&chars[0..colon]);
    let port_text = text_of(&chars[colon + 1..chars.len()]);
    assert(address@ =~= value@.take(colon as int));
    assert(port_text@ =~= value@.skip(colon + 1));
    let port: u16 = match parse_number(port_text.as_str(), 16, 0xffff) {
        Some(number) => number as u16,
        None => {
            return None;
        },
    };
    let size: usize = address.as_str().as_bytes().len();
    if size == 8 {
        match read_word(address.as_str()) {
            Some(octets) => Some((IpAddr::V4(octets), port)),
            None => None,
        }
    } else if size == 32 {
        match read_words(address.as_str()) {
            Some(octets) => Some((IpAddr::V6(octets), port)),
            None => None,
        }
    } else {
        None
    }
}

/// Tells whether the words that are read from `text` end between characters.
fn check_words(text: &str, count: u8) -> (cuttable: bool)
    ensures
        cuttable == words_cuttable(text@, count as nat),
    decreases count,
{
    if count == 0 {
        return true;
    }
    if !text.is_char_boundary(8) {
        return false;
    }
    let (first, rest) = text.split_at(8);
    proof {
        cut_text(text@, first@, rest@);
    }
    match read_word(first) {
        Some(_) => check_words(rest, count - 1),
        None => true,
    }
}

/// Tells whether an endpoint can be read.
pub fn endpoint_is_cuttable(value: &str) -> (cuttable: bool)
    ensures
        cuttable == proc_endpoint_cuttable(value@),
{
    let chars = chars_of(value);
    match find_first(&chars, ':') {
        Some(colon) => {
            proof {
                crate::split::first_index_is_first(value@, ':');
            }
            let total: usize = chars.len();
            let address = text_of(&chars[0..colon]);
            let port_text = text_of(&chars[colon + 1..total]);
            assert(address@ =~= value@.take(colon as int));
            assert(port_text@ =~= value@.skip(colon + 1));
            match parse_number(port_text.as_str(), 16, 0xffff) {
                Some(_) => address.as_str().as_bytes().len() != 32 || check_words(
                    address.as_str(),
                    4,
                ),
                None => true,
            }
        },
        None => true,
    }
}

/// Tells whether the endpoint of each line of a table can be read.
pub fn table_is_cuttable(text: &str) -> (cuttable: bool)
    ensures
        cuttable == proc_table_cuttable(text@),
{
    let list = split_lines(text);
    let mut i: usize = 1;
    while i < list.len()
        invariant
            1 <= i,
            texts(list@) == lines(text@),
            forall|j: int|
                0 <= j < i - 1 && j < table_lines(text@).len() ==> proc_line_cuttable(
                    #[trigger] table_lines(text@)[j],
                ),
        decreases list@.len() - i,
    {
        let words = split_fields(list[i].as_str());
        assert(table_lines(text@)[i - 1] == list@[i as int]@);
        assert(texts(words@).len() == words@.len());
        if words.len() >= 4 {
            assert(fields(list@[i as int]@)[2] == words@[2]@);
            if !endpoint_is_cuttable(words[2].as_str()) {
                return false;
            }
        }
        i += 1;
    }
    assert(texts(list@).len() == list@.len());
    true
}

/// Reads the connection of a line of the table.
pub fn parse_linux_proc_line(line: &str, all_states: bool) -> (connection: Option<TcpConnection>)
    requires
        proc_line_cuttable(line@),
    ensures
        match connection {
            Some(found) => proc_line(line@, all_states) == Some(found@),
            None => proc_line(line@, all_states) is None,
        },
{
    let words = split_fields(line);
    assert(texts(words@).len() == words@.len());
    if words.len() < 4 {
        return None;
    }
    assert(fields(line@)[2] == words@[2]@);
    assert(fields(line@)[3] == words@[3]@);
    match parse_linux_proc_address(words[2].as_str()) {
        Some((remote_ip, remote_port)) => {
            if !is_remote(&remote_ip, remote_port) {
                return None;
            }
            let state = tcp_state_name(words[3].as_str());
            if !all_states && !same_text(state, "ESTABLISHED") {
                return None;
            }
            Some(TcpConnection { remote_ip, remote_port, state: state.to_owned() })
        },
        None => None,
    }
}

/// Adds the connections of a table, whose first line is a heading, to `connections`.
pub fn collect_linux_proc_file(
    text: &str,
    all_states: bool,
    connections: &mut Vec<TcpConnection>,
)
    requires
        proc_table_cuttable(text@),
    ensures
        connection_views(final(connections)@) == connection_views(old(connections)@)
            + proc_connections(table_lines(text@), all_states),
{
    let list = split_lines(text);
    let ghost table = table_lines(text@);
    let ghost given = connection_views(connections@);
    let ghost all = proc_connections(table, all_states);
    assert(texts(list@).len() == list@.len());
    let mut i: usize = 1;
    assert(table.skip(0) =~= table);
    while i < list.len()
        invariant
            1 <= i,
            i <= list@.len() || i == 1,
            texts(list@) == lines(text@),
            table == table_lines(text@),
            all == proc_connections(table, all_states),
            proc_table_cuttable(text@),
            connection_views(connections@) + proc_connections(table.skip(i - 1), all_states)
                == given + all,
        decreases list@.len() - i,
    {
        let ghost rest = table.skip(i - 1);
        let ghost before = connection_views(connections@);
        assert(rest[0] == table[i - 1]);
        assert(table[i - 1] == list@[i as int]@);
        assert(rest.drop_first() =~= table.skip(i as int));
        match parse_linux_proc_line(list[i].as_str(), all_states) {
            Some(connection) => {
                let ghost added = connection@;
                connections.push(connection);
                assert(connection_views(connections@) =~= before.push(added));
                assert(connection_views(connections@) + proc_connections(
                    table.skip(i as int),
                    all_states,
                ) =~= before + proc_connections(rest, all_states));
            },
            None => {},
        }
        i += 1;
    }
    proof {
        if list@.len() > 0 {
            assert(table.skip(i - 1) =~= Seq::<Seq<char>>::empty());
        } else {
            assert(table =~= Seq::<Seq<char>>::empty());
        }
    }
    assert(connection_views(connections@) + Seq::<(Seq<u8>, int, Seq<char>)>::empty()
        =~= connection_views(connections@));
}

/// Collects the connections of the IPv4 table and then those of the IPv6 table.
pub fn collect_linux_proc_connections(tcp: &str, tcp6: &str, all_states: bool) -> (connections: Vec<
    TcpConnection,
>)
    requires
        proc_table_cuttable(tcp@),
        proc_table_cuttable(tcp6@),
    ensures
        connection_views(connections@) == proc_connections(table_lines(tcp@), all_states)
            + proc_connections(table_lines(tcp6@), all_states),
{
    let mut connections: Vec<TcpConnection> = Vec::new();
    collect_linux_proc_file(tcp, all_states, &mut connections);
    collect_linux_proc_file(tcp6, all_states, &mut connections);
    assert(connection_views(connections@) =~= proc_connections(table_lines(tcp@), all_states)
        + proc_connections(table_lines(tcp6@), all_states));
    connections
}

} // verus!
