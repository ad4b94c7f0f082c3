//! What holds of the connection tables of Linux as a whole.
use vstd::arithmetic::power::pow;
use vstd::prelude::*;
use vstd::utf8::{encode_utf8, is_ascii_chars, is_char_boundary};

use crate::address::{remote, shown};
use crate::number::{all_digits, digit, hex, hex_digits, number, unsigned_part};
use crate::proc_table::{
    behind_word, proc_connections, proc_endpoint, proc_endpoint_cuttable, proc_line,
    state_name, word, word_bytes, word_text, words_bytes, words_cuttable,
};
use crate::split::{first_index, first_index_is_first, split_at_first};

verus! {

/// A word as the table writes four octets: the number whose lowest byte is the first octet, as
/// eight figures.
pub open spec fn written_word(octets: Seq<u8>) -> Seq<char> {
    hex((octets[0] + octets[1] * 256 + octets[2] * 65536 + octets[3] * 16777216) as nat, 8)
}

/// An address as the table writes it: word by word.
pub open spec fn written_octets(octets: Seq<u8>) -> Seq<char>
    decreases octets.len(),
{
    if octets.len() < 4 {
        seq![]
    } else {
        written_word(octets.take(4)) + written_octets(octets.skip(4))
    }
}

/// An endpoint as the table writes it.
pub open spec fn written_endpoint(octets: Seq<u8>, port: nat) -> Seq<char> {
    written_octets(octets) + seq![':'] + hex(port, 4)
}

/// Eight ASCII characters and more are cut into the first eight and the rest.
pub proof fn ascii_is_cut(text: Seq<char>)
    requires
        is_ascii_chars(text),
        text.len() >= 8,
    ensures
        encode_utf8(text).len() == text.len(),
        is_char_boundary(encode_utf8(text), 8),
        word_text(text) == text.take(8),
        behind_word(text) == text.skip(8),
        is_ascii_chars(text.skip(8)),
{
    let bytes = encode_utf8(text);
    let head = text.take(8);
    let tail = text.skip(8);
    assert(is_ascii_chars(head)) by {
        assert forall|i: int| 0 <= i < head.len() implies '\0' <= #[trigger] head[i]
            <= '\u{7f}' by {
            assert(head[i] == text[i]);
        }
    }
    assert(is_ascii_chars(tail)) by {
        assert forall|i: int| 0 <= i < tail.len() implies '\0' <= #[trigger] tail[i]
            <= '\u{7f}' by {
            assert(tail[i] == text[i + 8]);
        }
    }
    vstd::utf8::is_ascii_chars_encode_utf8(text);
    vstd::utf8::is_ascii_chars_encode_utf8(head);
    vstd::utf8::is_ascii_chars_encode_utf8(tail);
    assert(encode_utf8(head) =~= bytes.subrange(0, 8)) by {
        assert forall|i: int| 0 <= i < 8 implies encode_utf8(head)[i] == bytes[i] by {
            assert(head[i] == text[i]);
        }
    }
    assert(encode_utf8(tail) =~= bytes.subrange(8, bytes.len() as int)) by {
        assert forall|i: int| 0 <= i < tail.len() implies encode_utf8(tail)[i] == bytes[i + 8] by {
            assert(tail[i] == text[i + 8]);
        }
    }
    vstd::utf8::encode_utf8_decode_utf8(head);
    vstd::utf8::encode_utf8_decode_utf8(tail);
    vstd::utf8::encode_utf8_valid_utf8(text);
    if text.len() == 8 {
        vstd::utf8::is_char_boundary_start_end_of_seq(bytes);
    } else {
        assert(bytes[8] == text[8] as u8);
        vstd::utf8::is_char_boundary_iff_not_is_continuation_byte(bytes, 8);
    }
}

proof fn ascii_words_are_cuttable(text: Seq<char>, count: nat)
    requires
        is_ascii_chars(text),
        text.len() >= 8 * count,
    ensures
        words_cuttable(text, count),
    decreases count,
{
    if count > 0 {
        ascii_is_cut(text);
        ascii_words_are_cuttable(text.skip(8), (count - 1) as nat);
    }
}

/// An endpoint that is ASCII can be read.
pub proof fn ascii_endpoint_is_cuttable(value: Seq<char>)
    requires
        is_ascii_chars(value),
    ensures
        proc_endpoint_cuttable(value),
{
    first_index_is_first(value, ':');
    if let Some((address, port)) = split_at_first(value, ':') {
        assert(is_ascii_chars(address)) by {
            assert forall|i: int| 0 <= i < address.len() implies '\0' <= #[trigger] address[i]
                <= '\u{7f}' by {
                assert(address[i] == value[i]);
            }
        }
        vstd::utf8::is_ascii_chars_encode_utf8(address);
        if encode_utf8(address).len() == 32 {
            ascii_words_are_cuttable(address, 4);
        }
    }
}

proof fn powers_of_sixteen()
    ensures
        pow(16, 8) == 0x1_0000_0000,
        pow(16, 4) == 0x1_0000,
{
    reveal(pow);
    reveal_with_fuel(pow, 9);
}

/// What hexadecimal figures write is read.
proof fn hex_is_read(value: nat, width: nat, max: int)
    requires
        0 < width,
        value < pow(16, width),
        value <= max,
    ensures
        number(hex(value, width), 16, max) == Some(value as int),
        hex(value, width).len() == width,
        is_ascii_chars(hex(value, width)),
        forall|i: int| 0 <= i < width ==> hex(value, width)[i] != ':',
{
    let text = hex(value, width);
    hex_digits(value, width);
    assert(text[0] != '+');
    assert(unsigned_part(text) == text);
    assert(all_digits(text, 16)) by {
        assert forall|i: int| 0 <= i < text.len() implies digit(#[trigger] text[i], 16) is Some by {}
    }
    assert(is_ascii_chars(text)) by {
        assert forall|i: int| 0 <= i < text.len() implies '\0' <= #[trigger] text[i] <= '\u{7f}' by {}
    }
}

/// The bytes of a word whose bytes are known.
proof fn word_is_its_bytes(a: int, b: int, c: int, d: int)
    requires
        0 <= a < 256,
        0 <= b < 256,
        0 <= c < 256,
        0 <= d < 256,
    ensures
        ({
            let value = a + b * 256 + c * 65536 + d * 16777216;
            &&& value % 256 == a
            &&& value / 256 % 256 == b
            &&& value / 65536 % 256 == c
            &&& value / 16777216 == d
        }),
{
    let value = a + b * 256 + c * 65536 + d * 16777216;
    assert(value == 256 * (b + c * 256 + d * 65536) + a);
    assert(value / 256 == b + c * 256 + d * 65536);
    assert(b + c * 256 + d * 65536 == 256 * (c + d * 256) + b);
    assert(value == 65536 * (c + d * 256) + (a + b * 256));
    assert(value / 65536 == c + d * 256);
}

/// A written word is read as its octets.
proof fn written_word_is_read(octets: Seq<u8>)
    requires
        octets.len() == 4,
    ensures
        word(written_word(octets)) is Some,
        word_bytes(word(written_word(octets))->0) == octets,
        written_word(octets).len() == 8,
        is_ascii_chars(written_word(octets)),
        forall|i: int| 0 <= i < 8 ==> written_word(octets)[i] != ':',
{
    let value = octets[0] + octets[1] * 256 + octets[2] * 65536 + octets[3] * 16777216;
    powers_of_sixteen();
    hex_is_read(value as nat, 8, 0xffff_ffff);
    word_is_its_bytes(
        octets[0] as int,
        octets[1] as int,
        octets[2] as int,
        octets[3] as int,
    );
    assert(word_bytes(value) =~= octets);
}

proof fn written_octets_are_read(octets: Seq<u8>, count: nat)
    requires
        octets.len() == 4 * count,
    ensures
        words_bytes(written_octets(octets), count) == Some(octets),
        written_octets(octets).len() == 8 * count,
        is_ascii_chars(written_octets(octets)),
        forall|i: int| 0 <= i < 8 * count ==> written_octets(octets)[i] != ':',
    decreases count,
{
    if count == 0 {
        assert(octets =~= Seq::<u8>::empty());
    } else {
        let first = written_word(octets.take(4));
        let rest = written_octets(octets.skip(4));
        let text = first + rest;
        assert(text == written_octets(octets));
        written_word_is_read(octets.take(4));
        written_octets_are_read(octets.skip(4), (count - 1) as nat);
        assert(is_ascii_chars(text)) by {
            assert forall|i: int| 0 <= i < text.len() implies '\0' <= #[trigger] text[i]
                <= '\u{7f}' by {
                if i < 8 {
                    assert(text[i] == first[i]);
                } else {
                    assert(text[i] == rest[i - 8]);
                }
            }
        }
        assert forall|i: int| 0 <= i < 8 * count implies text[i] != ':' by {
            if i < 8 {
                assert(text[i] == first[i]);
            } else {
                assert(text[i] == rest[i - 8]);
            }
        }
        ascii_is_cut(text);
        assert(text.take(8) =~= first);
        assert(text.skip(8) =~= rest);
        assert(octets.take(4) + octets.skip(4) =~= octets);
    }
}

/// Reading an endpoint of the table gives back the octets and the port that were written, for IPv4
/// as for IPv6.
pub proof fn written_endpoint_is_read(octets: Seq<u8>, port: nat)
    requires
        octets.len() == 4 || octets.len() == 16,
        port < 65536,
    ensures
        proc_endpoint_cuttable(written_endpoint(octets, port)),
        proc_endpoint(written_endpoint(octets, port)) == Some((octets, port as int)),
{
    let count = octets.len() / 4;
    let address = written_octets(octets);
    let tail = hex(port, 4);
    let value = written_endpoint(octets, port);
    powers_of_sixteen();
    written_octets_are_read(octets, count);
    hex_is_read(port, 4, 0xffff);
    vstd::utf8::is_ascii_chars_encode_utf8(address);
    first_index_is_first(value, ':');
    assert(value[address.len() as int] == ':');
    assert forall|i: int| 0 <= i < address.len() implies value[i] != ':' by {
        assert(value[i] == address[i]);
    }
    assert(first_index(value, ':') == Some(address.len() as int));
    assert(value.take(address.len() as int) =~= address);
    assert(value.skip(address.len() + 1int) =~= tail);
    if octets.len() == 4 {
        ascii_is_cut(address);
        reveal_with_fuel(words_bytes, 2);
        assert(address.take(8) =~= address);
        written_word_is_read(octets.take(4));
        assert(octets.take(4) =~= octets);
        assert(written_octets(octets.skip(4)) =~= Seq::<char>::empty());
        assert(address =~= written_word(octets));
    } else {
        ascii_words_are_cuttable(address, 4);
    }
}

/// Of a table, the established connections are those that it shows when it shows all, as far as
/// their state is ESTABLISHED, in the same order.
pub proof fn established_are_the_others_filtered(table: Seq<Seq<char>>)
    ensures
        proc_connections(table, false) == proc_connections(table, true).filter(
            |connection: (Seq<u8>, int, Seq<char>)| connection.2 == "ESTABLISHED"@,
        ),
    decreases table.len(),
{
    let established = |connection: (Seq<u8>, int, Seq<char>)| connection.2 == "ESTABLISHED"@;
    let all = proc_connections(table, true);
    if table.len() > 0 {
        let rest = proc_connections(table.drop_first(), true);
        established_are_the_others_filtered(table.drop_first());
        match proc_line(table[0], true) {
            Some(connection) => {
                assert(all == seq![connection] + rest);
                Seq::filter_distributes_over_add(seq![connection], rest, established);
                reveal_with_fuel(Seq::filter, 2);
                assert(seq![connection].drop_last() =~= Seq::empty());
                assert(seq![connection].filter(established) =~= if established(connection) {
                    seq![connection]
                } else {
                    Seq::empty()
                });
                assert(proc_connections(table, false) =~= all.filter(established));
            },
            None => {
                assert(proc_line(table[0], false) is None);
            },
        }
    } else {
        reveal(Seq::filter);
        assert(all.filter(established) =~= Seq::empty());
    }
}

/// Each connection of a table has a remote endpoint: no loopback address, no unspecified address
/// and no port 0.
pub proof fn proc_connections_are_remote(table: Seq<Seq<char>>, all_states: bool)
    ensures
        forall|i: int|
            #![trigger proc_connections(table, all_states)[i]]
            0 <= i < proc_connections(table, all_states).len() ==> {
                let connection = proc_connections(table, all_states)[i];
                remote(connection.0, connection.1) && shown(all_states, connection.2)
            },
    decreases table.len(),
{
    if table.len() > 0 {
        let rest = proc_connections(table.drop_first(), all_states);
        let all = proc_connections(table, all_states);
        proc_connections_are_remote(table.drop_first(), all_states);
        assert forall|i: int| #![trigger all[i]] 0 <= i < all.len() implies remote(
            all[i].0,
            all[i].1,
        ) && shown(all_states, all[i].2) by {
            if proc_line(table[0], all_states) is Some && i > 0 {
                assert(all[i] == rest[i - 1]);
            }
        }
    }
}

/// Two different codes that are known name two different states.
pub proof fn state_names_are_distinct(left: Seq<char>, right: Seq<char>)
    requires
        left != right,
        state_name(left) != "UNKNOWN"@,
    ensures
        state_name(left) != state_name(right),
{
    reveal_strlit("ESTABLISHED");
    reveal_strlit("SYN_SENT");
    reveal_strlit("SYN_RECV");
    reveal_strlit("FIN_WAIT1");
    reveal_strlit("FIN_WAIT2");
    reveal_strlit("TIME_WAIT");
    reveal_strlit("CLOSE");
    reveal_strlit("CLOSE_WAIT");
    reveal_strlit("LAST_ACK");
    reveal_strlit("LISTEN");
    reveal_strlit("CLOSING");
    reveal_strlit("UNKNOWN");
    assert("ESTABLISHED"@.len() == 11);
    assert("SYN_SENT"@.len() == 8);
    assert("SYN_RECV"@.len() == 8);
    assert("FIN_WAIT1"@.len() == 9);
    assert("FIN_WAIT2"@.len() == 9);
    assert("TIME_WAIT"@.len() == 9);
    assert("CLOSE"@.len() == 5);
    assert("CLOSE_WAIT"@.len() == 10);
    assert("LAST_ACK"@.len() == 8);
    assert("LISTEN"@.len() == 6);
    assert("CLOSING"@.len() == 7);
    assert("UNKNOWN"@.len() == 7);
    assert("SYN_SENT"@[4] != "SYN_RECV"@[4]);
    assert("FIN_WAIT1"@[8] != "FIN_WAIT2"@[8]);
    assert("FIN_WAIT1"@[0] != "TIME_WAIT"@[0]);
    assert("FIN_WAIT2"@[0] != "TIME_WAIT"@[0]);
    assert("SYN_SENT"@[0] != "LAST_ACK"@[0]);
    assert("SYN_RECV"@[0] != "LAST_ACK"@[0]);
    assert("CLOSING"@[0] != "UNKNOWN"@[0]);
}

} // verus!
