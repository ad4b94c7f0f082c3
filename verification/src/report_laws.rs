//! What holds of the reports.
use vstd::prelude::*;

use crate::address::TcpConnection;
use crate::counts::{
    occurrences, occurrences_fit, ranking, row_total, tallies, tallies_add_up,
    tallies_have_a_ranking,
};
use crate::dns::dotted;
use crate::dns_laws::{dotted_name_is_its_labels, pieces};
use crate::ip_text::{address_text, dotted_octets, dotted_octets_are_injective};
use crate::layout::{
    padded_fills, padded_left, padded_right, padding_is_spaces_alone, trimmed, truncated_fits,
};
use crate::number::{decimal, decimal_digits, decimal_is_read, digit, number};
use crate::order::ranks_before;
use crate::packet::WebEvent;
use crate::ranking_laws::{ranked_text_is_counted, times};
use crate::report::{
    column_width, connection_key, connection_keys, count_line, counted_lines, event_key,
    event_keys, first_rows, live_announcement, network_announcement, remote_texts, row_columns,
    table_columns, table_head, table_line, table_lines, web_announcement, InterfaceRow,
};
use crate::split::{last_parts_are_the_same, parts_are_the_same};
use crate::text_laws::decimal_has_no_leading_zero;

verus! {

/// A report shows at most `top` counts, and where it shows all of them they add up to the number in
/// its second line.
pub proof fn report_is_complete(
    title: Seq<char>,
    nothing: Seq<char>,
    keys: Seq<Seq<char>>,
    top: int,
)
    requires
        0 < keys.len() <= u64::MAX,
        0 <= top,
    ensures
        counted_lines(title, nothing, keys, top).len() == 2 + first_rows(
            ranking(tallies(keys)),
            top,
        ).len(),
        first_rows(ranking(tallies(keys)), top).len() <= top,
        ranking(tallies(keys)).len() <= top ==> row_total(
            first_rows(ranking(tallies(keys)), top),
        ) == keys.len(),
{
    tallies_have_a_ranking(keys);
    tallies_add_up(keys, ranking(tallies(keys)));
}

/// No count that a report leaves out ranks before one that it shows.
pub proof fn report_shows_the_most_frequent(keys: Seq<Seq<char>>, top: int, i: int, j: int)
    requires
        0 <= i < top <= j < ranking(tallies(keys)).len(),
    ensures
        first_rows(ranking(tallies(keys)), top)[i] == ranking(tallies(keys))[i],
        ranks_before(ranking(tallies(keys))[i], ranking(tallies(keys))[j]),
{
    tallies_have_a_ranking(keys);
}

/// A report does not depend on the order of what it counts.
pub proof fn report_ignores_order(
    title: Seq<char>,
    nothing: Seq<char>,
    keys: Seq<Seq<char>>,
    other: Seq<Seq<char>>,
    top: int,
)
    requires
        keys.len() <= u64::MAX,
        other.len() <= u64::MAX,
        forall|key: Seq<char>| #[trigger] occurrences(keys, key) == occurrences(other, key),
    ensures
        counted_lines(title, nothing, keys, top) == counted_lines(title, nothing, other, top),
{
    assert forall|key: Seq<char>| tallies(keys).contains_key(key) == tallies(other).contains_key(
        key,
    ) by {
        occurrences_fit(keys, key);
        occurrences_fit(other, key);
    }
    assert(tallies(keys) =~= tallies(other));
    tallies_have_a_ranking(keys);
    tallies_add_up(keys, ranking(tallies(keys)));
    tallies_add_up(other, ranking(tallies(keys)));
}

/// Two events are counted as one only if they name the same domain in the same way. Sources hold no
/// space.
pub proof fn event_key_tells_events_apart(event: WebEvent, other: WebEvent)
    requires
        !event.source@.contains(' '),
        !other.source@.contains(' '),
        event_key(event) == event_key(other),
    ensures
        event@ == other@,
{
    reveal_strlit(" ");
    assert(" "@ =~= seq![' ']);
    parts_are_the_same(event.source@, event.domain@, other.source@, other.domain@, ' ');
}

/// Two connections are counted as one only if they have the same remote address and port and the
/// same state. The texts of addresses hold no space.
pub proof fn connection_key_tells_connections_apart(
    connection: TcpConnection,
    address: Seq<char>,
    other: TcpConnection,
    other_address: Seq<char>,
)
    requires
        !address.contains(' '),
        !other_address.contains(' '),
        connection_key(connection, address) == connection_key(other, other_address),
    ensures
        address == other_address,
        connection.remote_port == other.remote_port,
        connection.state@ == other.state@,
{
    reveal_strlit(" ");
    reveal_strlit(":");
    let port = decimal(connection.remote_port as nat);
    let other_port = decimal(other.remote_port as nat);
    decimal_digits(connection.remote_port as nat);
    decimal_digits(other.remote_port as nat);
    assert(" "@ =~= seq![' ']);
    assert(":"@ =~= seq![':']);
    let endpoint = address + seq![':'] + port;
    let other_endpoint = other_address + seq![':'] + other_port;
    assert forall|i: int| 0 <= i < endpoint.len() implies endpoint[i] != ' ' by {
        if i < address.len() {
            assert(address.contains(address[i]));
        } else if i > address.len() {
            assert(endpoint[i] == port[i - address.len() - 1]);
            assert(digit(port[i - address.len() - 1], 10) is Some);
        }
    }
    assert forall|i: int| 0 <= i < other_endpoint.len() implies other_endpoint[i] != ' ' by {
        if i < other_address.len() {
            assert(other_address.contains(other_address[i]));
        } else if i > other_address.len() {
            assert(other_endpoint[i] == other_port[i - other_address.len() - 1]);
            assert(digit(other_port[i - other_address.len() - 1], 10) is Some);
        }
    }
    parts_are_the_same(endpoint, connection.state@, other_endpoint, other.state@, ' ');
    assert forall|i: int| 0 <= i < port.len() implies port[i] != ':' by {
        assert(digit(port[i], 10) is Some);
    }
    assert forall|i: int| 0 <= i < other_port.len() implies other_port[i] != ':' by {
        assert(digit(other_port[i], 10) is Some);
    }
    last_parts_are_the_same(address, port, other_address, other_port, ':');
    decimal_is_read(connection.remote_port as nat, 0xffff);
    decimal_is_read(other.remote_port as nat, 0xffff);
}

/// The text of an IPv4 address holds no space.
proof fn dotted_octets_hold_no_space(octets: Seq<u8>)
    ensures
        !dotted_octets(octets).contains(' '),
{
    decimal_digits(octets[0] as nat);
    decimal_digits(octets[1] as nat);
    decimal_digits(octets[2] as nat);
    decimal_digits(octets[3] as nat);
    let a = decimal(octets[0] as nat);
    let b = decimal(octets[1] as nat);
    let c = decimal(octets[2] as nat);
    let d = decimal(octets[3] as nat);
    let text = dotted_octets(octets);
    assert forall|i: int| 0 <= i < text.len() implies text[i] != ' ' by {
        let second = a.len() + 1;
        let third = second + b.len() + 1;
        let fourth = third + c.len() + 1;
        if i < a.len() {
            assert(text[i] == a[i] && digit(a[i], 10) is Some);
        } else if second <= i < second + b.len() {
            assert(text[i] == b[i - second] && digit(b[i - second], 10) is Some);
        } else if third <= i < third + c.len() {
            assert(text[i] == c[i - third] && digit(c[i - third], 10) is Some);
        } else if fourth <= i {
            assert(text[i] == d[i - fourth] && digit(d[i - fourth], 10) is Some);
        } else {
            assert(text[i] == '.');
        }
    }
}

/// A report counts two IPv4 connections as one only if they have the same remote address and port
/// and the same state.
pub proof fn ipv4_connections_are_told_apart(connection: TcpConnection, other: TcpConnection)
    requires
        connection.remote_ip is V4,
        other.remote_ip is V4,
        connection_key(connection, address_text(connection.remote_ip@)) == connection_key(
            other,
            address_text(other.remote_ip@),
        ),
    ensures
        connection@ == other@,
{
    dotted_octets_hold_no_space(connection.remote_ip@);
    dotted_octets_hold_no_space(other.remote_ip@);
    connection_key_tells_connections_apart(
        connection,
        address_text(connection.remote_ip@),
        other,
        address_text(other.remote_ip@),
    );
    dotted_octets_are_injective(connection.remote_ip@, other.remote_ip@);
}

/// How wide the first `count` columns of the table are, with the spaces between them.
spec fn columns_end(count: nat) -> int
    decreases count,
{
    if count <= 1 {
        column_width(0)
    } else {
        columns_end((count - 1) as nat) + 1 + column_width(count - 1)
    }
}

proof fn columns_fill(columns: Seq<Seq<char>>, count: nat)
    requires
        1 <= count <= columns.len(),
        forall|i: int| 0 <= i < count ==> (#[trigger] columns[i]).len() <= column_width(i),
    ensures
        table_columns(columns, count).len() == columns_end(count),
    decreases count,
{
    reveal_strlit(" ");
    padded_fills(columns[count - 1], column_width(count - 1));
    if count > 1 {
        columns_fill(columns, (count - 1) as nat);
    }
}

/// The columns of the table stand under each other: every line whose texts fit their columns is
/// equally wide, the head among them. Names always fit.
pub proof fn table_lines_are_equally_wide(row: InterfaceRow)
    requires
        forall|i: int|
            1 <= i < 8 ==> (#[trigger] row_columns(row)[i]).len() <= column_width(i),
    ensures
        table_line(row_columns(row)).len() == 115,
        table_line(table_head()).len() == 115,
{
    let columns = row_columns(row);
    truncated_fits(row.name@, 18);
    assert(columns[0].len() <= 18);
    columns_fill(columns, 8);
    let head = table_head();
    reveal_strlit("interface");
    reveal_strlit("rx/s");
    reveal_strlit("tx/s");
    reveal_strlit("rx total");
    reveal_strlit("tx total");
    reveal_strlit("rx pkt/s");
    reveal_strlit("tx pkt/s");
    reveal_strlit("errors");
    assert forall|i: int| 0 <= i < 8 implies (#[trigger] head[i]).len() <= column_width(i) by {}
    columns_fill(head, 8);
    reveal_with_fuel(columns_end, 8);
}

// Lines
/// The line of a counted text shows its count: behind spaces stand figures that write the count in
/// base ten, and behind one more space the text. The figures end in the tenth column if they fit.
pub proof fn count_line_shows_its_count(row: (Seq<char>, u64)) -> (cut: (Seq<char>, Seq<char>))
    ensures
        ({
            let (pad, figures) = cut;
            &&& count_line(row) == pad + figures + seq![' '] + row.0
            &&& pad.len() >= 2
            &&& forall|i: int| 0 <= i < pad.len() ==> pad[i] == ' '
            &&& figures.len() > 0
            &&& forall|i: int| 0 <= i < figures.len() ==> 48 <= (#[trigger] figures[i]) as int <= 57
            &&& number(figures, 10, u64::MAX as int) == Some(row.1 as int)
            &&& figures.len() <= 8 ==> pad.len() + figures.len() == 10
            &&& figures.len() > 8 ==> pad.len() == 2
        }),
{
    reveal_strlit("  ");
    reveal_strlit(" ");
    let figures = decimal(row.1 as nat);
    decimal_is_read(row.1 as nat, u64::MAX as int);
    decimal_has_no_leading_zero(row.1 as nat);
    padding_is_spaces_alone(figures, 8);
    let shown = padded_left(figures, 8);
    let pad = "  "@ + shown.take(shown.len() - figures.len());
    assert("  "@.len() == 2 && "  "@[0] == ' ' && "  "@[1] == ' ');
    assert(" "@ =~= seq![' ']);
    assert(shown =~= shown.take(shown.len() - figures.len()) + figures);
    assert(count_line(row) =~= pad + figures + seq![' '] + row.0);
    (pad, figures)
}

/// Two counted texts with the same line are the same, and so are their counts.
pub proof fn count_lines_tell_rows_apart(left: (Seq<char>, u64), right: (Seq<char>, u64))
    requires
        count_line(left) == count_line(right),
    ensures
        left == right,
{
    let (pad, figures) = count_line_shows_its_count(left);
    let (other_pad, other_figures) = count_line_shows_its_count(right);
    let line = count_line(left);
    assert(line[pad.len() as int] == figures[0]);
    assert(line[other_pad.len() as int] == other_figures[0]);
    if pad.len() < other_pad.len() {
        assert(line[pad.len() as int] == other_pad[pad.len() as int]);
    }
    if other_pad.len() < pad.len() {
        assert(line[other_pad.len() as int] == pad[other_pad.len() as int]);
    }
    let rest = figures + seq![' '] + left.0;
    let other_rest = other_figures + seq![' '] + right.0;
    assert(line.skip(pad.len() as int) =~= rest);
    assert(line.skip(pad.len() as int) =~= other_rest);
    assert(!figures.contains(' ') && !other_figures.contains(' ')) by {
        assert forall|i: int| 0 <= i < figures.len() implies figures[i] != ' ' by {}
        assert forall|i: int| 0 <= i < other_figures.len() implies other_figures[i] != ' ' by {}
    }
    parts_are_the_same(figures, left.0, other_figures, right.0, ' ');
}

/// A report begins with an empty line and one with its title and the number of items. Where there
/// are none, one line says so.
pub proof fn report_begins_with_its_title(
    title: Seq<char>,
    nothing: Seq<char>,
    keys: Seq<Seq<char>>,
    top: int,
) -> (figures: Seq<char>)
    requires
        keys.len() <= u64::MAX,
    ensures
        counted_lines(title, nothing, keys, top).len() >= 2,
        counted_lines(title, nothing, keys, top)[0].len() == 0,
        counted_lines(title, nothing, keys, top)[1] == title + figures,
        number(figures, 10, u64::MAX as int) == Some(keys.len() as int),
        figures.len() > 0 && figures[0] != '+',
        keys.len() == 0 ==> counted_lines(title, nothing, keys, top).len() == 3 && counted_lines(
            title,
            nothing,
            keys,
            top,
        )[2] == nothing,
{
    decimal_is_read(keys.len(), u64::MAX as int);
    decimal_has_no_leading_zero(keys.len());
    decimal(keys.len())
}

/// Each further line of a report is that of a text that was counted, with the number of times that
/// it stands in the list: the most frequent first, and `top` of them at most.
pub proof fn report_lines_count_their_texts(
    title: Seq<char>,
    nothing: Seq<char>,
    keys: Seq<Seq<char>>,
    top: int,
    i: int,
)
    requires
        0 < keys.len() <= u64::MAX,
        0 <= top,
        0 <= i < counted_lines(title, nothing, keys, top).len() - 2,
    ensures
        counted_lines(title, nothing, keys, top).len() == 2 + (if top < ranking(
            tallies(keys),
        ).len() {
            top
        } else {
            ranking(tallies(keys)).len() as int
        }),
        keys.contains(ranking(tallies(keys))[i].0),
        counted_lines(title, nothing, keys, top)[2 + i] == count_line(
            (
                ranking(tallies(keys))[i].0,
                times(keys, ranking(tallies(keys))[i].0) as u64,
            ),
        ),
{
    ranked_text_is_counted(keys, i);
}

/// An event is counted as its source, a space and its domain.
pub proof fn event_key_is_source_and_domain(events: Seq<WebEvent>, i: int)
    requires
        0 <= i < events.len(),
    ensures
        event_keys(events).len() == events.len(),
        event_keys(events)[i] == events[i].source@ + seq![' '] + events[i].domain@,
{
    reveal_strlit(" ");
    assert(" "@ =~= seq![' ']);
}

/// A connection is counted as its remote address, a colon and figures that write its port, a space
/// and its state.
pub proof fn connection_key_is_endpoint_and_state(connections: Seq<TcpConnection>, i: int) -> (
    figures: Seq<char>)
    requires
        0 <= i < connections.len(),
    ensures
        connection_keys(connections, remote_texts(connections)).len() == connections.len(),
        connection_keys(connections, remote_texts(connections))[i] == address_text(
            connections[i].remote_ip@,
        ) + seq![':'] + figures + seq![' '] + connections[i].state@,
        number(figures, 10, 0xffff) == Some(connections[i].remote_port as int),
        forall|k: int| 0 <= k < figures.len() ==> 48 <= (#[trigger] figures[k]) as int <= 57,
{
    reveal_strlit(" ");
    reveal_strlit(":");
    assert(" "@ =~= seq![' ']);
    assert(":"@ =~= seq![':']);
    let port = connections[i].remote_port as nat;
    decimal_is_read(port, 0xffff);
    decimal_has_no_leading_zero(port);
    decimal(port)
}

/// A connection with a given address is counted under that address.
pub proof fn given_address_is_counted(
    connections: Seq<TcpConnection>,
    addresses: Seq<Seq<char>>,
    i: int,
)
    requires
        0 <= i < connections.len(),
        addresses.len() == connections.len(),
    ensures
        connection_keys(connections, addresses).len() == connections.len(),
        connection_keys(connections, addresses)[i] == connection_key(connections[i], addresses[i]),
        connection_keys(connections, addresses)[i].take(addresses[i].len() as int) == addresses[i],
{
    assert(connection_keys(connections, addresses)[i].take(addresses[i].len() as int)
        =~= addresses[i]);
}

/// An IPv4 address is written as its four octets in base ten, with dots between them.
pub proof fn ipv4_text_spells_its_octets(octets: Seq<u8>, i: int)
    requires
        octets.len() == 4,
        0 <= i < 4,
    ensures
        pieces(address_text(octets)).len() == 4,
        number(pieces(address_text(octets))[i], 10, 255) == Some(octets[i] as int),
{
    let figures = Seq::new(4, |k: int| decimal(octets[k] as nat));
    assert forall|k: int| 0 <= k < 4 implies !(#[trigger] figures[k]).contains('.') by {
        decimal_has_no_leading_zero(octets[k] as nat);
    }
    dotted_name_is_its_labels(figures);
    let three = figures.drop_last();
    let two = three.drop_last();
    let one = two.drop_last();
    assert(one.len() == 1 && one[0] == figures[0]);
    assert(dotted(one) == figures[0]);
    assert(dotted(two) == dotted(one) + seq!['.'] + figures[1]);
    assert(dotted(three) == dotted(two) + seq!['.'] + figures[2]);
    assert(dotted(figures) == dotted(three) + seq!['.'] + figures[3]);
    assert(address_text(octets) =~= dotted(figures));
    decimal_is_read(octets[i] as nat, 255);
}

// Tables
/// A table of rows has three lines before them and one for each of them, in their order.
pub proof fn table_has_a_line_for_each_row(rows: Seq<InterfaceRow>, i: int)
    requires
        0 <= i < rows.len(),
    ensures
        table_lines(rows).len() == rows.len() + 3,
        table_lines(rows)[3 + i] == table_line(row_columns(rows[i])),
{
}

/// A table begins with an empty line, its head and a rule of 116 dashes. Where it has no rows, one
/// line says so.
pub proof fn table_begins_with_its_head(rows: Seq<InterfaceRow>, i: int)
    requires
        0 <= i < 116,
    ensures
        table_lines(rows)[0].len() == 0,
        table_lines(rows)[1] == table_line(table_head()),
        table_lines(rows)[2].len() == 116,
        table_lines(rows)[2][i] == '-',
        rows.len() == 0 ==> table_lines(rows).len() == 4 && table_lines(rows)[3]
            == "no matching traffic in this sample; use --all to show idle interfaces"@,
{
}

/// Where a column of the table begins, and how wide it is.
pub open spec fn column_places() -> Seq<(int, int)> {
    seq![(0int, 18int), (19, 14), (34, 14), (49, 14), (64, 14), (79, 12), (92, 12), (105, 10)]
}

proof fn columns_stand_in_their_places(columns: Seq<Seq<char>>, count: nat, k: int, j: int)
    requires
        0 <= k < count <= 8,
        columns.len() == 8,
        forall|i: int|
            0 <= i < 8 ==> (#[trigger] columns[i]).len() <= column_places()[i].1,
        0 <= j < column_places()[k].1,
    ensures
        table_columns(columns, count).len() == column_places()[count - 1].0 + column_places()[count
            - 1].1,
        table_columns(columns, count)[column_places()[k].0 + j] == (if k == 0 {
            padded_right(columns[0], 18)[j]
        } else {
            padded_left(columns[k], column_places()[k].1)[j]
        }),
    decreases count,
{
    reveal_strlit(" ");
    assert(" "@.len() == 1);
    let places = column_places();
    let last = count - 1;
    assert(columns[last].len() <= places[last].1);
    padding_is_spaces_alone(columns[last], places[last].1);
    assert(column_width(last) == places[last].1);
    if count > 1 {
        let width = places[last - 1].1;
        assert(width > 0);
        if k < last {
            columns_stand_in_their_places(columns, (count - 1) as nat, k, j);
        } else {
            columns_stand_in_their_places(columns, (count - 1) as nat, last - 1, 0);
        }
    }
}

/// A line of the table shows each of its texts in its column: the first at the left of it, the others
/// at its right, and spaces beside them.
pub proof fn table_line_shows_its_columns(columns: Seq<Seq<char>>, k: int, j: int)
    requires
        columns.len() == 8,
        forall|i: int|
            0 <= i < 8 ==> (#[trigger] columns[i]).len() <= column_places()[i].1,
        0 <= k < 8,
        0 <= j < column_places()[k].1,
    ensures
        table_line(columns).len() == 115,
        ({
            let (start, width) = column_places()[k];
            let shown = table_line(columns)[start + j];
            let gap = width - columns[k].len();
            &&& k == 0 && j < columns[0].len() ==> shown == columns[0][j]
            &&& k == 0 && j >= columns[0].len() ==> shown == ' '
            &&& k > 0 && j < gap ==> shown == ' '
            &&& k > 0 && j >= gap ==> shown == columns[k][j - gap]
        }),
{
    columns_stand_in_their_places(columns, 8, k, j);
    let width = column_places()[k].1;
    assert(columns[k].len() <= width);
    padding_is_spaces_alone(columns[k], width);
}

/// A line of the table is its texts, each padded to its column, with a space between each two.
/// Texts that are too wide are not cut.
pub proof fn table_line_is_its_padded_columns(columns: Seq<Seq<char>>)
    requires
        columns.len() == 8,
    ensures
        table_line(columns) == padded_right(columns[0], 18) + seq![' '] + padded_left(
            columns[1],
            14,
        ) + seq![' '] + padded_left(columns[2], 14) + seq![' '] + padded_left(columns[3], 14) + seq![
            ' ',
        ] + padded_left(columns[4], 14) + seq![' '] + padded_left(columns[5], 12) + seq![' ']
            + padded_left(columns[6], 12) + seq![' '] + padded_left(columns[7], 10),
{
    reveal_strlit(" ");
    assert(" "@ =~= seq![' ']);
    reveal_with_fuel(table_columns, 9);
}

/// The columns of a row show the row: its name, cut to eighteen characters, its rates and totals,
/// its packets in base ten, and its errors in base ten with a slash between them.
pub proof fn row_columns_show_the_row(row: InterfaceRow) -> (errors: (Seq<char>, Seq<char>))
    ensures
        row_columns(row).len() == 8,
        row.name@.len() <= 18 ==> row_columns(row)[0] == row.name@,
        row.name@.len() > 18 ==> row_columns(row)[0] == row.name@.take(15) + seq!['.', '.', '.'],
        row_columns(row)[1] == row.rx_rate@,
        row_columns(row)[2] == row.tx_rate@,
        row_columns(row)[3] == row.rx_total@,
        row_columns(row)[4] == row.tx_total@,
        number(row_columns(row)[5], 10, u64::MAX as int) == Some(row.packets_rx as int),
        number(row_columns(row)[6], 10, u64::MAX as int) == Some(row.packets_tx as int),
        row_columns(row)[7] == errors.0 + seq!['/'] + errors.1,
        number(errors.0, 10, u64::MAX as int) == Some(row.errors_rx as int),
        number(errors.1, 10, u64::MAX as int) == Some(row.errors_tx as int),
        forall|i: int|
            0 <= i < row_columns(row)[5].len() ==> 48 <= (#[trigger] row_columns(row)[5][i]) as int
                <= 57,
        forall|i: int|
            0 <= i < row_columns(row)[6].len() ==> 48 <= (#[trigger] row_columns(row)[6][i]) as int
                <= 57,
{
    reveal_strlit("/");
    reveal_strlit("...");
    assert("/"@ =~= seq!['/']);
    assert("..."@ =~= seq!['.', '.', '.']);
    decimal_is_read(row.packets_rx as nat, u64::MAX as int);
    decimal_is_read(row.packets_tx as nat, u64::MAX as int);
    decimal_is_read(row.errors_rx as nat, u64::MAX as int);
    decimal_is_read(row.errors_tx as nat, u64::MAX as int);
    decimal_has_no_leading_zero(row.packets_rx as nat);
    decimal_has_no_leading_zero(row.packets_tx as nat);
    (decimal(row.errors_rx as nat), decimal(row.errors_tx as nat))
}

// Announcements
/// An announcement shows the interval without zeros at its end, and the filter, the interface or the
/// states at its own end: a star where there is no filter.
pub proof fn announcements_show_their_values(
    interval: Seq<char>,
    filter: Option<Seq<char>>,
    all_states: bool,
)
    ensures
        network_announcement(interval, filter) == "netor: interface traffic, interval="@ + trimmed(
            interval,
        ) + "s, filter="@ + (match filter {
            Some(text) => text,
            None => seq!['*'],
        }),
        web_announcement(interval, filter) == "netor web: protocol capture, interval="@ + trimmed(
            interval,
        ) + "s, interface="@ + (match filter {
            Some(text) => text,
            None => seq!['*'],
        }),
        live_announcement(interval, all_states) == "netor live: interval="@ + trimmed(interval)
            + "s, states="@ + (if all_states {
            "all"@
        } else {
            "established"@
        }),
{
    reveal_strlit("*");
    assert("*"@ =~= seq!['*']);
}

} // verus!
