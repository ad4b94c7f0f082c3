//! The lines that the monitors print.
use vstd::prelude::*;

use crate::address::TcpConnection;
use crate::counts::{ranking, row_views, sorted_counts, tallies, tally};
use crate::interfaces::InterfaceSample;
use crate::ip_text::{address_text, write_address};
use crate::layout::{
    pad_left, pad_right, padded_left, padded_right, repeat, repeated, trim_float, trimmed,
    truncate, truncated,
};
use crate::number::{decimal, to_decimal};
use crate::packet::WebEvent;
use crate::text::{optional_text, texts};

verus! {

// Counted lists
/// The line of a counted text.
pub open spec fn count_line(row: (Seq<char>, u64)) -> Seq<char> {
    "  "@ + padded_left(decimal(row.1 as nat), 8) + " "@ + row.0
}

/// The first rows of a list, `top` of them at most.
pub open spec fn first_rows(rows: Seq<(Seq<char>, u64)>, top: int) -> Seq<(Seq<char>, u64)> {
    if top < rows.len() {
        rows.take(top)
    } else {
        rows
    }
}

/// The lines of a counted list: an empty one, one with the number of items, and one for each of the
/// most frequent items, or one that says that there are none.
pub open spec fn counted_lines(
    title: Seq<char>,
    nothing: Seq<char>,
    keys: Seq<Seq<char>>,
    top: int,
) -> Seq<Seq<char>> {
    seq![seq![], title + decimal(keys.len())] + if keys.len() == 0 {
        seq![nothing]
    } else {
        first_rows(ranking(tallies(keys)), top).map_values(
            |row: (Seq<char>, u64)| count_line(row),
        )
    }
}

/// Writes the line of a counted text.
fn write_count(text: &str, count: u64) -> (line: String)
    ensures
        line@ == count_line((text@, count)),
{
    let mut line = "  ".to_owned();
    line.append(pad_left(to_decimal(count).as_str(), 8).as_str());
    line.append(" ");
    line.append(text);
    line
}

/// Writes the lines of a counted list.
fn write_counted(title: &str, nothing: &str, keys: &Vec<String>, top: usize) -> (list: Vec<String>)
    ensures
        texts(list@) == counted_lines(title@, nothing@, texts(keys@), top as int),
{
    let ghost views = texts(keys@);
    let counts = tally(keys);
    let mut list: Vec<String> = Vec::new();
    list.push(String::new());
    let mut head = title.to_owned();
    head.append(to_decimal(keys.len() as u64).as_str());
    list.push(head);
    let ghost begun = seq![Seq::<char>::empty(), title@ + decimal(views.len())];
    assert(texts(list@) =~= begun);
    proof {
        if views.len() == 0 {
            assert(tallies(views) =~= Map::<Seq<char>, u64>::empty());
        } else {
            assert(views.contains(views[0]));
            assert(tallies(views).contains_key(views[0]));
        }
    }
    if counts.is_empty() {
        list.push(nothing.to_owned());
        assert(texts(list@) =~= begun + seq![nothing@]);
        return list;
    }
    let rows = sorted_counts(&counts);
    let ghost ranked = row_views(rows@);
    let count: usize = if top < rows.len() {
        top
    } else {
        rows.len()
    };
    let ghost wanted = first_rows(ranked, top as int).map_values(
        |row: (Seq<char>, u64)| count_line(row),
    );
    let mut i: usize = 0;
    assert(begun + wanted.take(0) =~= begun);
    while i < count
        invariant
            i <= count <= rows@.len(),
            ranked == row_views(rows@),
            wanted == first_rows(ranked, top as int).map_values(
                |row: (Seq<char>, u64)| count_line(row),
            ),
            wanted.len() == count,
            texts(list@) == begun + wanted.take(i as int),
        decreases count - i,
    {
        let ghost before = texts(list@);
        list.push(write_count(rows[i].0.as_str(), rows[i].1));
        assert(ranked[i as int] == (rows@[i as int].0@, rows@[i as int].1));
        assert(wanted[i as int] == count_line(ranked[i as int]));
        i += 1;
        assert(texts(list@) =~= before.push(wanted[i - 1]));
        assert(wanted.take(i as int) =~= wanted.take(i - 1).push(wanted[i - 1]));
        assert(begun + wanted.take(i as int) =~= (begun + wanted.take(i - 1)).push(wanted[i - 1]));
    }
    assert(wanted.take(i as int) =~= wanted);
    list
}

// Web events
/// What an event is counted as: its source and its domain.
pub open spec fn event_key(event: WebEvent) -> Seq<char> {
    event.source@ + " "@ + event.domain@
}

/// What the events of a list are counted as.
pub open spec fn event_keys(events: Seq<WebEvent>) -> Seq<Seq<char>> {
    events.map_values(|event: WebEvent| event_key(event))
}

/// Writes the report of a capture: how many events there were and the most frequent domains, `top`
/// of them at most.
pub fn web_event_lines(events: &Vec<WebEvent>, top: usize) -> (list: Vec<String>)
    ensures
        texts(list@) == counted_lines(
            "web protocol events: "@,
            "  no DNS or TLS SNI domains captured in this window"@,
            event_keys(events@),
            top as int,
        ),
{
    let mut keys: Vec<String> = Vec::new();
    let mut i: usize = 0;
    while i < events.len()
        invariant
            i <= events@.len(),
            texts(keys@) == event_keys(events@).take(i as int),
        decreases events@.len() - i,
    {
        let mut key = events[i].source.to_owned();
        key.append(" ");
        key.append(events[i].domain.as_str());
        let ghost before = texts(keys@);
        keys.push(key);
        i += 1;
        assert(texts(keys@) =~= before.push(event_key(events@[i - 1])));
        assert(event_keys(events@).take(i as int) =~= event_keys(events@).take(i - 1).push(
            event_key(events@[i - 1]),
        ));
    }
    assert(event_keys(events@).take(i as int) =~= event_keys(events@));
    write_counted(
        "web protocol events: ",
        "  no DNS or TLS SNI domains captured in this window",
        &keys,
        top,
    )
}

// Connections
/// What a connection is counted as: its remote address and port, and its state.
pub open spec fn connection_key(connection: TcpConnection, address: Seq<char>) -> Seq<char> {
    address + ":"@ + decimal(connection.remote_port as nat) + " "@ + connection.state@
}

/// What the connections of a list are counted as, where `addresses` holds the texts of their remote
/// addresses.
pub open spec fn connection_keys(connections: Seq<TcpConnection>, addresses: Seq<Seq<char>>) -> Seq<
    Seq<char>,
> {
    Seq::new(connections.len(), |i: int| connection_key(connections[i], addresses[i]))
}

/// The texts of the remote addresses of connections.
pub open spec fn remote_texts(connections: Seq<TcpConnection>) -> Seq<Seq<char>> {
    connections.map_values(|connection: TcpConnection| address_text(connection.remote_ip@))
}

/// Writes the report of a snapshot: how many connections there are and the most frequent endpoints,
/// `top` of them at most.
pub fn connection_lines(connections: &Vec<TcpConnection>, top: usize) -> (list: Vec<String>)
    ensures
        texts(list@) == counted_lines(
            "active remote connections: "@,
            "  no matching TCP connections in this snapshot"@,
            connection_keys(connections@, remote_texts(connections@)),
            top as int,
        ),
{
    let mut addresses: Vec<String> = Vec::new();
    let mut i: usize = 0;
    while i < connections.len()
        invariant
            i <= connections@.len(),
            texts(addresses@) == remote_texts(connections@).take(i as int),
        decreases connections@.len() - i,
    {
        let ghost before = texts(addresses@);
        addresses.push(write_address(&connections[i].remote_ip));
        i += 1;
        assert(texts(addresses@) =~= before.push(remote_texts(connections@)[i - 1]));
        assert(remote_texts(connections@).take(i as int) =~= remote_texts(connections@).take(
            i - 1,
        ).push(remote_texts(connections@)[i - 1]));
    }
    assert(remote_texts(connections@).take(i as int) =~= remote_texts(connections@));
    assert(texts(addresses@).len() == addresses@.len());
    endpoint_lines(connections, &addresses, top)
}

/// Writes the report of a snapshot, where `addresses` holds the texts of the remote addresses.
pub fn endpoint_lines(
    connections: &Vec<TcpConnection>,
    addresses: &Vec<String>,
    top: usize,
) -> (list: Vec<String>)
    requires
        addresses@.len() == connections@.len(),
    ensures
        texts(list@) == counted_lines(
            "active remote connections: "@,
            "  no matching TCP connections in this snapshot"@,
            connection_keys(connections@, texts(addresses@)),
            top as int,
        ),
{
    let ghost wanted = connection_keys(connections@, texts(addresses@));
    let mut keys: Vec<String> = Vec::new();
    let mut i: usize = 0;
    while i < connections.len()
        invariant
            i <= connections@.len(),
            addresses@.len() == connections@.len(),
            wanted == connection_keys(connections@, texts(addresses@)),
            texts(keys@) == wanted.take(i as int),
        decreases connections@.len() - i,
    {
        let mut key = addresses[i].clone();
        key.append(":");
        key.append(to_decimal(connections[i].remote_port as u64).as_str());
        key.append(" ");
        key.append(connections[i].state.as_str());
        let ghost before = texts(keys@);
        assert(texts(addresses@)[i as int] == addresses@[i as int]@);
        assert(key@ == wanted[i as int]);
        keys.push(key);
        i += 1;
        assert(texts(keys@) =~= before.push(wanted[i - 1]));
        assert(wanted.take(i as int) =~= wanted.take(i - 1).push(wanted[i - 1]));
    }
    assert(wanted.take(i as int) =~= wanted);
    write_counted(
        "active remote connections: ",
        "  no matching TCP connections in this snapshot",
        &keys,
        top,
    )
}

// Interfaces
/// A row of the table of interfaces: rates and totals as they are shown.
#[derive(Clone, Debug, PartialEq, Eq)]
pub struct InterfaceRow {
    pub name: String,
    pub rx_rate: String,
    pub tx_rate: String,
    pub rx_total: String,
    pub tx_total: String,
    pub packets_rx: u64,
    pub packets_tx: u64,
    pub errors_rx: u64,
    pub errors_tx: u64,
}

/// Makes the row of an interface, where its rates and totals are written out.
pub fn interface_row_from_network(
    sample: &InterfaceSample,
    rx_rate: String,
    tx_rate: String,
    rx_total: String,
    tx_total: String,
) -> (row: InterfaceRow)
    ensures
        row.name == sample.name,
        row.rx_rate == rx_rate,
        row.tx_rate == tx_rate,
        row.rx_total == rx_total,
        row.tx_total == tx_total,
        row.packets_rx == sample.packets_rx,
        row.packets_tx == sample.packets_tx,
        row.errors_rx == sample.errors_rx,
        row.errors_tx == sample.errors_tx,
{
    InterfaceRow {
        name: sample.name.clone(),
        rx_rate,
        tx_rate,
        rx_total,
        tx_total,
        packets_rx: sample.packets_rx,
        packets_tx: sample.packets_tx,
        errors_rx: sample.errors_rx,
        errors_tx: sample.errors_tx,
    }
}

/// How wide a column of the table is.
pub open spec fn column_width(column: int) -> int {
    if column == 0 {
        18
    } else if column <= 4 {
        14
    } else if column <= 6 {
        12
    } else {
        10
    }
}

/// The first `count` columns of a line of the table: the first aligned left, the others right, with
/// a space between them.
pub open spec fn table_columns(columns: Seq<Seq<char>>, count: nat) -> Seq<char>
    decreases count,
{
    if count == 0 {
        seq![]
    } else if count == 1 {
        padded_right(columns[0], column_width(0))
    } else {
        table_columns(columns, (count - 1) as nat) + " "@ + padded_left(
            columns[count - 1],
            column_width(count - 1),
        )
    }
}

/// A line of the table.
pub open spec fn table_line(columns: Seq<Seq<char>>) -> Seq<char> {
    table_columns(columns, 8)
}

/// What the columns of the table are called.
pub open spec fn table_head() -> Seq<Seq<char>> {
    seq![
        "interface"@,
        "rx/s"@,
        "tx/s"@,
        "rx total"@,
        "tx total"@,
        "rx pkt/s"@,
        "tx pkt/s"@,
        "errors"@,
    ]
}

/// The columns of a row. A long name is cut.
pub open spec fn row_columns(row: InterfaceRow) -> Seq<Seq<char>> {
    seq![
        truncated(row.name@, 18),
        row.rx_rate@,
        row.tx_rate@,
        row.rx_total@,
        row.tx_total@,
        decimal(row.packets_rx as nat),
        decimal(row.packets_tx as nat),
        decimal(row.errors_rx as nat) + "/"@ + decimal(row.errors_tx as nat),
    ]
}

/// The lines of the table: an empty one, its head, a rule, and its rows or a line that says that
/// there are none.
pub open spec fn table_lines(rows: Seq<InterfaceRow>) -> Seq<Seq<char>> {
    seq![seq![], table_line(table_head()), repeated('-', 116)] + if rows.len() == 0 {
        seq!["no matching traffic in this sample; use --all to show idle interfaces"@]
    } else {
        rows.map_values(|row: InterfaceRow| table_line(row_columns(row)))
    }
}

/// Writes a line of the table.
fn write_columns(columns: &Vec<String>) -> (line: String)
    requires
        columns@.len() == 8,
    ensures
        line@ == table_line(texts(columns@)),
{
    let mut line = pad_right(columns[0].as_str(), 18);
    let ghost views = texts(columns@);
    assert(views[0] == columns@[0]@);
    let mut i: usize = 1;
    while i < 8
        invariant
            1 <= i <= 8,
            columns@.len() == 8,
            views == texts(columns@),
            line@ == table_columns(views, i as nat),
        decreases 8 - i,
    {
        let width: usize = if i <= 4 {
            14
        } else if i <= 6 {
            12
        } else {
            10
        };
        assert(views[i as int] == columns@[i as int]@);
        line.append(" ");
        line.append(pad_left(columns[i].as_str(), width).as_str());
        i += 1;
    }
    line
}

/// Writes the head of the table.
fn write_head() -> (line: String)
    ensures
        line@ == table_line(table_head()),
{
    let mut columns: Vec<String> = Vec::new();
    columns.push("interface".to_owned());
    columns.push("rx/s".to_owned());
    columns.push("tx/s".to_owned());
    columns.push("rx total".to_owned());
    columns.push("tx total".to_owned());
    columns.push("rx pkt/s".to_owned());
    columns.push("tx pkt/s".to_owned());
    columns.push("errors".to_owned());
    assert(texts(columns@) =~= table_head());
    write_columns(&columns)
}

/// Writes a row of the table.
fn write_row(row: &InterfaceRow) -> (line: String)
    ensures
        line@ == table_line(row_columns(*row)),
{
    let mut errors = to_decimal(row.errors_rx);
    errors.append("/");
    errors.append(to_decimal(row.errors_tx).as_str());
    let mut columns: Vec<String> = Vec::new();
    columns.push(truncate(row.name.as_str(), 18));
    columns.push(row.rx_rate.clone());
    columns.push(row.tx_rate.clone());
    columns.push(row.rx_total.clone());
    columns.push(row.tx_total.clone());
    columns.push(to_decimal(row.packets_rx));
    columns.push(to_decimal(row.packets_tx));
    columns.push(errors);
    assert(texts(columns@) =~= row_columns(*row));
    write_columns(&columns)
}

/// Writes the table of interfaces.
pub fn interface_lines(rows: &Vec<InterfaceRow>) -> (list: Vec<String>)
    ensures
        texts(list@) == table_lines(rows@),
{
    let mut list: Vec<String> = Vec::new();
    list.push(String::new());
    list.push(write_head());
    list.push(repeat('-', 116));
    let ghost begun = seq![
        Seq::<char>::empty(),
        table_line(table_head()),
        repeated('-', 116),
    ];
    assert(texts(list@) =~= begun);
    if rows.len() == 0 {
        list.push(
            "no matching traffic in this sample; use --all to show idle interfaces".to_owned(),
        );
        assert(texts(list@) =~= begun
            + seq!["no matching traffic in this sample; use --all to show idle interfaces"@]);
        return list;
    }
    let ghost wanted = rows@.map_values(|row: InterfaceRow| table_line(row_columns(row)));
    let mut i: usize = 0;
    assert(begun + wanted.take(0) =~= begun);
    while i < rows.len()
        invariant
            i <= rows@.len(),
            wanted == rows@.map_values(|row: InterfaceRow| table_line(row_columns(row))),
            texts(list@) == begun + wanted.take(i as int),
        decreases rows@.len() - i,
    {
        let ghost before = texts(list@);
        list.push(write_row(&rows[i]));
        i += 1;
        assert(texts(list@) =~= before.push(wanted[i - 1]));
        assert(wanted.take(i as int) =~= wanted.take(i - 1).push(wanted[i - 1]));
        assert(begun + wanted.take(i as int) =~= (begun + wanted.take(i - 1)).push(wanted[i - 1]));
    }
    assert(wanted.take(i as int) =~= wanted);
    list
}

// Announcements
/// What is shown in place of a filter.
pub open spec fn filter_text(filter: Option<Seq<char>>) -> Seq<char> {
    match filter {
        Some(text) => text,
        None => "*"@,
    }
}

/// What announces the monitor of the interfaces, where `interval` is the interval in seconds,
/// written with decimals.
pub open spec fn network_announcement(interval: Seq<char>, filter: Option<Seq<char>>) -> Seq<char> {
    "netor: interface traffic, interval="@ + trimmed(interval) + "s, filter="@ + filter_text(filter)
}

/// What announces the monitor of the connections.
pub open spec fn live_announcement(interval: Seq<char>, all_states: bool) -> Seq<char> {
    "netor live: interval="@ + trimmed(interval) + "s, states="@ + if all_states {
        "all"@
    } else {
        "established"@
    }
}

/// What announces the monitor of the domains.
pub open spec fn web_announcement(interval: Seq<char>, interface: Option<Seq<char>>) -> Seq<char> {
    "netor web: protocol capture, interval="@ + trimmed(interval) + "s, interface="@ + filter_text(
        interface,
    )
}

/// Announces the monitor of the interfaces, where `interval` is the interval in seconds, written
/// with decimals.
pub fn announce_network(interval: &str, filter: Option<&str>) -> (line: String)
    ensures
        line@ == network_announcement(interval@, optional_text(filter)),
{
    let mut line = "netor: interface traffic, interval=".to_owned();
    line.append(trim_float(interval).as_str());
    line.append("s, filter=");
    match filter {
        Some(text) => line.append(text),
        None => line.append("*"),
    }
    line
}

/// Announces the monitor of the connections, and what it cannot tell.
pub fn announce_live(interval: &str, all_states: bool) -> (list: (String, &'static str))
    ensures
        list.0@ == live_announcement(interval@, all_states),
        list.1@
            == "note: this uses OS TCP connection tables; HTTPS/CDN traffic may only show IP:port"@,
{
    let mut line = "netor live: interval=".to_owned();
    line.append(trim_float(interval).as_str());
    line.append("s, states=");
    if all_states {
        line.append("all");
    } else {
        line.append("established");
    }
    (line, "note: this uses OS TCP connection tables; HTTPS/CDN traffic may only show IP:port")
}

/// Announces the monitor of the domains, and what it needs.
pub fn announce_web(interval: &str, interface: Option<&str>) -> (list: (String, &'static str))
    ensures
        list.0@ == web_announcement(interval@, optional_text(interface)),
        list.1@
            == "note: captures DNS queries and TLS SNI from packets; root/CAP_NET_RAW is usually required"@,
{
    let mut line = "netor web: protocol capture, interval=".to_owned();
    line.append(trim_float(interval).as_str());
    line.append("s, interface=");
    match interface {
        Some(text) => line.append(text),
        None => line.append("*"),
    }
    (
        line,
        "note: captures DNS queries and TLS SNI from packets; root/CAP_NET_RAW is usually required",
    )
}

} // verus!
