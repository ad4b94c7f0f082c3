use netor::address::{IpAddr, TcpConnection};
use netor::args::{check_interval, positive_usize};
use netor::counts::{sorted_counts, tally, Counts};
use netor::interfaces::{collect_interface_rows, matches_interface, InterfaceSample};
use netor::layout::{pad_left, pad_right, repeat, trim_float, truncate};
use netor::number::{parse_number, to_decimal};
use netor::packet::WebEvent;
use netor::report::{
    announce_live, announce_network, announce_web, connection_lines, endpoint_lines, interface_lines,
    interface_row_from_network, web_event_lines, InterfaceRow,
};
use netor::scale::{counts_bits, format_rate, format_scaled, scale_of, Scale, Unit};

fn positive_f64(value: &str) -> Result<f64, String> {
    let parsed = value.parse::<f64>();
    let positive = matches!(parsed, Ok(number) if number.is_finite() && number > 0.0);
    check_interval(value, parsed.is_ok(), positive)?;
    Ok(parsed.unwrap())
}

fn show_scaled(value: f64, bits: bool) -> String {
    let whole = value as u64;
    let scale = scale_of(whole);
    let scaled = value / 1024_f64.powi(scale.steps as i32);
    format_scaled(&format!("{:.*}", scale.decimals, scaled), whole, bits)
}

fn show_bytes(value: f64) -> String {
    show_scaled(value, false)
}

fn show_bits(value: f64) -> String {
    show_scaled(value, true)
}

fn show_rate(bytes_per_second: f64, unit: Unit) -> String {
    if counts_bits(unit) {
        format_rate(&show_bits(bytes_per_second * 8.0))
    } else {
        format_rate(&show_bytes(bytes_per_second))
    }
}

fn show_seconds(value: f64) -> String {
    trim_float(&format!("{value:.3}"))
}

#[test]
fn validates_positive_intervals() {
    assert_eq!(positive_f64("0.5"), Ok(0.5));
    assert!(positive_f64("0").is_err());
    assert!(positive_f64("-1").is_err());
    assert!(positive_f64("nan").is_err());
}

#[test]
fn validates_positive_f64_edge_cases() {
    assert!(positive_f64("inf").is_err());
    assert!(positive_f64("-inf").is_err());
    assert_eq!(positive_f64("1"), Ok(1.0));
    assert_eq!(positive_f64("0.001"), Ok(0.001));
}

#[test]
fn explains_bad_intervals() {
    assert_eq!(
        positive_f64("soon"),
        Err("`soon` is not a number".to_owned())
    );
    assert_eq!(
        positive_f64("0"),
        Err("value must be greater than 0".to_owned())
    );
}

#[test]
fn validates_positive_top_limit() {
    assert_eq!(positive_usize("15"), Ok(15));
    assert!(positive_usize("0").is_err());
    assert!(positive_usize("abc").is_err());
}

#[test]
fn rejects_non_positive_usize() {
    assert!(positive_usize("0").is_err());
    assert!(positive_usize("-5").is_err());
    assert_eq!(positive_usize("100"), Ok(100));
}

#[test]
fn explains_bad_limits() {
    assert_eq!(
        positive_usize("abc"),
        Err("`abc` is not a positive integer".to_owned())
    );
    assert_eq!(
        positive_usize(""),
        Err("`` is not a positive integer".to_owned())
    );
    assert_eq!(
        positive_usize("99999999999999999999"),
        Err("`99999999999999999999` is not a positive integer".to_owned())
    );
    assert_eq!(
        positive_usize("000"),
        Err("value must be greater than 0".to_owned())
    );
    assert_eq!(positive_usize("+7"), Ok(7));
    assert_eq!(positive_usize(&to_decimal(usize::MAX as u64)), Ok(usize::MAX));
}

#[test]
fn reads_numbers_as_written() {
    for value in [0_u64, 7, 10, 19, 100, 65_535, u64::MAX] {
        assert_eq!(to_decimal(value), value.to_string());
        assert_eq!(parse_number(&to_decimal(value), 10, u64::MAX), Some(value));
    }
    assert_eq!(parse_number("ff", 16, 255), Some(255));
    assert_eq!(parse_number("FF", 16, 254), None);
    assert_eq!(parse_number("+", 10, 255), None);
    assert_eq!(parse_number("1_0", 10, 255), None);
    assert_eq!(parse_number("\u{661}", 10, 255), None);
}

#[test]
fn formats_bytes_with_binary_units() {
    assert_eq!(show_bytes(0.0), "0 B");
    assert_eq!(show_bytes(1023.0), "1023 B");
    assert_eq!(show_bytes(1024.0), "1.00 KiB");
    assert_eq!(show_bytes(10.0 * 1024.0), "10.0 KiB");
}

#[test]
fn formats_bits_with_binary_units() {
    assert_eq!(show_bits(0.0), "0 b");
    assert_eq!(show_bits(1024.0), "1.00 Kib");
    assert_eq!(show_bits(1024.0 * 1024.0), "1.00 Mib");
}

#[test]
fn formats_rate_in_bytes_and_bits() {
    assert_eq!(show_rate(1024.0, Unit::Bytes), "1.00 KiB/s");
    assert_eq!(show_rate(1024.0, Unit::Bits), "8.00 Kib/s");
    assert_eq!(show_rate(1024.0, Unit::Auto), "1.00 KiB/s");
}

#[test]
fn formats_large_byte_values() {
    assert_eq!(show_bytes(1024.0 * 1024.0), "1.00 MiB");
    assert_eq!(show_bytes(1024.0 * 1024.0 * 1024.0), "1.00 GiB");
    assert_eq!(show_bytes(1024.0 * 1024.0 * 1024.0 * 1024.0), "1.00 TiB");
}

#[test]
fn scales_at_the_edges() {
    assert_eq!(scale_of(1023), Scale { steps: 0, decimals: 0 });
    assert_eq!(scale_of(1024), Scale { steps: 1, decimals: 2 });
    assert_eq!(scale_of(10_239), Scale { steps: 1, decimals: 2 });
    assert_eq!(scale_of(10_240), Scale { steps: 1, decimals: 1 });
    assert_eq!(scale_of(1_048_575), Scale { steps: 1, decimals: 1 });
    assert_eq!(scale_of(1_048_576), Scale { steps: 2, decimals: 2 });
    assert_eq!(scale_of(1_073_741_824), Scale { steps: 3, decimals: 2 });
    assert_eq!(scale_of(1_099_511_627_776), Scale { steps: 4, decimals: 2 });
    assert_eq!(scale_of(u64::MAX), Scale { steps: 4, decimals: 1 });
    assert_eq!(show_bytes(1023.6), "1024 B");
    assert_eq!(show_bytes(10_239.9), "10.00 KiB");
    assert_eq!(show_bits(3.0e18), "2728484.1 Tib");
}

#[test]
fn trims_trailing_zeros_from_float() {
    assert_eq!(show_seconds(1.0), "1");
    assert_eq!(show_seconds(1.500), "1.5");
    assert_eq!(show_seconds(0.123), "0.123");
    assert_eq!(show_seconds(2.001), "2.001");
}

#[test]
fn keeps_zeros_before_the_point() {
    assert_eq!(show_seconds(100.0), "100");
    assert_eq!(show_seconds(0.0001), "0");
    assert_eq!(trim_float(""), "");
    assert_eq!(trim_float("..00"), "");
}

#[test]
fn truncates_long_interface_names() {
    assert_eq!(truncate("abcdefghijklmnopqrs", 18), "abcdefghijklmno...");
    assert_eq!(truncate("short", 18), "short");
    assert_eq!(truncate("exact18chars------", 18), "exact18chars------");
    assert_eq!(truncate("", 10), "");
    assert_eq!(truncate("abc", 1), "a");
    assert_eq!(truncate("abcdef", 3), "abc");
}

#[test]
fn truncates_by_characters() {
    assert_eq!(truncate("\u{e9}\u{e9}\u{e9}\u{e9}\u{e9}", 4), "\u{e9}...");
    assert_eq!(truncate("abcdef", 0), "");
}

#[test]
fn pads_to_a_width() {
    assert_eq!(pad_left("ab", 4), "  ab");
    assert_eq!(pad_right("ab", 4), "ab  ");
    assert_eq!(pad_left("abcde", 4), "abcde");
    assert_eq!(pad_right("\u{e9}", 2), "\u{e9} ");
    assert_eq!(repeat('-', 3), "---");
}

#[test]
fn sorts_counts_by_frequency() {
    let mut counts = Counts::new();
    counts.insert("a".to_owned(), 3);
    counts.insert("b".to_owned(), 1);
    counts.insert("c".to_owned(), 5);
    let sorted = sorted_counts(&counts);
    assert_eq!(sorted[0], ("c".to_owned(), 5));
    assert_eq!(sorted[1], ("a".to_owned(), 3));
    assert_eq!(sorted[2], ("b".to_owned(), 1));
}

#[test]
fn sorts_equal_counts_by_name() {
    let keys = ["b", "\u{e9}", "a", "b", "ab", "a", "Z"]
        .iter()
        .map(|key| (*key).to_owned())
        .collect::<Vec<_>>();
    let counts = tally(&keys);
    assert_eq!(counts.get("b"), Some(2));
    assert_eq!(counts.get("c"), None);
    let sorted = sorted_counts(&counts);
    let names = sorted.iter().map(|row| row.0.as_str()).collect::<Vec<_>>();
    assert_eq!(names, vec!["a", "b", "Z", "ab", "\u{e9}"]);
    assert_eq!(sorted.iter().map(|row| row.1).sum::<u64>(), 7);
}

#[test]
fn replaces_counts() {
    let mut counts = Counts::new();
    assert!(counts.is_empty());
    counts.insert("a".to_owned(), 3);
    counts.insert("a".to_owned(), 4);
    counts.add("a".to_owned());
    counts.add("b".to_owned());
    assert!(!counts.is_empty());
    assert_eq!(
        sorted_counts(&counts),
        vec![("a".to_owned(), 5), ("b".to_owned(), 1)]
    );
}

#[test]
fn filters_interfaces_case_insensitively() {
    assert!(matches_interface("Ethernet 2", Some("ether")));
    assert!(!matches_interface("lo", Some("wlan")));
    assert!(matches_interface("lo", None));
}

#[test]
fn lowers_names_by_unicode() {
    assert!(matches_interface("R\u{c9}SEAU", Some("r\u{e9}seau")));
    assert!(!matches_interface("R\u{c9}SEAU", Some("reseau")));
    assert!(matches_interface("lo", Some("")));
    assert!(matches_interface("wlan0", Some("LAN")));
}

fn sample(name: &str, received: u64, transmitted: u64) -> InterfaceSample {
    InterfaceSample {
        name: name.to_owned(),
        received,
        transmitted,
        load: received + transmitted,
        rx_total: 0,
        tx_total: 0,
        packets_rx: 0,
        packets_tx: 0,
        errors_rx: 0,
        errors_tx: 0,
    }
}

#[test]
fn shows_the_busiest_interfaces_first() {
    let samples = vec![
        sample("lo", 0, 0),
        sample("eth1", 5, 5),
        sample("wlan0", 0, 20),
        sample("eth0", 10, 0),
    ];
    assert_eq!(collect_interface_rows(&samples, None, false), vec![2, 3, 1]);
    assert_eq!(collect_interface_rows(&samples, None, true), vec![2, 3, 1, 0]);
    assert_eq!(collect_interface_rows(&samples, Some("ETH"), true), vec![3, 1]);
    assert_eq!(
        collect_interface_rows(&samples, Some("tun"), true),
        Vec::<usize>::new()
    );
    assert_eq!(
        collect_interface_rows(&[sample("a", 1, 0), sample("a", 0, 1)].to_vec(), None, false),
        vec![0, 1]
    );
}

#[test]
fn prints_the_table_of_interfaces() {
    let counted = InterfaceSample {
        packets_rx: 12,
        packets_tx: 3,
        errors_rx: 1,
        errors_tx: 20,
        ..sample("a-very-long-interface-name", 1, 1)
    };
    let row = interface_row_from_network(
        &counted,
        "1.00 KiB/s".to_owned(),
        "0 B/s".to_owned(),
        "10.0 MiB".to_owned(),
        "5 B".to_owned(),
    );
    let lines = interface_lines(&vec![row]);
    assert_eq!(lines.len(), 4);
    assert_eq!(lines[0], "");
    assert_eq!(
        lines[1],
        format!(
            "{:<18} {:>14} {:>14} {:>14} {:>14} {:>12} {:>12} {:>10}",
            "interface", "rx/s", "tx/s", "rx total", "tx total", "rx pkt/s", "tx pkt/s", "errors"
        )
    );
    assert_eq!(lines[2], "-".repeat(116));
    assert_eq!(
        lines[3],
        format!(
            "{:<18} {:>14} {:>14} {:>14} {:>14} {:>12} {:>12} {:>10}",
            "a-very-long-int...", "1.00 KiB/s", "0 B/s", "10.0 MiB", "5 B", 12, 3, "1/20"
        )
    );
    assert_eq!(lines[1].len(), 115);
    assert_eq!(lines[3].len(), 115);
}

#[test]
fn says_that_there_is_no_traffic() {
    let lines = interface_lines(&Vec::<InterfaceRow>::new());
    assert_eq!(lines.len(), 4);
    assert_eq!(
        lines[3],
        "no matching traffic in this sample; use --all to show idle interfaces"
    );
}

fn event(source: &'static str, domain: &str) -> WebEvent {
    WebEvent {
        source,
        domain: domain.to_owned(),
    }
}

#[test]
fn reports_web_events() {
    let events = vec![
        event("dns", "b.example"),
        event("tls-sni", "a.example"),
        event("dns", "a.example"),
        event("tls-sni", "a.example"),
    ];
    assert_eq!(
        web_event_lines(&events, 20),
        vec![
            "",
            "web protocol events: 4",
            "         2 tls-sni a.example",
            "         1 dns a.example",
            "         1 dns b.example",
        ]
    );
    assert_eq!(
        web_event_lines(&events, 1),
        vec!["", "web protocol events: 4", "         2 tls-sni a.example"]
    );
    assert_eq!(
        web_event_lines(&Vec::new(), 20),
        vec![
            "",
            "web protocol events: 0",
            "  no DNS or TLS SNI domains captured in this window",
        ]
    );
    let mut turned = events.clone();
    turned.reverse();
    assert_eq!(web_event_lines(&turned, 20), web_event_lines(&events, 20));
}

#[test]
fn reports_connections() {
    let web = TcpConnection {
        remote_ip: IpAddr::V4([93, 184, 216, 34]),
        remote_port: 443,
        state: "ESTABLISHED".to_owned(),
    };
    let mail = TcpConnection {
        remote_ip: IpAddr::V4([9, 9, 9, 9]),
        remote_port: 25,
        state: "TIME_WAIT".to_owned(),
    };
    let connections = vec![mail, web.clone(), web];
    assert_eq!(
        connection_lines(&connections, 5),
        vec![
            "",
            "active remote connections: 3",
            "         2 93.184.216.34:443 ESTABLISHED",
            "         1 9.9.9.9:25 TIME_WAIT",
        ]
    );
    let names = vec!["b".to_owned(), "a".to_owned(), "a".to_owned()];
    assert_eq!(
        endpoint_lines(&connections, &names, 1),
        vec![
            "",
            "active remote connections: 3",
            "         2 a:443 ESTABLISHED",
        ]
    );
    assert_eq!(
        connection_lines(&Vec::new(), 5),
        vec![
            "",
            "active remote connections: 0",
            "  no matching TCP connections in this snapshot",
        ]
    );
}

#[test]
fn counts_different_addresses_apart() {
    let connections = [[1, 2, 3, 4], [12, 3, 4, 0], [1, 23, 4, 0], [1, 2, 3, 4]]
        .iter()
        .map(|octets| TcpConnection {
            remote_ip: IpAddr::V4(*octets),
            remote_port: 80,
            state: "LISTEN".to_owned(),
        })
        .collect::<Vec<_>>();
    assert_eq!(
        connection_lines(&connections, 5)[2..],
        [
            "         2 1.2.3.4:80 LISTEN",
            "         1 1.23.4.0:80 LISTEN",
            "         1 12.3.4.0:80 LISTEN",
        ]
    );
}

#[test]
fn announces_the_monitors() {
    assert_eq!(
        announce_network("1.000", None),
        "netor: interface traffic, interval=1s, filter=*"
    );
    assert_eq!(
        announce_network("0.500", Some("eth")),
        "netor: interface traffic, interval=0.5s, filter=eth"
    );
    let (live, note) = announce_live("2.000", false);
    assert_eq!(live, "netor live: interval=2s, states=established");
    assert_eq!(
        note,
        "note: this uses OS TCP connection tables; HTTPS/CDN traffic may only show IP:port"
    );
    assert_eq!(
        announce_live("2.000", true).0,
        "netor live: interval=2s, states=all"
    );
    let (web, note) = announce_web("5.000", Some("eth0"));
    assert_eq!(web, "netor web: protocol capture, interval=5s, interface=eth0");
    assert_eq!(
        note,
        "note: captures DNS queries and TLS SNI from packets; root/CAP_NET_RAW is usually required"
    );
    assert_eq!(
        announce_web("5.000", None).0,
        "netor web: protocol capture, interval=5s, interface=*"
    );
}
