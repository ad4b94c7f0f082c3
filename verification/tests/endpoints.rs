use netor::address::{is_remote, IpAddr, TcpConnection};
use netor::ip_text::{read_address, write_address};
use netor::live::{collect_live_connections, netstat_argument, netstat_text};
use netor::netstat::{
    collect_netstat_connections, netstat_address_text, parse_endpoint, parse_netstat_line,
    read_endpoint, read_netstat_line, split_endpoint,
};
use netor::proc_table::{
    collect_linux_proc_connections, collect_linux_proc_file, endpoint_is_cuttable,
    parse_linux_proc_address, parse_linux_proc_line, table_is_cuttable, tcp_state_name,
};

fn v6(groups: [u16; 8]) -> IpAddr {
    let mut octets = [0_u8; 16];
    for (i, group) in groups.iter().enumerate() {
        octets[2 * i] = (group >> 8) as u8;
        octets[2 * i + 1] = (group & 0xff) as u8;
    }
    IpAddr::V6(octets)
}

fn connection(address: &str, remote_port: u16, state: &str) -> TcpConnection {
    TcpConnection {
        remote_ip: read_address(address).unwrap(),
        remote_port,
        state: state.to_owned(),
    }
}

#[test]
fn reads_and_writes_addresses() {
    let cases = [
        ("93.184.216.34", IpAddr::V4([93, 184, 216, 34])),
        ("0.0.0.0", IpAddr::V4([0, 0, 0, 0])),
        ("255.255.255.255", IpAddr::V4([255, 255, 255, 255])),
        ("::", v6([0, 0, 0, 0, 0, 0, 0, 0])),
        ("::1", v6([0, 0, 0, 0, 0, 0, 0, 1])),
        ("::ffff:127.0.0.1", v6([0, 0, 0, 0, 0, 0xffff, 0x7f00, 1])),
        ("2001:db8::1", v6([0x2001, 0xdb8, 0, 0, 0, 0, 0, 1])),
        (
            "2606:2800:220:1:248:1893:25c8:1946",
            v6([0x2606, 0x2800, 0x220, 1, 0x248, 0x1893, 0x25c8, 0x1946]),
        ),
    ];
    for (text, address) in cases {
        assert_eq!(read_address(text), Some(address));
        assert_eq!(write_address(&address), text);
    }
    assert_eq!(
        read_address("2001:DB8:0::0:1"),
        Some(v6([0x2001, 0xdb8, 0, 0, 0, 0, 0, 1]))
    );
    for text in ["", "1.2.3", "1.2.3.4.5", "01.2.3.4", "256.0.0.1", " 1.2.3.4", "*", "[::1]"] {
        assert_eq!(read_address(text), None);
    }
}

#[test]
fn reads_endpoints_of_given_addresses() {
    let address = Some(IpAddr::V4([7, 7, 7, 7]));
    assert_eq!(
        read_endpoint("host:80", address),
        Some((IpAddr::V4([7, 7, 7, 7]), 80))
    );
    assert_eq!(read_endpoint("host:80", None), None);
    assert_eq!(read_endpoint("host", address), None);
    assert_eq!(
        netstat_address_text("tcp a:1 host:80 listen", true),
        Some("host".to_owned())
    );
    assert_eq!(
        read_netstat_line("tcp a:1 host:80 listen", true, address),
        Some(TcpConnection {
            remote_ip: IpAddr::V4([7, 7, 7, 7]),
            remote_port: 80,
            state: "LISTEN".to_owned(),
        })
    );
    assert_eq!(read_netstat_line("tcp a:1 host:80 listen", true, None), None);
}

#[test]
fn parses_plain_and_bracketed_endpoints() {
    assert_eq!(
        parse_endpoint("93.184.216.34:443"),
        Some((IpAddr::V4([93, 184, 216, 34]), 443))
    );
    assert_eq!(
        parse_endpoint("[2606:2800:220:1:248:1893:25c8:1946]:443"),
        Some((
            v6([0x2606, 0x2800, 0x220, 1, 0x248, 0x1893, 0x25c8, 0x1946]),
            443
        ))
    );
}

#[test]
fn rejects_invalid_endpoints() {
    assert_eq!(parse_endpoint("not-an-endpoint"), None);
    assert_eq!(parse_endpoint(""), None);
    assert_eq!(parse_endpoint("192.168.1.1"), None);
}

#[test]
fn rejects_endpoints_with_bad_ports() {
    assert_eq!(parse_endpoint("1.2.3.4:65536"), None);
    assert_eq!(parse_endpoint("1.2.3.4:-1"), None);
    assert_eq!(parse_endpoint("1.2.3.4:"), None);
    assert_eq!(parse_endpoint("1.2.3.4:http"), None);
    assert_eq!(parse_endpoint("[::1]443"), None);
    assert_eq!(
        parse_endpoint("1.2.3.4:+80"),
        Some((IpAddr::V4([1, 2, 3, 4]), 80))
    );
    assert_eq!(
        parse_endpoint("1.2.3.4:65535"),
        Some((IpAddr::V4([1, 2, 3, 4]), 65535))
    );
}

#[test]
fn cuts_endpoints_at_the_last_mark() {
    assert_eq!(
        split_endpoint("::1:80"),
        Some(("::1".to_owned(), "80".to_owned()))
    );
    assert_eq!(
        split_endpoint("[a]:b]:c"),
        Some(("a]:b".to_owned(), "c".to_owned()))
    );
    assert_eq!(
        split_endpoint("[]:"),
        Some(("".to_owned(), "".to_owned()))
    );
    assert_eq!(split_endpoint("["), None);
}

#[test]
fn parses_linux_proc_ipv4_addresses() {
    assert_eq!(
        parse_linux_proc_address("22D8B85D:01BB"),
        Some((IpAddr::V4([93, 184, 216, 34]), 443))
    );
}

#[test]
fn parses_linux_proc_ipv6_addresses() {
    assert_eq!(
        parse_linux_proc_address("B80D0120000000000000000001000000:0050"),
        Some((read_address("2001:db8::1").unwrap(), 80))
    );
    assert_eq!(parse_linux_proc_address("B80D01200000:0050"), None);
    assert_eq!(parse_linux_proc_address("22D8B85D"), None);
    assert_eq!(parse_linux_proc_address("22D8B85D:10000"), None);
    assert_eq!(parse_linux_proc_address("22D8B85X:01BB"), None);
}

#[test]
fn tells_which_addresses_can_be_cut() {
    assert!(endpoint_is_cuttable("22D8B85D:01BB"));
    assert!(endpoint_is_cuttable("no colon"));
    assert!(endpoint_is_cuttable(
        "B80D0120000000000000000001000000:0050"
    ));
    assert!(!endpoint_is_cuttable(
        "0000000\u{e9}00000000000000000000000:0050"
    ));
    assert!(endpoint_is_cuttable(
        "0000000\u{e9}00000000000000000000000:port"
    ));
    assert!(endpoint_is_cuttable(
        "zzzzzzzz0000000\u{e9}000000000000000:0050"
    ));
    assert!(!table_is_cuttable(
        "head\n0: a 0000000\u{e9}00000000000000000000000:0050 01\n"
    ));
    assert!(table_is_cuttable(
        "0: a 0000000\u{e9}00000000000000000000000:0050 01\nrest"
    ));
}

#[test]
fn maps_tcp_state_hex_codes() {
    assert_eq!(tcp_state_name("01"), "ESTABLISHED");
    assert_eq!(tcp_state_name("02"), "SYN_SENT");
    assert_eq!(tcp_state_name("06"), "TIME_WAIT");
    assert_eq!(tcp_state_name("0A"), "LISTEN");
    assert_eq!(tcp_state_name("FF"), "UNKNOWN");
}

#[test]
fn maps_the_other_tcp_states() {
    assert_eq!(tcp_state_name("03"), "SYN_RECV");
    assert_eq!(tcp_state_name("04"), "FIN_WAIT1");
    assert_eq!(tcp_state_name("05"), "FIN_WAIT2");
    assert_eq!(tcp_state_name("07"), "CLOSE");
    assert_eq!(tcp_state_name("08"), "CLOSE_WAIT");
    assert_eq!(tcp_state_name("09"), "LAST_ACK");
    assert_eq!(tcp_state_name("0B"), "CLOSING");
    assert_eq!(tcp_state_name("0a"), "UNKNOWN");
}

const TCP: &str = "  sl  local_address rem_address   st tx_queue rx_queue\n\
   0: 0100007F:0016 00000000:0000 0A 00000000:00000000 00:00000000\n\
   1: 0F02000A:8AE2 22D8B85D:01BB 01 00000000:00000000 00:00000000\n\
   2: 0F02000A:8AE3 22D8B85D:01BB 06 00000000:00000000 00:00000000\r\n\
   3: short line\n\
   4: 0F02000A:8AE4 0100007F:1F90 01 00000000:00000000 00:00000000\n";

const TCP6: &str = "  sl  local_address remote_address st\n\
   0: x B80D0120000000000000000001000000:0050 01\n\
   1: x 00000000000000000000000001000000:0050 01";

#[test]
fn collects_linux_connections() {
    assert_eq!(
        collect_linux_proc_connections(TCP, TCP6, false),
        vec![
            connection("93.184.216.34", 443, "ESTABLISHED"),
            connection("2001:db8::1", 80, "ESTABLISHED"),
        ]
    );
    assert_eq!(
        collect_linux_proc_connections(TCP, "", true),
        vec![
            connection("93.184.216.34", 443, "ESTABLISHED"),
            connection("93.184.216.34", 443, "TIME_WAIT"),
        ]
    );
    let mut connections = vec![connection("1.2.3.4", 1, "LISTEN")];
    collect_linux_proc_file(TCP6, false, &mut connections);
    assert_eq!(
        connections,
        vec![
            connection("1.2.3.4", 1, "LISTEN"),
            connection("2001:db8::1", 80, "ESTABLISHED"),
        ]
    );
}

#[test]
fn splits_table_lines_at_any_white_space() {
    assert_eq!(
        parse_linux_proc_line("0:\u{3000}x\t22D8B85D:01BB\u{a0}01", false),
        Some(connection("93.184.216.34", 443, "ESTABLISHED"))
    );
    assert_eq!(parse_linux_proc_line("0: x 22D8B85D:01BB", true), None);
    assert_eq!(parse_linux_proc_line("0: x 22D8B85D:0000 01", true), None);
    assert_eq!(parse_linux_proc_line("0: x 22D8B85D:01BB 02", false), None);
}

#[test]
fn falls_back_to_netstat() {
    assert_eq!(
        collect_live_connections(true, Some(TCP), Some(TCP6), false)
            .unwrap()
            .len(),
        2
    );
    assert_eq!(collect_live_connections(false, Some(TCP), Some(TCP6), false), None);
    assert_eq!(collect_live_connections(true, Some(TCP), None, false), None);
    assert_eq!(collect_live_connections(true, None, Some(TCP6), false), None);
    assert_eq!(netstat_argument(true), "-ano");
    assert_eq!(netstat_argument(false), "-n");
}

#[test]
fn reads_what_netstat_printed() {
    assert_eq!(netstat_text(true, b"tcp\n"), Ok("tcp\n".to_owned()));
    assert_eq!(
        netstat_text(true, b"a\xffb\xc3\xa9"),
        Ok("a\u{fffd}b\u{e9}".to_owned())
    );
    assert_eq!(
        netstat_text(false, b"tcp\n"),
        Err("netstat command failed".to_owned())
    );
}

#[test]
fn parses_netstat_lines() {
    let long = "tcp        0      0 10.0.2.15:35554      93.184.216.34:443     established";
    assert_eq!(
        parse_netstat_line(long, false),
        Some(connection("93.184.216.34", 443, "ESTABLISHED"))
    );
    let short = "TCP6 [::1]:1 [2001:db8::1]:443 TIME_WAIT 4711";
    assert_eq!(
        parse_netstat_line(short, false),
        Some(connection("2001:db8::1", 443, "TIME_WAIT"))
    );
    assert_eq!(
        parse_netstat_line(short, true),
        Some(connection("2001:db8::1", 443, "TIME_WAIT"))
    );
    assert_eq!(
        parse_netstat_line("tcp 1.1.1.1:1 9.9.9.9:53", true),
        Some(connection("9.9.9.9", 53, "UNKNOWN"))
    );
    assert_eq!(parse_netstat_line("udp 1.1.1.1:1 9.9.9.9:53", true), None);
    assert_eq!(parse_netstat_line("tcp 1.1.1.1:1", true), None);
    assert_eq!(parse_netstat_line("", false), None);
    assert_eq!(parse_netstat_line("tcp 1.1.1.1:1 127.0.0.1:53 LISTEN", true), None);
    assert_eq!(parse_netstat_line("tcp 1.1.1.1:1 0.0.0.0:53 LISTEN", true), None);
    assert_eq!(parse_netstat_line("tcp 1.1.1.1:1 9.9.9.9:0 LISTEN", true), None);
}

#[test]
fn collects_netstat_connections() {
    let text = "Active connections\n\ntcp 1.1.1.1:1 9.9.9.9:53 established\n\
        tcp 1.1.1.1:1 8.8.8.8:53 close_wait\r\ntcp 1.1.1.1:1 *:* listen\n";
    assert_eq!(
        collect_netstat_connections(text, true, false),
        vec![connection("9.9.9.9", 53, "ESTABLISHED")]
    );
    assert_eq!(
        collect_netstat_connections(text, true, true),
        vec![
            connection("9.9.9.9", 53, "ESTABLISHED"),
            connection("8.8.8.8", 53, "CLOSE_WAIT"),
        ]
    );
}

#[test]
fn tells_remote_endpoints() {
    assert!(is_remote(&IpAddr::V4([93, 184, 216, 34]), 443));
    assert!(!is_remote(&IpAddr::V4([127, 3, 2, 1]), 443));
    assert!(!is_remote(&IpAddr::V4([0, 0, 0, 0]), 443));
    assert!(!is_remote(&IpAddr::V4([93, 184, 216, 34]), 0));
    assert!(!is_remote(&read_address("::1").unwrap(), 443));
    assert!(!is_remote(&read_address("::").unwrap(), 443));
    assert!(is_remote(&read_address("::2").unwrap(), 443));
    assert!(is_remote(&read_address("::ffff:127.0.0.1").unwrap(), 443));
}
