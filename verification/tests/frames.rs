use netor::bytes::{read_text, read_u16};
use netor::dns::{parse_dns_name, parse_dns_query_domains};
use netor::packet::{
    ethernet_payload, parse_packet_for_web_events, parse_tcp_for_web_events,
    parse_transport_for_web_events, parse_udp_for_web_events, WebEvent,
};
use netor::tls::{parse_tls_sni, parse_tls_sni_extension};

fn name(labels: &[&[u8]]) -> Vec<u8> {
    let mut bytes = Vec::new();
    for label in labels {
        bytes.push(label.len() as u8);
        bytes.extend_from_slice(label);
    }
    bytes.push(0);
    bytes
}

fn query(names: &[Vec<u8>]) -> Vec<u8> {
    let mut message = vec![0x12, 0x34, 0x01, 0, 0, names.len() as u8, 0, 0, 0, 0, 0, 0];
    for name in names {
        message.extend_from_slice(name);
        message.extend_from_slice(&[0, 1, 0, 1]);
    }
    message
}

fn udp(source: u16, destination: u16, payload: &[u8]) -> Vec<u8> {
    let mut packet = Vec::new();
    packet.extend_from_slice(&source.to_be_bytes());
    packet.extend_from_slice(&destination.to_be_bytes());
    packet.extend_from_slice(&[0, 0, 0, 0]);
    packet.extend_from_slice(payload);
    packet
}

fn tcp(source: u16, destination: u16, payload: &[u8]) -> Vec<u8> {
    let mut packet = vec![0_u8; 24];
    packet[0..2].copy_from_slice(&source.to_be_bytes());
    packet[2..4].copy_from_slice(&destination.to_be_bytes());
    packet[12] = 0x60;
    packet.extend_from_slice(payload);
    packet
}

fn ipv4_frame(protocol: u8, payload: &[u8]) -> Vec<u8> {
    let mut frame = vec![0_u8; 14];
    frame[12] = 0x08;
    let mut header = vec![0_u8; 24];
    header[0] = 0x46;
    header[9] = protocol;
    frame.extend_from_slice(&header);
    frame.extend_from_slice(payload);
    frame
}

fn ipv6_frame(protocol: u8, payload: &[u8]) -> Vec<u8> {
    let mut frame = vec![0_u8; 14];
    frame[12] = 0x86;
    frame[13] = 0xdd;
    let mut header = vec![0_u8; 40];
    header[0] = 0x60;
    header[6] = protocol;
    frame.extend_from_slice(&header);
    frame.extend_from_slice(payload);
    frame
}

fn tagged(frame: &[u8]) -> Vec<u8> {
    let mut longer = frame[..12].to_vec();
    longer.extend_from_slice(&[0x81, 0x00, 0x00, 0x05]);
    longer.extend_from_slice(&frame[12..]);
    longer
}

fn with_length(bytes: &[u8]) -> Vec<u8> {
    let mut all = (bytes.len() as u16).to_be_bytes().to_vec();
    all.extend_from_slice(bytes);
    all
}

fn host_list(host: &[u8]) -> Vec<u8> {
    let mut list = vec![7, 0, 2, 9, 9, 0];
    list.extend_from_slice(&with_length(host));
    with_length(&list)
}

fn client_hello(host: &[u8]) -> Vec<u8> {
    let mut extensions = vec![0, 23, 0, 0];
    extensions.extend_from_slice(&[0, 0]);
    extensions.extend_from_slice(&with_length(&host_list(host)));
    extensions.extend_from_slice(&[0, 35, 0, 1, 5]);
    let mut body = vec![3, 3];
    body.extend_from_slice(&[7; 32]);
    body.extend_from_slice(&[3, 1, 2, 3]);
    body.extend_from_slice(&[0, 4, 0x13, 0x01, 0x13, 0x02]);
    body.extend_from_slice(&[1, 0]);
    body.extend_from_slice(&with_length(&extensions));
    let mut handshake = vec![1, 0];
    handshake.extend_from_slice(&(body.len() as u16).to_be_bytes());
    handshake.extend_from_slice(&body);
    let mut record = vec![22, 3, 1];
    record.extend_from_slice(&with_length(&handshake));
    record
}

fn event(source: &'static str, domain: &str) -> WebEvent {
    WebEvent {
        source,
        domain: domain.to_owned(),
    }
}

#[test]
fn reads_written_queries() {
    let names = [
        name(&[b"WWW", b"Example", b"com"]),
        name(&[]),
        name(&[b"b", b"org"]),
    ];
    let mut message = query(&names);
    message.extend_from_slice(&[1, 2, 3]);
    assert_eq!(
        parse_dns_query_domains(&message),
        vec!["www.example.com", "b.org"]
    );
    message[2] = 0x81;
    assert_eq!(parse_dns_query_domains(&message), Vec::<String>::new());
}

#[test]
fn stops_at_the_first_bad_question() {
    let mut message = query(&[name(&[b"a"]), name(&[b"b"])]);
    message.truncate(message.len() - 1);
    assert_eq!(parse_dns_query_domains(&message), vec!["a"]);
    message[5] = 200;
    assert_eq!(parse_dns_query_domains(&message), vec!["a"]);
}

#[test]
fn longer_messages_ask_for_no_less() {
    let message = query(&[name(&[b"a"]), name(&[b"b"]), name(&[b"c"])]);
    let all = parse_dns_query_domains(&message);
    for end in 0..message.len() {
        let some = parse_dns_query_domains(&message[..end]);
        assert_eq!(some[..], all[..some.len()]);
    }
}

#[test]
fn follows_pointers() {
    let mut packet = name(&[b"example", b"com"]);
    let at = packet.len();
    packet.extend_from_slice(&[3, b'w', b'w', b'w', 0xc0, 0]);
    assert_eq!(
        parse_dns_name(&packet, at),
        Some(("www.example.com".to_owned(), at + 6))
    );
    assert_eq!(
        parse_dns_name(&packet, at + 4),
        Some(("example.com".to_owned(), at + 6))
    );
}

#[test]
fn rejects_names_in_a_circle() {
    assert_eq!(parse_dns_name(&[0xc0, 0], 0), None);
    assert_eq!(parse_dns_name(&[1, b'a', 0xc0, 0], 0), None);
    assert_eq!(parse_dns_name(&[0xc0, 2, 0xc0, 0], 0), None);
    assert_eq!(parse_dns_name(&[0xc0], 0), None);
    assert_eq!(parse_dns_name(&[0], 1), None);
    assert_eq!(parse_dns_name(&[0], usize::MAX), None);
}

#[test]
fn reads_long_labels() {
    let label = [b'x'; 0xbf];
    let (text, end) = parse_dns_name(&name(&[&label]), 0).unwrap();
    assert_eq!(text.len(), 0xbf);
    assert_eq!(end, 0xc1);
}

#[test]
fn repairs_text() {
    assert_eq!(read_text(b"plain"), "plain");
    assert_eq!(read_text(b"caf\xc3\xa9"), "caf\u{e9}");
    assert_eq!(read_text(b"a\xff\xfeb"), "a\u{fffd}\u{fffd}b");
    assert_eq!(
        parse_dns_name(&name(&[b"A\xff", b"\xc3\x89"]), 0),
        Some(("a\u{fffd}.\u{c9}".to_owned(), 7))
    );
    assert_eq!(
        parse_tls_sni_extension(&host_list(b"Caf\xc3\x89\x80")),
        Some("caf\u{c9}\u{fffd}".to_owned())
    );
}

#[test]
fn reads_written_hellos() {
    let mut packet = client_hello(b"Www.Example.COM");
    assert_eq!(parse_tls_sni(&packet), Some("www.example.com".to_owned()));
    packet.extend_from_slice(&[1, 2, 3]);
    assert_eq!(parse_tls_sni(&packet), Some("www.example.com".to_owned()));
    for end in 0..client_hello(b"a").len() {
        assert_eq!(parse_tls_sni(&client_hello(b"a")[..end]), None);
    }
}

#[test]
fn reads_hellos_with_any_lengths_that_fit() {
    let packet = client_hello(b"example.com");
    for (record_len, message_len) in [(0, 0), (5, 1), (packet.len() - 5, packet.len() - 9)] {
        let mut other = packet.clone();
        other[3..5].copy_from_slice(&(record_len as u16).to_be_bytes());
        other[6..9].copy_from_slice(&(message_len as u32).to_be_bytes()[1..]);
        assert_eq!(parse_tls_sni(&other), Some("example.com".to_owned()));
    }
    let mut other = packet.clone();
    other[3..5].copy_from_slice(&((packet.len() - 4) as u16).to_be_bytes());
    assert_eq!(parse_tls_sni(&other), None);
}

#[test]
fn rejects_hellos_that_do_not_add_up() {
    let packet = client_hello(b"example.com");
    let mut other_type = packet.clone();
    other_type[5] = 2;
    assert_eq!(parse_tls_sni(&other_type), None);
    let mut other_record = packet.clone();
    other_record[0] = 23;
    assert_eq!(parse_tls_sni(&other_record), None);
    let mut long_handshake = packet.clone();
    long_handshake[6] = 1;
    assert_eq!(parse_tls_sni(&long_handshake), None);
    let mut long_session = packet;
    long_session[43] = 255;
    assert_eq!(parse_tls_sni(&long_session), None);
}

#[test]
fn rejects_host_lists_that_do_not_add_up() {
    assert_eq!(parse_tls_sni_extension(&[0, 4, 0, 0, 1]), None);
    assert_eq!(parse_tls_sni_extension(&[0, 3, 0, 0, 1]), None);
    assert_eq!(parse_tls_sni_extension(&[0, 4, 1, 0, 1, b'a']), None);
    assert_eq!(
        parse_tls_sni_extension(&[0, 3, 0, 0, 0]),
        Some("".to_owned())
    );
}

#[test]
fn sees_queries_in_frames() {
    let message = query(&[name(&[b"Example", b"com"])]);
    let expected = vec![event("dns", "example.com")];
    let datagram = udp(40_000, 53, &message);
    for frame in [ipv4_frame(17, &datagram), ipv6_frame(17, &datagram)] {
        assert_eq!(parse_packet_for_web_events(&frame), expected);
        assert_eq!(parse_packet_for_web_events(&tagged(&frame)), expected);
        assert_eq!(
            parse_packet_for_web_events(&tagged(&tagged(&frame))),
            Vec::new()
        );
    }
    assert_eq!(
        parse_udp_for_web_events(&udp(53, 40_000, &message)),
        expected
    );
    let segment = tcp(53, 40_000, &with_length(&message));
    assert_eq!(
        parse_packet_for_web_events(&ipv4_frame(6, &segment)),
        expected
    );
    assert_eq!(
        parse_tcp_for_web_events(&segment[..segment.len() - 1]),
        Vec::new()
    );
}

#[test]
fn sees_hellos_in_frames() {
    let segment = tcp(40_000, 443, &client_hello(b"Example.com"));
    let expected = vec![event("tls-sni", "example.com")];
    assert_eq!(
        parse_packet_for_web_events(&ipv4_frame(6, &segment)),
        expected
    );
    assert_eq!(
        parse_packet_for_web_events(&ipv6_frame(6, &segment)),
        expected
    );
}

#[test]
fn puts_the_hello_last() {
    let message = query(&[name(&[b"a"]), name(&[b"b"])]);
    let segment = tcp(53, 443, &with_length(&message));
    assert_eq!(
        parse_tcp_for_web_events(&segment),
        vec![event("dns", "a"), event("dns", "b")]
    );
    let segment = tcp(443, 53, &client_hello(b"example.com"));
    assert_eq!(
        parse_tcp_for_web_events(&segment),
        vec![event("tls-sni", "example.com")]
    );
    let mut both = client_hello(b"example.com");
    both[1..5].copy_from_slice(&[0, 0, 0, 0]);
    both[6..9].copy_from_slice(&[0, 1, 0]);
    both[14..17].copy_from_slice(&[1, b'a', 0]);
    both.resize(22 * 256 + 2, 0);
    assert_eq!(
        parse_tcp_for_web_events(&tcp(443, 53, &both)),
        vec![event("dns", "a"), event("tls-sni", "example.com")]
    );
}

#[test]
fn ignores_other_ports_and_protocols() {
    let message = query(&[name(&[b"example", b"com"])]);
    assert_eq!(
        parse_udp_for_web_events(&udp(40_000, 5353, &message)),
        Vec::new()
    );
    assert_eq!(
        parse_tcp_for_web_events(&tcp(40_000, 8443, &client_hello(b"a.b"))),
        Vec::new()
    );
    assert_eq!(
        parse_transport_for_web_events(1, &udp(40_000, 53, &message)),
        Vec::new()
    );
    assert_eq!(
        parse_transport_for_web_events(17, &udp(40_000, 53, &message)),
        vec![event("dns", "example.com")]
    );
}

#[test]
fn finds_payloads() {
    let frame = ipv4_frame(17, &[1, 2, 3]);
    assert_eq!(ethernet_payload(&frame), Some(&frame[14..]));
    let longer = tagged(&frame);
    assert_eq!(ethernet_payload(&longer), Some(&longer[18..]));
    assert_eq!(ethernet_payload(&longer[..17]), None);
    assert_eq!(ethernet_payload(&frame[..14]), Some(&frame[14..14]));
    assert_eq!(read_u16(&[0, 0x12, 0x34], 1), 0x1234);
}
