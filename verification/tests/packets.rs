use netor::bytes::read_u24;
use netor::dns::{parse_dns_name, parse_dns_query_domains};
use netor::packet::{
    ethernet_payload, parse_ip_payload_for_web_events, parse_ipv4_for_web_events,
    parse_ipv6_for_web_events, parse_tcp_for_web_events, parse_udp_for_web_events, WebEvent,
};
use netor::tls::{parse_tls_sni, parse_tls_sni_extension};

#[test]
fn parses_dns_query_domains() {
    let packet = [
        0x12, 0x34, 0x01, 0x00, 0x00, 0x01, 0x00, 0x00, 0x00, 0x00, 0x00, 0x00, 0x07, b'e', b'x',
        b'a', b'm', b'p', b'l', b'e', 0x03, b'c', b'o', b'm', 0x00, 0x00, 0x01, 0x00, 0x01,
    ];

    assert_eq!(parse_dns_query_domains(&packet), vec!["example.com"]);
}

#[test]
fn parses_tls_sni_extension() {
    let mut extension = Vec::new();
    extension.extend_from_slice(&[0x00, 0x11]);
    extension.push(0x00);
    extension.extend_from_slice(&[0x00, 0x0e]);
    extension.extend_from_slice(b"www.openai.com");

    assert_eq!(
        parse_tls_sni_extension(&extension),
        Some("www.openai.com".to_owned())
    );
}

#[test]
fn reads_three_byte_lengths() {
    assert_eq!(read_u24(&[0x00, 0x10, 0x00]), Some(4096));
    assert_eq!(read_u24(&[0x10, 0x00]), None);
}

#[test]
fn parses_dns_response_ignored() {
    let packet = vec![
        0x12, 0x34, 0x81, 0x80, 0x00, 0x01, 0x00, 0x00, 0x00, 0x00, 0x00, 0x00, 0x07, b'e', b'x',
        b'a', b'm', b'p', b'l', b'e', 0x03, b'c', b'o', b'm', 0x00, 0x00, 0x01, 0x00, 0x01,
    ];
    assert_eq!(parse_dns_query_domains(&packet), Vec::<String>::new());
}

#[test]
fn parses_dns_short_packet_returns_empty() {
    assert_eq!(parse_dns_query_domains(&[0u8; 5]), Vec::<String>::new());
}

#[test]
fn rejects_non_tls_packets() {
    assert_eq!(parse_tls_sni(&[0u8; 5]), None);
    assert_eq!(parse_tls_sni(&[22, 3, 1, 0, 5, 99]), None);
}

#[test]
fn rejects_short_tls_sni_extension() {
    assert_eq!(parse_tls_sni_extension(&[0x00]), None);
    assert_eq!(parse_tls_sni_extension(&[]), None);
}

#[test]
fn extracts_ethernet_ipv4_payload() {
    let mut packet = vec![0u8; 34];
    packet[12] = 0x08;
    packet[13] = 0x00;
    packet[14] = 0x45;
    assert!(ethernet_payload(&packet).is_some());
}

#[test]
fn rejects_short_ethernet_frame() {
    assert_eq!(ethernet_payload(&[0u8; 10]), None);
}

#[test]
fn rejects_non_ip_ethertype() {
    let mut packet = vec![0u8; 20];
    packet[12] = 0x00;
    packet[13] = 0x01;
    assert_eq!(ethernet_payload(&packet), None);
}

#[test]
fn parses_vlan_tagged_frame() {
    let mut packet = vec![0u8; 38];
    packet[12] = 0x81;
    packet[13] = 0x00;
    packet[16] = 0x08;
    packet[17] = 0x00;
    packet[18] = 0x45;
    assert!(ethernet_payload(&packet).is_some());
}

#[test]
fn rejects_short_ipv4_packet() {
    assert_eq!(
        parse_ipv4_for_web_events(&[0u8; 10]),
        Vec::<WebEvent>::new()
    );
}

#[test]
fn rejects_short_ipv6_packet() {
    assert_eq!(
        parse_ipv6_for_web_events(&[0u8; 20]),
        Vec::<WebEvent>::new()
    );
}

#[test]
fn rejects_unknown_ip_version() {
    let mut packet = vec![0u8; 40];
    packet[0] = 0x90;
    assert_eq!(
        parse_ip_payload_for_web_events(&packet),
        Vec::<WebEvent>::new()
    );
}

#[test]
fn rejects_empty_ip_payload() {
    assert_eq!(parse_ip_payload_for_web_events(&[]), Vec::<WebEvent>::new());
}

#[test]
fn rejects_short_tcp_packet() {
    assert_eq!(parse_tcp_for_web_events(&[0u8; 10]), Vec::<WebEvent>::new());
}

#[test]
fn rejects_short_udp_packet() {
    assert_eq!(parse_udp_for_web_events(&[0u8; 4]), Vec::<WebEvent>::new());
}

#[test]
fn parses_dns_name_with_pointer() {
    let mut packet = vec![0u8; 64];
    packet[0] = 3;
    packet[1] = b'w';
    packet[2] = b'w';
    packet[3] = b'w';
    packet[4] = 0;
    let (name, _) = parse_dns_name(&packet, 0).unwrap();
    assert_eq!(name, "www");
}

#[test]
fn rejects_dns_name_beyond_packet() {
    assert_eq!(parse_dns_name(&[0x05], 0), None);
}
