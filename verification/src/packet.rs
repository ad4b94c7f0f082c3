//! Web events in captured frames: Ethernet, IP, UDP and TCP.
use vstd::prelude::*;

use crate::bytes::{be16, read_u16};
use crate::dns::{parse_dns_query_domains, query_domains};
use crate::text::texts;
use crate::tls::{hello_host, parse_tls_sni};

verus! {

/// A domain seen on the wire, and the protocol that named it.
#[derive(Clone, Debug, PartialEq, Eq)]
pub struct WebEvent {
    pub source: &'static str,
    pub domain: String,
}

impl View for WebEvent {
    type V = (Seq<char>, Seq<char>);

    open spec fn view(&self) -> (Seq<char>, Seq<char>) {
        (self.source@, self.domain@)
    }
}

/// The sources and domains of a list of events.
pub open spec fn event_views(events: Seq<WebEvent>) -> Seq<(Seq<char>, Seq<char>)> {
    events.map_values(|event: WebEvent| event@)
}

/// Where the payload of an Ethernet frame begins, if it is IP: behind the two addresses and the
/// type, and behind a VLAN tag if there is one.
pub open spec fn payload_start(frame: Seq<u8>) -> Option<int> {
    let outer = be16(frame[12], frame[13]);
    let tagged = outer == 0x8100 && frame.len() >= 18;
    let ethertype = if tagged {
        be16(frame[16], frame[17])
    } else {
        outer
    };
    if frame.len() >= 14 && (ethertype == 0x0800 || ethertype == 0x86dd) {
        Some(if tagged {
            18
        } else {
            14
        })
    } else {
        None
    }
}

/// The DNS events of a message, one for each domain that it asks for.
pub open spec fn dns_events(message: Seq<u8>) -> Seq<(Seq<char>, Seq<char>)> {
    query_domains(message).map_values(|domain: Seq<char>| ("dns"@, domain))
}

/// The event of a TLS ClientHello with a server name.
pub open spec fn tls_events(payload: Seq<u8>) -> Seq<(Seq<char>, Seq<char>)> {
    match hello_host(payload) {
        Some(host) => seq![("tls-sni"@, host)],
        None => seq![],
    }
}

/// Whether a segment or datagram comes from or goes to `port`.
pub open spec fn uses_port(packet: Seq<u8>, port: int) -> bool {
    be16(packet[0], packet[1]) == port || be16(packet[2], packet[3]) == port
}

/// The events of a UDP datagram: those of a DNS message on port 53.
pub open spec fn udp_events(packet: Seq<u8>) -> Seq<(Seq<char>, Seq<char>)> {
    if packet.len() >= 8 && uses_port(packet, 53) {
        dns_events(packet.skip(8))
    } else {
        seq![]
    }
}

/// The events of DNS over TCP: a length, then a message of that length.
pub open spec fn framed_dns_events(payload: Seq<u8>) -> Seq<(Seq<char>, Seq<char>)> {
    if payload.len() >= 2 && payload.len() >= 2 + be16(payload[0], payload[1]) {
        dns_events(payload.subrange(2, 2 + be16(payload[0], payload[1])))
    } else {
        seq![]
    }
}

/// The events of a TCP segment: those of a DNS message on port 53, then that of a ClientHello on
/// port 443.
pub open spec fn tcp_events(packet: Seq<u8>) -> Seq<(Seq<char>, Seq<char>)> {
    let header = (packet[12] / 16) * 4;
    if packet.len() < 20 || header < 20 || packet.len() < header {
        seq![]
    } else {
        let payload = packet.skip(header);
        let dns = if uses_port(packet, 53) {
            framed_dns_events(payload)
        } else {
            seq![]
        };
        let tls = if uses_port(packet, 443) {
            tls_events(payload)
        } else {
            seq![]
        };
        dns + tls
    }
}

/// The events of what an IP packet carries: protocol 6 is TCP, 17 is UDP.
pub open spec fn transport_events(protocol: u8, payload: Seq<u8>) -> Seq<(Seq<char>, Seq<char>)> {
    if protocol == 6 {
        tcp_events(payload)
    } else if protocol == 17 {
        udp_events(payload)
    } else {
        seq![]
    }
}

/// The events of an IPv4 packet.
pub open spec fn ipv4_events(packet: Seq<u8>) -> Seq<(Seq<char>, Seq<char>)> {
    let header = (packet[0] % 16) * 4;
    if packet.len() < 20 || header < 20 || packet.len() < header {
        seq![]
    } else {
        transport_events(packet[9], packet.skip(header))
    }
}

/// The events of an IPv6 packet whose payload follows its first header.
pub open spec fn ipv6_events(packet: Seq<u8>) -> Seq<(Seq<char>, Seq<char>)> {
    if packet.len() < 40 {
        seq![]
    } else {
        transport_events(packet[6], packet.skip(40))
    }
}

/// The events of an IP packet, by the version in its first four bits.
pub open spec fn ip_events(packet: Seq<u8>) -> Seq<(Seq<char>, Seq<char>)> {
    if packet.len() == 0 {
        seq![]
    } else if packet[0] / 16 == 4 {
        ipv4_events(packet)
    } else if packet[0] / 16 == 6 {
        ipv6_events(packet)
    } else {
        seq![]
    }
}

/// The events of an Ethernet frame.
pub open spec fn frame_events(frame: Seq<u8>) -> Seq<(Seq<char>, Seq<char>)> {
    match payload_start(frame) {
        Some(start) => ip_events(frame.skip(start)),
        None => seq![],
    }
}

/// Reads the events of an Ethernet frame.
pub fn parse_packet_for_web_events(packet: &[u8]) -> (events: Vec<WebEvent>)
    ensures
        event_views(events@) == frame_events(packet@),
{
    match ethernet_payload(packet) {
        Some(ip_packet) => parse_ip_payload_for_web_events(ip_packet),
        None => no_events(),
    }
}

/// No event.
fn no_events() -> (events: Vec<WebEvent>)
    ensures
        event_views(events@) == Seq::<(Seq<char>, Seq<char>)>::empty(),
{
    let events: Vec<WebEvent> = Vec::new();
    assert(event_views(events@) =~= Seq::<(Seq<char>, Seq<char>)>::empty());
    events
}

/// What an Ethernet frame carries, if it is IP.
pub fn ethernet_payload(packet: &[u8]) -> (payload: Option<&[u8]>)
    ensures
        match payload {
            Some(bytes) => payload_start(packet@) is Some && bytes@ == packet@.skip(
                payload_start(packet@)->0,
            ),
            None => payload_start(packet@) is None,
        },
{
    if packet.len() < 14 {
        return None;
    }
    let outer: u16 = read_u16(packet, 12);
    let mut offset: usize = 14;
    let ethertype: u16 = if outer == 0x8100 && packet.len() >= 18 {
        offset = 18;
        read_u16(packet, 16)
    } else {
        outer
    };
    if ethertype == 0x0800 || ethertype == 0x86dd {
        assert(packet@.skip(offset as int) =~= packet@.subrange(
            offset as int,
            packet@.len() as int,
        ));
        Some(&packet[offset..packet.len()])
    } else {
        None
    }
}

/// Reads the events of an IP packet.
pub fn parse_ip_payload_for_web_events(packet: &[u8]) -> (events: Vec<WebEvent>)
    ensures
        event_views(events@) == ip_events(packet@),
{
    if packet.len() == 0 {
        return no_events();
    }
    match packet[0] / 16 {
        4 => parse_ipv4_for_web_events(packet),
        6 => parse_ipv6_for_web_events(packet),
        _ => no_events(),
    }
}

/// Reads the events of an IPv4 packet.
pub fn parse_ipv4_for_web_events(packet: &[u8]) -> (events: Vec<WebEvent>)
    ensures
        event_views(events@) == ipv4_events(packet@),
{
    if packet.len() < 20 {
        return no_events();
    }
    let header_len: usize = (packet[0] % 16) as usize * 4;
    if header_len < 20 || packet.len() < header_len {
        return no_events();
    }
    assert(packet@.skip(header_len as int) =~= packet@.subrange(
        header_len as int,
        packet@.len() as int,
    ));
    parse_transport_for_web_events(packet[9], &packet[header_len..packet.len()])
}

/// Reads the events of an IPv6 packet.
pub fn parse_ipv6_for_web_events(packet: &[u8]) -> (events: Vec<WebEvent>)
    ensures
        event_views(events@) == ipv6_events(packet@),
{
    if packet.len() < 40 {
        return no_events();
    }
    assert(packet@.skip(40) =~= packet@.subrange(40, packet@.len() as int));
    parse_transport_for_web_events(packet[6], &packet[40..packet.len()])
}

/// Reads the events of what an IP packet carries.
pub fn parse_transport_for_web_events(protocol: u8, payload: &[u8]) -> (events: Vec<WebEvent>)
    ensures
        event_views(events@) == transport_events(protocol, payload@),
{
    match protocol {
        6 => parse_tcp_for_web_events(payload),
        17 => parse_udp_for_web_events(payload),
        _ => no_events(),
    }
}

/// Reads the events of a DNS message.
fn parse_dns_for_web_events(message: &[u8]) -> (events: Vec<WebEvent>)
    ensures
        event_views(events@) == dns_events(message@),
{
    let domains = parse_dns_query_domains(message);
    let mut events: Vec<WebEvent> = Vec::new();
    let mut i: usize = 0;
    assert(event_views(events@) =~= dns_events(message@).take(0));
    while i < domains.len()
        invariant
            texts(domains@) == query_domains(message@),
            i <= domains@.len(),
            event_views(events@) == dns_events(message@).take(i as int),
        decreases domains@.len() - i,
    {
        let ghost before = event_views(events@);
        assert(texts(domains@)[i as int] == domains@[i as int]@);
        events.push(WebEvent { source: "dns", domain: domains[i].clone() });
        i += 1;
        assert(event_views(events@) =~= before.push(dns_events(message@)[i - 1]));
        assert(dns_events(message@).take(i as int) =~= dns_events(message@).take(i - 1).push(
            dns_events(message@)[i - 1],
        ));
    }
    assert(texts(domains@).len() == domains@.len());
    assert(dns_events(message@).take(i as int) =~= dns_events(message@));
    events
}

/// Reads the events of a UDP datagram.
pub fn parse_udp_for_web_events(packet: &[u8]) -> (events: Vec<WebEvent>)
    ensures
        event_views(events@) == udp_events(packet@),
{
    if packet.len() < 8 {
        return no_events();
    }
    let source_port: u16 = read_u16(packet, 0);
    let destination_port: u16 = read_u16(packet, 2);
    if source_port != 53 && destination_port != 53 {
        return no_events();
    }
    assert(packet@.skip(8) =~= packet@.subrange(8, packet@.len() as int));
    parse_dns_for_web_events(&packet[8..packet.len()])
}

/// Reads the events of a TCP segment.
pub fn parse_tcp_for_web_events(packet: &[u8]) -> (events: Vec<WebEvent>)
    ensures
        event_views(events@) == tcp_events(packet@),
{
    if packet.len() < 20 {
        return no_events();
    }
    let source_port: u16 = read_u16(packet, 0);
    let destination_port: u16 = read_u16(packet, 2);
    let header_len: usize = (packet[12] / 16) as usize * 4;
    if header_len < 20 || packet.len() < header_len {
        return no_events();
    }
    assert(packet@.skip(header_len as int) =~= packet@.subrange(
        header_len as int,
        packet@.len() as int,
    ));
    let payload = &packet[header_len..packet.len()];
    let mut events = no_events();
    if (source_port == 53 || destination_port == 53) && payload.len() >= 2 {
        let dns_len: usize = read_u16(payload, 0) as usize;
        if payload.len() >= dns_len + 2 {
            events = parse_dns_for_web_events(&payload[2..2 + dns_len]);
        }
    }
    let ghost dns = event_views(events@);
    assert(dns + Seq::<(Seq<char>, Seq<char>)>::empty() =~= dns);
    if source_port == 443 || destination_port == 443 {
        if let Some(domain) = parse_tls_sni(payload) {
            let ghost host = domain@;
            events.push(WebEvent { source: "tls-sni", domain });
            assert(event_views(events@) =~= dns + seq![("tls-sni"@, host)]);
        }
    }
    events
}

} // verus!
