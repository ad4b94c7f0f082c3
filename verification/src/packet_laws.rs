//! What holds of the events of frames as a whole.
use vstd::prelude::*;

use crate::bytes::{be16, lossy_text, written16, written16_is_read};
use crate::dns::query_domains;
use crate::dns_laws::{
    asked_domains, askable, query_domains_are_plain, written_query_is_read, written_questions,
    Question,
};
use crate::packet::{
    dns_events, event_views, frame_events, ip_events, ipv4_events, ipv6_events, payload_start,
    tcp_events, transport_events, WebEvent,
};
use crate::text::ascii_lower;
use crate::tls::hello_host;
use crate::tls_laws::{
    hello_host_is_lower, other_extension, parts_fit, parts_packet, read_hello_was_written,
    read_host_was_written, writable_hello, written_body, written_extensions, written_hello,
    written_hello_is_read, written_host_is_read, written_names, Extension, Hello, HelloParts,
    ServerName,
};

verus! {

/// The DNS events of a list of domains.
pub open spec fn dns_events_of(domains: Seq<Seq<char>>) -> Seq<(Seq<char>, Seq<char>)> {
    domains.map_values(|domain: Seq<char>| ("dns"@, domain))
}

/// Whether a segment or datagram has `port` as its source, which is its first two bytes, or as its
/// destination, which is the next two.
pub open spec fn on_port(packet: Seq<u8>, port: int) -> bool {
    packet[0] * 256 + packet[1] == port || packet[2] * 256 + packet[3] == port
}

/// The events of queries in a TCP payload: two bytes give the length of the message behind them.
pub open spec fn tcp_query_events(payload: Seq<u8>) -> Seq<(Seq<char>, Seq<char>)> {
    if payload.len() >= 2 && payload.len() >= 2 + (payload[0] * 256 + payload[1]) {
        dns_events_of(query_domains(payload.subrange(2, 2 + (payload[0] * 256 + payload[1]))))
    } else {
        seq![]
    }
}

/// The event of the host that a payload names, if it names one.
pub open spec fn host_events(payload: Seq<u8>) -> Seq<(Seq<char>, Seq<char>)> {
    match hello_host(payload) {
        Some(host) => seq![("tls-sni"@, host)],
        None => seq![],
    }
}

/// A UDP datagram on port 53 has the domains that its message asks for as its events, and one on
/// other ports has none.
pub proof fn udp_datagram_is_read(udp: Seq<u8>, message: Seq<u8>)
    requires
        udp.len() == 8,
    ensures
        transport_events(17, udp + message) == (if on_port(udp, 53) {
            dns_events_of(query_domains(message))
        } else {
            seq![]
        }),
{
    let packet = udp + message;
    assert(packet[0] == udp[0] && packet[1] == udp[1] && packet[2] == udp[2] && packet[3]
        == udp[3]);
    assert(packet.skip(8) =~= message);
}

/// A TCP segment on port 53 has the domains of the query in its payload as its events, one on port
/// 443 has the host that its payload names, and one on both has both in that order. One on other
/// ports has none.
pub proof fn tcp_segment_is_read(tcp: Seq<u8>, payload: Seq<u8>)
    requires
        tcp.len() >= 20,
        tcp.len() == (tcp[12] / 16) * 4,
    ensures
        transport_events(6, tcp + payload) == (if on_port(tcp, 53) {
            tcp_query_events(payload)
        } else {
            seq![]
        }) + (if on_port(tcp, 443) {
            host_events(payload)
        } else {
            seq![]
        }),
{
    let packet = tcp + payload;
    assert(packet[0] == tcp[0] && packet[1] == tcp[1] && packet[2] == tcp[2] && packet[3]
        == tcp[3] && packet[12] == tcp[12]);
    assert(packet.skip(tcp.len() as int) =~= payload);
}

/// What is neither TCP nor UDP, or has no whole header, has no events. A TCP header gives its own
/// length, which is at least twenty bytes.
pub proof fn broken_transport_is_silent(protocol: u8, packet: Seq<u8>)
    requires
        ({
            ||| protocol != 6 && protocol != 17
            ||| protocol == 17 && packet.len() < 8
            ||| protocol == 6 && packet.len() < 20
            ||| protocol == 6 && (packet[12] / 16) * 4 < 20
            ||| protocol == 6 && (packet[12] / 16) * 4 > packet.len()
        }),
    ensures
        transport_events(protocol, packet).len() == 0,
{
}

/// A TCP segment on port 443 and not on port 53 whose payload names no host has no events. So it is
/// with a payload that does not begin with 22, as those behind the handshake.
pub proof fn segment_without_a_host_is_silent(tcp: Seq<u8>, payload: Seq<u8>)
    requires
        tcp.len() >= 20,
        tcp.len() == (tcp[12] / 16) * 4,
        !on_port(tcp, 53),
        hello_host(payload) is None || payload.len() == 0 || payload[0] != 22,
    ensures
        transport_events(6, tcp + payload).len() == 0,
{
    tcp_segment_is_read(tcp, payload);
    if hello_host(payload) is Some {
        let parts = read_hello_was_written(payload);
        assert(payload[0] == 22);
    }
}

/// Each TLS event of a TCP segment names a host that stands in its payload: the payload is a record
/// of type 22 with a message of type 1, and the domain is a name of type 0 in its server name
/// extension, in ASCII lower case.
pub proof fn tls_event_was_written(tcp: Seq<u8>, payload: Seq<u8>, i: int) -> (found: (
    HelloParts,
    (Seq<ServerName>, Seq<u8>, Seq<u8>, Seq<u8>),
))
    requires
        tcp.len() >= 20,
        tcp.len() == (tcp[12] / 16) * 4,
        0 <= i < transport_events(6, tcp + payload).len(),
        transport_events(6, tcp + payload)[i].0 == "tls-sni"@,
    ensures
        ({
            let (parts, (before, name, after, rest)) = found;
            let host = seq![0u8] + (written16(name.len()) + name);
            let list = written_names(before) + host + after;
            &&& on_port(tcp, 443)
            &&& i == transport_events(6, tcp + payload).len() - 1
            &&& parts_fit(parts)
            &&& payload == parts_packet(parts)
            &&& parts.server_name == written16(list.len()) + list + rest
            &&& transport_events(6, tcp + payload)[i].1 == ascii_lower(lossy_text(name))
        }),
{
    reveal_strlit("dns");
    reveal_strlit("tls-sni");
    assert("dns"@.len() == 3 && "tls-sni"@.len() == 7);
    tcp_segment_is_read(tcp, payload);
    let queries = if on_port(tcp, 53) {
        tcp_query_events(payload)
    } else {
        seq![]
    };
    let events = transport_events(6, tcp + payload);
    if i < queries.len() {
        assert(events[i] == queries[i]);
        assert(events[i].0 == "dns"@);
    }
    assert(hello_host(payload) is Some);
    let parts = read_hello_was_written(payload);
    let written = read_host_was_written(parts.server_name);
    (parts, written)
}

/// A VLAN tag between the addresses and the type of a frame does not change its events, unless the
/// frame has a tag already.
pub proof fn vlan_tag_changes_nothing(frame: Seq<u8>, tag: Seq<u8>)
    requires
        frame.len() >= 14,
        !(frame[12] == 0x81 && frame[13] == 0x00),
        tag.len() == 2,
    ensures
        frame_events(frame.take(12) + seq![0x81u8, 0x00u8] + tag + frame.skip(12)) == frame_events(
            frame,
        ),
{
    let tagged = frame.take(12) + seq![0x81u8, 0x00u8] + tag + frame.skip(12);
    assert(tagged[12] == 0x81 && tagged[13] == 0x00);
    assert(tagged[16] == frame[12] && tagged[17] == frame[13]);
    assert(tagged.skip(18) =~= frame.skip(14));
}

/// Whether an Ethernet header says that IP follows: IPv4 or IPv6. Which of them it is, the packet
/// says itself.
pub open spec fn announces_ip(ethernet: Seq<u8>) -> bool {
    ethernet[12] == 0x08 && ethernet[13] == 0x00 || ethernet[12] == 0x86 && ethernet[13] == 0xdd
}

/// A frame that carries an IPv4 packet has the events of what that packet carries.
pub proof fn ipv4_frame_is_read(ethernet: Seq<u8>, header: Seq<u8>, payload: Seq<u8>)
    requires
        ethernet.len() == 14,
        announces_ip(ethernet),
        header.len() >= 20,
        header[0] / 16 == 4,
        header.len() == (header[0] % 16) * 4,
    ensures
        frame_events(ethernet + header + payload) == transport_events(header[9], payload),
{
    let frame = ethernet + header + payload;
    let packet = frame.skip(14);
    assert(frame[12] == ethernet[12] && frame[13] == ethernet[13]);
    assert(packet =~= header + payload);
    assert(packet[0] == header[0] && packet[9] == header[9]);
    assert(packet.skip(header.len() as int) =~= payload);
}

/// A frame that carries an IPv6 packet has the events of what follows its header.
pub proof fn ipv6_frame_is_read(ethernet: Seq<u8>, header: Seq<u8>, payload: Seq<u8>)
    requires
        ethernet.len() == 14,
        announces_ip(ethernet),
        header.len() == 40,
        header[0] / 16 == 6,
    ensures
        frame_events(ethernet + header + payload) == transport_events(header[6], payload),
{
    let frame = ethernet + header + payload;
    let packet = frame.skip(14);
    assert(frame[12] == ethernet[12] && frame[13] == ethernet[13]);
    assert(packet =~= header + payload);
    assert(packet[0] == header[0] && packet[6] == header[6]);
    assert(packet.skip(40) =~= payload);
}

/// A query in a UDP datagram on port 53 is seen: its events are the domains that it asks for.
pub proof fn udp_query_is_seen(
    udp: Seq<u8>,
    header: Seq<u8>,
    questions: Seq<Question>,
    rest: Seq<u8>,
)
    requires
        udp.len() == 8,
        on_port(udp, 53),
        header.len() == 12,
        header[2] < 128,
        be16(header[4], header[5]) == questions.len(),
        forall|i: int| 0 <= i < questions.len() ==> askable(#[trigger] questions[i]),
    ensures
        transport_events(17, udp + (header + written_questions(questions) + rest))
            == dns_events_of(asked_domains(questions)),
{
    let message = header + written_questions(questions) + rest;
    let packet = udp + message;
    written_query_is_read(header, questions, rest);
    assert(packet[0] == udp[0] && packet[1] == udp[1] && packet[2] == udp[2] && packet[3]
        == udp[3]);
    assert(packet.skip(8) =~= message);
}

/// A query in a TCP segment on port 53, behind its length, is seen: its events are the domains that
/// it asks for. What follows it in the segment does not matter. If the other port is 443, what a
/// ClientHello there would name comes behind.
pub proof fn tcp_query_is_seen(
    tcp: Seq<u8>,
    header: Seq<u8>,
    questions: Seq<Question>,
    rest: Seq<u8>,
)
    requires
        tcp.len() >= 20,
        tcp.len() == (tcp[12] / 16) * 4,
        on_port(tcp, 53),
        header.len() == 12,
        header[2] < 128,
        be16(header[4], header[5]) == questions.len(),
        12 + written_questions(questions).len() < 65536,
        forall|i: int| 0 <= i < questions.len() ==> askable(#[trigger] questions[i]),
    ensures
        ({
            let message = header + written_questions(questions);
            let payload = written16(message.len()) + message + rest;
            transport_events(6, tcp + payload) == dns_events_of(asked_domains(questions))
                + if on_port(tcp, 443) {
                host_events(payload)
            } else {
                seq![]
            }
        }),
{
    let message = header + written_questions(questions);
    let length = written16(message.len());
    let payload = length + message + rest;
    let packet = tcp + payload;
    let nothing = Seq::<u8>::empty();
    written_query_is_read(header, questions, nothing);
    assert(message + nothing =~= message);
    written16_is_read(message.len());
    assert(packet[0] == tcp[0] && packet[1] == tcp[1] && packet[2] == tcp[2] && packet[3]
        == tcp[3] && packet[12] == tcp[12]);
    assert(packet.skip(tcp.len() as int) =~= payload);
    assert(payload[0] == length[0] && payload[1] == length[1]);
    assert(payload.subrange(2, 2int + message.len()) =~= message);
}

/// A ClientHello with a server name in a TCP segment on port 443 is seen: its event is that host. If
/// the other port is 53, what a query there would ask for comes before.
pub proof fn tcp_hello_is_seen(tcp: Seq<u8>, payload: Seq<u8>)
    requires
        tcp.len() >= 20,
        tcp.len() == (tcp[12] / 16) * 4,
        on_port(tcp, 443),
        hello_host(payload) is Some,
    ensures
        transport_events(6, tcp + payload) == (if on_port(tcp, 53) {
            tcp_query_events(payload)
        } else {
            seq![]
        }) + seq![("tls-sni"@, hello_host(payload)->0)],
{
    let packet = tcp + payload;
    assert(packet[0] == tcp[0] && packet[1] == tcp[1] && packet[2] == tcp[2] && packet[3]
        == tcp[3] && packet[12] == tcp[12]);
    assert(packet.skip(tcp.len() as int) =~= payload);
}

/// Whether an Ethernet header and an IP header stand before something for a transport protocol. An
/// IPv4 header gives its own length, and an IPv6 header has no extensions.
pub open spec fn carries(ethernet: Seq<u8>, header: Seq<u8>, protocol: u8) -> bool {
    &&& ethernet.len() == 14
    &&& announces_ip(ethernet)
    &&& {
        ||| {
            &&& header.len() >= 20
            &&& header[0] / 16 == 4
            &&& header.len() == (header[0] % 16) * 4
            &&& header[9] == protocol
        }
        ||| {
            &&& header.len() == 40
            &&& header[0] / 16 == 6
            &&& header[6] == protocol
        }
    }
}

/// A captured query is reported: a frame with a UDP datagram on port 53 that holds a query has the
/// domains of that query as its events, over IPv4 and over IPv6.
pub proof fn query_frame_is_reported(
    ethernet: Seq<u8>,
    ip: Seq<u8>,
    udp: Seq<u8>,
    header: Seq<u8>,
    questions: Seq<Question>,
    rest: Seq<u8>,
)
    requires
        carries(ethernet, ip, 17),
        udp.len() == 8,
        on_port(udp, 53),
        header.len() == 12,
        header[2] < 128,
        be16(header[4], header[5]) == questions.len(),
        forall|i: int| 0 <= i < questions.len() ==> askable(#[trigger] questions[i]),
    ensures
        frame_events(ethernet + ip + (udp + (header + written_questions(questions) + rest)))
            == dns_events_of(asked_domains(questions)),
{
    let payload = udp + (header + written_questions(questions) + rest);
    udp_query_is_seen(udp, header, questions, rest);
    if ip[0] / 16 == 4 {
        ipv4_frame_is_read(ethernet, ip, payload);
    } else {
        ipv6_frame_is_read(ethernet, ip, payload);
    }
}

/// Extensions with a server name among them: `before`, the name of one host, `after`.
pub open spec fn named_block(before: Seq<Extension>, name: Seq<u8>, after: Seq<u8>) -> Seq<u8> {
    let list = seq![0u8] + (written16(name.len()) + name);
    let server_name = written16(list.len()) + list;
    written_extensions(before) + (written16(0) + (written16(server_name.len()) + server_name))
        + after
}

/// A captured ClientHello is reported: a frame with a TCP segment on port 443 that holds a
/// ClientHello with a server name has that name, in ASCII lower case, as its event, over IPv4 and
/// over IPv6.
pub proof fn hello_frame_is_reported(
    ethernet: Seq<u8>,
    ip: Seq<u8>,
    tcp: Seq<u8>,
    version: Seq<u8>,
    hello: Hello,
    before: Seq<Extension>,
    name: Seq<u8>,
    after: Seq<u8>,
    rest: Seq<u8>,
)
    requires
        carries(ethernet, ip, 6),
        tcp.len() >= 20,
        tcp.len() == (tcp[12] / 16) * 4,
        on_port(tcp, 443),
        !on_port(tcp, 53),
        version.len() == 2,
        writable_hello(hello),
        forall|i: int| 0 <= i < before.len() ==> other_extension(#[trigger] before[i]),
        written_body(hello, named_block(before, name, after)).len() + 4 < 65536,
    ensures
        frame_events(
            ethernet + ip + (tcp + (written_hello(version, hello, named_block(before, name, after))
                + rest)),
        ) == seq![("tls-sni"@, ascii_lower(lossy_text(name)))],
{
    let list = seq![0u8] + (written16(name.len()) + name);
    let server_name = written16(list.len()) + list;
    let block = named_block(before, name, after);
    let payload = written_hello(version, hello, block) + rest;
    let nothing = Seq::<u8>::empty();
    assert(block.len() <= written_body(hello, block).len());
    assert(written_names(Seq::<ServerName>::empty()) + list + nothing =~= list);
    assert(server_name + nothing =~= server_name);
    written_host_is_read(Seq::empty(), name, nothing, nothing);
    written_hello_is_read(version, hello, before, server_name, after, rest);
    tcp_hello_is_seen(tcp, payload);
    if ip[0] / 16 == 4 {
        ipv4_frame_is_read(ethernet, ip, tcp + payload);
    } else {
        ipv6_frame_is_read(ethernet, ip, tcp + payload);
    }
}

/// Traffic on other ports than 53 and 443 has no events.
pub proof fn other_ports_are_silent(protocol: u8, payload: Seq<u8>)
    requires
        payload.len() >= 4,
        !on_port(payload, 53),
        !on_port(payload, 443),
    ensures
        transport_events(protocol, payload).len() == 0,
{
}

/// Whether an event is one that a frame can have: a DNS event with a domain that is not empty, or a
/// TLS event; either way without an ASCII capital in the domain.
pub open spec fn plain_event(event: (Seq<char>, Seq<char>)) -> bool {
    &&& event.0 == "dns"@ && event.1.len() > 0 || event.0 == "tls-sni"@
    &&& ascii_lower(event.1) == event.1
}

proof fn dns_events_are_plain(message: Seq<u8>)
    ensures
        forall|i: int|
            0 <= i < dns_events(message).len() ==> plain_event(#[trigger] dns_events(message)[i]),
{
    assert forall|i: int| 0 <= i < dns_events(message).len() implies plain_event(
        #[trigger] dns_events(message)[i],
    ) by {
        query_domains_are_plain(message, i);
        assert(dns_events(message)[i].1 == query_domains(message)[i]);
    }
}

proof fn tcp_events_are_plain(packet: Seq<u8>)
    ensures
        forall|i: int|
            0 <= i < tcp_events(packet).len() ==> plain_event(#[trigger] tcp_events(packet)[i]),
{
    let header = (packet[12] / 16) * 4;
    if packet.len() >= 20 && header >= 20 && packet.len() >= header {
        let payload = packet.skip(header);
        let message = payload.subrange(2, 2 + be16(payload[0], payload[1]));
        dns_events_are_plain(message);
        if hello_host(payload) is Some {
            hello_host_is_lower(payload);
        }
    }
}

/// Each event of a frame names its source, `dns` or `tls-sni`, and holds a domain without an ASCII
/// capital, which for DNS is not empty.
pub proof fn frame_events_are_plain(frame: Seq<u8>)
    ensures
        forall|i: int|
            0 <= i < frame_events(frame).len() ==> plain_event(#[trigger] frame_events(frame)[i]),
{
    if let Some(start) = payload_start(frame) {
        let packet = frame.skip(start);
        if packet.len() > 0 && packet[0] / 16 == 4 {
            let payload = packet.skip((packet[0] % 16) * 4);
            tcp_events_are_plain(payload);
            dns_events_are_plain(payload.skip(8));
            assert(ip_events(packet) == ipv4_events(packet));
        } else if packet.len() > 0 && packet[0] / 16 == 6 {
            let payload = packet.skip(40);
            tcp_events_are_plain(payload);
            dns_events_are_plain(payload.skip(8));
            assert(ip_events(packet) == ipv6_events(packet));
        }
    }
}

/// At most one event of a frame is a TLS event, and it comes last: each event before another is a
/// DNS event.
pub proof fn tls_event_comes_last(frame: Seq<u8>, i: int)
    requires
        0 <= i < frame_events(frame).len() - 1,
    ensures
        frame_events(frame)[i].0 == "dns"@,
{
}

/// A frame with events carries a TCP segment or a UDP datagram: behind an Ethernet header, with or
/// without one VLAN tag, stands an IPv4 header, which gives its own length, or an IPv6 header, and
/// behind that what has those events.
pub proof fn reported_frame_carries_its_events(frame: Seq<u8>) -> (found: (
    Seq<u8>,
    Seq<u8>,
    Seq<u8>,
    u8,
    Seq<u8>,
))
    requires
        frame_events(frame).len() > 0,
    ensures
        ({
            let (addresses, tag, header, protocol, payload) = found;
            let kind = frame.subrange(
                12 + tag.len() as int,
                14 + tag.len() as int,
            );
            &&& addresses.len() == 12
            &&& tag.len() == 0 || tag.len() == 4 && tag[0] == 0x81 && tag[1] == 0x00
            &&& carries(addresses + kind, header, protocol)
            &&& protocol == 6 || protocol == 17
            &&& frame == addresses + tag + kind + header + payload
            &&& frame_events(frame) == transport_events(protocol, payload)
        }),
{
    let start = payload_start(frame)->0;
    let packet = frame.skip(start);
    let addresses = frame.take(12);
    let tag = frame.subrange(12, start - 2);
    let kind = frame.subrange(start - 2, start);
    let ethernet = addresses + kind;
    assert(ethernet[12] == frame[start - 2] && ethernet[13] == frame[start - 1]);
    if start == 18 {
        assert(tag[0] == frame[12] && tag[1] == frame[13]);
    }
    let size = if packet[0] / 16 == 4 {
        (packet[0] % 16) * 4
    } else {
        40int
    };
    let header = packet.take(size);
    let payload = packet.skip(size);
    let protocol = if packet[0] / 16 == 4 {
        header[9]
    } else {
        header[6]
    };
    assert(frame =~= addresses + tag + kind + header + payload);
    (addresses, tag, header, protocol, payload)
}

/// The views of events are their sources and domains, in their order.
pub proof fn event_views_are_sources_and_domains(events: Seq<WebEvent>, i: int)
    requires
        0 <= i < events.len(),
    ensures
        event_views(events).len() == events.len(),
        event_views(events)[i] == (events[i].source@, events[i].domain@),
{
}

/// The payload of a frame begins behind fourteen bytes if the last two of them announce IP, behind
/// eighteen if a VLAN tag stands before those two, and nowhere else.
pub proof fn payload_begins_behind_the_type(frame: Seq<u8>)
    ensures
        payload_start(frame) == (if frame.len() >= 14 && announces_ip(frame) {
            Some(14int)
        } else if frame.len() >= 18 && frame[12] == 0x81 && frame[13] == 0x00 && announces_ip(
            frame.skip(4),
        ) {
            Some(18int)
        } else {
            None::<int>
        }),
{
}

} // verus!
