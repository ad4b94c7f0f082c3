use netor::capture::{capture_web_events, no_capture_text, received, Action, Event};
use netor::devices::{
    is_common, is_skipped, no_default_text, select_default_device, select_pcap_device, DeviceInfo,
};
use netor::monitor::{nothing_to_monitor_text, run, step, Command, Done, Monitor};
use netor::packet::WebEvent;
use netor::socket::{bind_packet_socket, open_packet_socket, Reply};

fn device(name: &str, desc: Option<&str>, has_addresses: bool) -> DeviceInfo {
    DeviceInfo {
        name: name.to_owned(),
        desc: desc.map(|text| text.to_owned()),
        has_addresses,
    }
}

#[test]
fn selects_the_named_device() {
    let devices = vec![
        device("NPF_1", Some("Loopback adapter"), true),
        device("NPF_2", None, true),
        device("NPF_3", Some("INTEL Wireless \u{c9}"), false),
    ];
    assert_eq!(select_pcap_device(&devices, Some("npf")), Ok(Some(0)));
    assert_eq!(select_pcap_device(&devices, Some("NPF_2")), Ok(Some(1)));
    assert_eq!(select_pcap_device(&devices, Some("wireless \u{e9}")), Ok(Some(2)));
    assert_eq!(
        select_pcap_device(&devices, Some("eth")),
        Err("no network interface matching 'eth'".to_owned())
    );
    assert_eq!(select_pcap_device(&devices, None), Ok(Some(2)));
}

#[test]
fn selects_a_default_device() {
    let devices = vec![
        device("a", Some("Bluetooth Ethernet"), true),
        device("b", Some("Something else"), false),
        device("c", None, true),
    ];
    assert_eq!(select_default_device(&devices), Some(2));
    assert_eq!(
        select_default_device(&vec![device("a", Some("WAN Miniport"), true)]),
        None
    );
    assert_eq!(
        select_pcap_device(&vec![device("b", Some("Other"), false)], None),
        Ok(None)
    );
    assert_eq!(select_pcap_device(&Vec::new(), None), Ok(None));
    assert_eq!(no_default_text(), "no default network interface found");
}

#[test]
fn judges_descriptions() {
    for text in ["wan miniport", "loopback", "tunnel", "teredo", "isatap", "bluetooth"] {
        assert!(is_skipped(&format!("x {text} y")));
        assert!(!is_common(text));
    }
    for text in ["ethernet", "wi-fi", "wireless", "realtek", "intel", "qualcomm"] {
        assert!(is_common(&format!("x {text} y")));
        assert!(!is_skipped(text));
    }
    assert!(!is_common("Ethernet".get(1..).unwrap()));
}

#[test]
fn opens_a_socket_on_all_interfaces() {
    use_socket(None, &[Reply::Socket(3), Reply::TimeoutSet(0)], "Ready");
    use_socket(None, &[Reply::Socket(-1)], "Fail");
    use_socket(None, &[Reply::Socket(3), Reply::TimeoutSet(-1)], "CloseAndFail");
}

#[test]
fn opens_a_socket_on_one_interface() {
    let opened = [Reply::Socket(3), Reply::TimeoutSet(0)];
    use_socket(Some("eth0"), &opened, "FindInterface");
    use_socket(Some("eth\u{0}0"), &opened, "RefuseName");
    use_socket(Some("eth0"), &[Reply::Interface(0)], "CloseAndFail");
    use_socket(Some("eth0"), &[Reply::Interface(2)], "Bind { index: 2 }");
    use_socket(Some("eth0"), &[Reply::Bound(-1)], "CloseAndFail");
    use_socket(Some("eth0"), &[Reply::Bound(0)], "Ready");
    assert_eq!(
        bind_packet_socket(Reply::Interface(7)),
        open_packet_socket(Some("eth0"), Reply::Interface(7))
    );
    assert_eq!(
        format!("{:?}", open_packet_socket(None, Reply::Socket(0))),
        "SetTimeout { microseconds: 200000 }"
    );
}

fn use_socket(interface: Option<&str>, replies: &[Reply], last: &str) {
    let action = open_packet_socket(interface, replies[replies.len() - 1]);
    assert_eq!(format!("{action:?}"), last);
}

fn dns_frame() -> Vec<u8> {
    let message: [u8; 29] = [
        0x12, 0x34, 0x01, 0x00, 0x00, 0x01, 0x00, 0x00, 0x00, 0x00, 0x00, 0x00, 0x07, b'E', b'x',
        b'a', b'm', b'p', b'l', b'e', 0x03, b'c', b'o', b'm', 0x00, 0x00, 0x01, 0x00, 0x01,
    ];
    let mut frame = vec![0_u8; 14];
    frame[12] = 0x08;
    let mut ip = vec![0_u8; 20];
    ip[0] = 0x45;
    ip[9] = 17;
    frame.extend_from_slice(&ip);
    frame.extend_from_slice(&[0x80, 0x00, 0x00, 53, 0, 0, 0, 0]);
    frame.extend_from_slice(&message);
    frame
}

#[test]
fn captures_until_time_is_up() {
    let mut buffer = dns_frame();
    let count = buffer.len();
    buffer.resize(200, 0xff);
    let mut events = Vec::new();
    assert_eq!(
        capture_web_events(&mut events, Event::Clock { time_left: true }),
        Action::Receive
    );
    let packet = received(&buffer, count as isize, false, false);
    assert_eq!(packet, Event::Packet(&buffer[..count]));
    assert_eq!(capture_web_events(&mut events, packet), Action::ReadClock);
    assert_eq!(
        capture_web_events(&mut events, received(&buffer, -1, true, false)),
        Action::ReadClock
    );
    assert_eq!(
        capture_web_events(&mut events, received(&buffer, -1, false, true)),
        Action::ReadClock
    );
    assert_eq!(capture_web_events(&mut events, packet), Action::ReadClock);
    assert_eq!(
        capture_web_events(&mut events, Event::Clock { time_left: false }),
        Action::Finish
    );
    let seen = WebEvent {
        source: "dns",
        domain: "example.com".to_owned(),
    };
    assert_eq!(events, vec![seen.clone(), seen]);
}

#[test]
fn ends_a_capture_once() {
    let frame = dns_frame();
    let run = [
        Event::Clock { time_left: true },
        Event::Packet(&frame),
        Event::Clock { time_left: true },
        Event::Quiet,
        Event::Clock { time_left: true },
        Event::Packet(&frame),
        Event::Clock { time_left: false },
    ];
    let mut events = Vec::new();
    let mut lengths = Vec::new();
    let mut ends = Vec::new();
    for (i, event) in run.iter().enumerate() {
        let action = capture_web_events(&mut events, *event);
        lengths.push(events.len());
        if action == Action::Finish || action == Action::GiveUp {
            ends.push(i);
        }
    }
    assert_eq!(lengths, vec![0, 1, 1, 1, 1, 2, 2]);
    assert_eq!(ends, vec![run.len() - 1]);
}

#[test]
fn gives_up_on_errors() {
    let buffer = [0_u8; 4];
    let mut events = Vec::new();
    assert_eq!(received(&buffer, 0, false, false), Event::Failed);
    assert_eq!(received(&buffer, 0, true, false), Event::Quiet);
    assert_eq!(
        capture_web_events(&mut events, Event::Failed),
        Action::GiveUp
    );
    assert!(events.is_empty());
    assert_eq!(
        no_capture_text(false),
        "packet capture is not yet supported on this platform"
    );
    assert_eq!(
        no_capture_text(true),
        "packet capture requires the 'npcap' feature and Npcap installed; rebuild with --features npcap"
    );
}

fn trace(monitor: Monitor, once: bool, mut rounds: usize) -> Vec<String> {
    let mut done = Done::SetUp { interfaces: 1 };
    let mut actions = Vec::new();
    loop {
        let action = format!("{:?}", step(monitor, once, done));
        done = match action.as_str() {
            "Announce" => Done::Announced,
            "Sleep" => Done::Slept,
            "Sample" => Done::Sampled { taken: true },
            "Print" => {
                rounds -= 1;
                Done::Printed {
                    running: rounds > 0,
                }
            }
            _ => {
                actions.push(action);
                return actions;
            }
        };
        actions.push(action);
    }
}

#[test]
fn runs_the_monitors() {
    assert_eq!(run(None), Monitor::Network);
    assert_eq!(run(Some(Command::Live)), Monitor::Live);
    assert_eq!(run(Some(Command::Web)), Monitor::Web);
    assert_eq!(
        trace(Monitor::Network, false, 2),
        vec!["Announce", "Sleep", "Sample", "Print", "Sleep", "Sample", "Print", "Stop"]
    );
    assert_eq!(
        trace(Monitor::Live, false, 2),
        vec!["Announce", "Sample", "Print", "Sleep", "Sample", "Print", "Stop"]
    );
    assert_eq!(
        trace(Monitor::Web, false, 2),
        vec!["Announce", "Sample", "Print", "Sample", "Print", "Stop"]
    );
}

#[test]
fn runs_once() {
    for monitor in [Monitor::Network, Monitor::Live, Monitor::Web] {
        let actions = trace(monitor, true, 9);
        let printed = actions.iter().filter(|action| action.as_str() == "Print").count();
        assert_eq!(printed, 1);
        assert_eq!(actions[actions.len() - 1], "Stop");
    }
}

#[test]
fn stops_where_it_cannot_go_on() {
    let nothing = Done::SetUp { interfaces: 0 };
    assert_eq!(
        format!("{:?}", step(Monitor::Network, false, nothing)),
        "NothingToMonitor"
    );
    assert_eq!(format!("{:?}", step(Monitor::Live, false, nothing)), "Announce");
    assert_eq!(
        format!("{:?}", step(Monitor::Web, false, Done::Sampled { taken: false })),
        "Fail"
    );
    assert_eq!(nothing_to_monitor_text(), "no network interfaces found");
}
