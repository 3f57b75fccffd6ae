use bytes::Bytes;
use minnow_rs::host_cli::{
    event_output, fmt_ip, line_event, parse_args, parse_ipv4, parse_mac, parse_port, require_arg,
    AppEvent, CliError, HostOptions, HostProgram, ParsedArgs, Printed,
};
use minnow_rs::ip_host::IpHostEvent;
use minnow_rs::tcp_segment::{TcpHeader, TcpSegment};
use minnow_rs::text::NumberError;
use minnow_rs::wrapping_integers::Wrap32;

fn strings(args: &[&str]) -> Vec<String> {
    args.iter().map(|arg| arg.to_string()).collect()
}

fn run(program: HostProgram, args: &[&str]) -> HostOptions {
    match parse_args(program, &strings(args)) {
        Ok(ParsedArgs::Run(options)) => options,
        other => panic!("{other:?}"),
    }
}

fn refused(program: HostProgram, args: &[&str]) -> CliError {
    parse_args(program, &strings(args)).unwrap_err()
}

#[test]
fn addresses_are_read_as_they_are_written() {
    for ip in [[0, 0, 0, 0], [169, 254, 144, 2], [255, 255, 255, 255], [1, 10, 100, 9]] {
        assert_eq!(parse_ipv4(&fmt_ip(ip)), Ok(ip));
    }
    assert_eq!(fmt_ip([192, 168, 0, 1]), "192.168.0.1");
}

#[test]
fn other_texts_are_no_addresses() {
    for text in [
        "", "1", "1.2.3", "1.2.3.", ".1.2.3", "1.2.3.4.5", "1.2.3.256", "01.2.3.4", "1.2.3.04",
        "+1.2.3.4", "1.2.3.4 ", " 1.2.3.4", "1..2.3", "a.b.c.d", "1.2.3.1000", "1,2,3,4",
    ] {
        assert_eq!(parse_ipv4(text), Err(CliError::InvalidIpv4), "{text}");
    }
}

#[test]
fn ports_are_numbers_of_16_bits_but_not_zero() {
    assert_eq!(parse_port("80"), Ok(80));
    assert_eq!(parse_port("65535"), Ok(65535));
    assert_eq!(parse_port("+8"), Ok(8));
    assert_eq!(parse_port("00022"), Ok(22));
    assert_eq!(parse_port("0"), Err(CliError::ZeroPort));
    assert_eq!(parse_port("65536"), Err(CliError::InvalidNumber(NumberError::PosOverflow)));
    assert_eq!(parse_port(""), Err(CliError::InvalidNumber(NumberError::Empty)));

    for text in ["+", "-", "-1", "8o", "o8", "9999999x", "99x", "++1", "1 ", "٣"] {
        let expected = text.parse::<u16>().unwrap_err().to_string();

        assert_eq!(parse_port(text).unwrap_err().message(), expected, "{text}");
    }
}

#[test]
fn ethernet_addresses_are_six_bytes_in_hexadecimal() {
    assert_eq!(parse_mac("02:aB:00:fF:10:9c").unwrap().octets(), [2, 0xab, 0, 0xff, 0x10, 0x9c]);
    assert_eq!(parse_mac("+1:00:00:00:00:00").unwrap().octets(), [1, 0, 0, 0, 0, 0]);
    assert_eq!(parse_mac("02:00:00:00:00"), Err(CliError::MacShape));
    assert_eq!(parse_mac("02:00:00:00:00:00:00"), Err(CliError::MacShape));
    assert_eq!(parse_mac(""), Err(CliError::MacShape));
    assert_eq!(parse_mac("2:00:00:00:00:00"), Err(CliError::MacOctetLength));
    assert_eq!(parse_mac("002:00:00:00:00:00"), Err(CliError::MacOctetLength));
    assert_eq!(parse_mac(":::::"), Err(CliError::MacOctetLength));

    let invalid = CliError::InvalidNumber(NumberError::InvalidDigit);

    assert_eq!(parse_mac("0g:00:00:00:00:00"), Err(invalid));
    assert_eq!(
        parse_mac("02:ä:0:00:00:00"),
        Err(CliError::InvalidNumber(NumberError::InvalidDigit))
    );
    assert_eq!(parse_mac("02:€:0:00:00:00"), Err(CliError::MacOctetLength));
}

#[test]
fn ethernet_addresses_are_read_as_they_are_written() {
    for octets in [[0; 6], [0xff; 6], [0x02, 0x9a, 0xa0, 0x0f, 0xf0, 0x7e]] {
        let address = minnow_rs::ethernet_frame::EthernetAddress::new(octets);

        assert_eq!(parse_mac(&address.to_string()), Ok(address));
    }
}

#[test]
fn options_without_arguments_are_the_defaults() {
    let options = run(HostProgram::TunHost, &["tun_host"]);

    assert_eq!(options.device_name, "tun144");
    assert_eq!(options.local_ip, [169, 254, 144, 2]);
    assert_eq!(options.peer_ip, [169, 254, 144, 1]);
    assert_eq!(options.local_port, 50_000);
    assert_eq!(options.peer_port, 9_090);
    assert_eq!(options.isn, Wrap32::new(1_000_000));
    assert_eq!(options.pcap_path, None);

    let options = run(HostProgram::TapHost, &[]);

    assert_eq!(options.device_name, "tap144");
    assert_eq!(options.local_mac.to_string(), "02:00:00:00:00:02");
}

#[test]
fn arguments_set_the_options() {
    let options = run(
        HostProgram::TapHost,
        &[
            "tap_host", "--tap", "tap7", "--local-mac", "0a:0b:0c:0d:0e:0f", "--local-ip", "10.0.0.1",
            "--peer-ip", "10.0.0.2", "--local-port", "1", "--peer-port", "2", "--isn", "4294967295",
            "--pcap", "out.pcap", "--local-port", "3",
        ],
    );

    assert_eq!(options.device_name, "tap7");
    assert_eq!(options.local_mac.octets(), [10, 11, 12, 13, 14, 15]);
    assert_eq!(options.local_ip, [10, 0, 0, 1]);
    assert_eq!(options.peer_ip, [10, 0, 0, 2]);
    assert_eq!(options.local_port, 3);
    assert_eq!(options.peer_port, 2);
    assert_eq!(options.isn, Wrap32::new(u32::MAX));
    assert_eq!(options.pcap_path, Some("out.pcap".to_string()));
}

#[test]
fn help_is_given_where_it_is_asked_for() {
    let help = parse_args(HostProgram::TcpIpv4, &strings(&["p", "--isn", "1", "-h", "--what"]));

    assert!(matches!(help, Ok(ParsedArgs::Help)));
    assert!(matches!(
        parse_args(HostProgram::TapHost, &strings(&["p", "--help"])),
        Ok(ParsedArgs::Help)
    ));
}

#[test]
fn bad_arguments_are_refused() {
    let cases: [(HostProgram, &[&str], &str); 10] = [
        (HostProgram::TcpIpv4, &["p", "--pcap", "x"], "unknown argument: --pcap"),
        (HostProgram::TunHost, &["p", "--tap", "x"], "unknown argument: --tap"),
        (HostProgram::TunHost, &["p", "--local-mac", "x"], "unknown argument: --local-mac"),
        (HostProgram::TapHost, &["p", "--tap"], "missing value for --tap"),
        (HostProgram::TapHost, &["p", "--local-mac", "x"], "MAC address must have six colon-separated octets"),
        (HostProgram::TapHost, &["p", "--peer-ip", "x"], "invalid IPv4 address syntax"),
        (HostProgram::TcpIpv4, &["p", "--isn", "4294967296"], "number too large to fit in target type"),
        (HostProgram::TcpIpv4, &["p", "--peer-port", "0"], "TCP port cannot be zero"),
        (HostProgram::TcpIpv4, &["p", "--peer-ip", "169.254.144.2"], "local IP and peer IP must be different"),
        (HostProgram::TcpIpv4, &["p", "--peer-port", "50000"], "local port and peer port should be different"),
    ];

    for (program, args, message) in cases {
        assert_eq!(refused(program, args).message(), message);
    }
    assert_eq!(
        refused(HostProgram::TapHost, &["p", "--local-mac", "0:0:0:0:0:0"]).message(),
        "MAC address octets must be two hex digits"
    );
    assert_eq!(
        refused(HostProgram::TapHost, &["p", "--local-port", ""]).message(),
        "cannot parse integer from empty string"
    );
}

#[test]
fn required_argument_is_there_or_missed() {
    let args = strings(&["p", "--tun", "x"]);

    assert_eq!(require_arg(&args, 2, "--tun"), Ok("x"));
    assert_eq!(
        require_arg(&args, 3, "--tun"),
        Err(CliError::MissingValue("--tun".to_string()))
    );
}

#[test]
fn line_is_sent_with_its_end() {
    match line_event("héllo") {
        AppEvent::Data(data) => assert_eq!(data, "héllo\n".as_bytes()),
        AppEvent::Close => panic!("a line is no end"),
    }
}

#[test]
fn events_are_told_in_lines() {
    let segment = TcpSegment::new(
        TcpHeader {
            src_port: 50_000,
            dst_port: 9_090,
            seqno: Wrap32::new(1_000),
            ackno: Some(Wrap32::new(77)),
            window_size: 65_535,
            syn: true,
            fin: false,
            rst: false,
        },
        Bytes::from_static(b"abc"),
    );
    let mut silent = segment.clone();
    silent.header.ackno = None;

    let cases = [
        (
            IpHostEvent::IncomingTcp(segment),
            "<< TCP 50000 -> 9090 seq=1000 ack=Some(77) SYN=true FIN=false RST=false win=65535 payload=3",
        ),
        (
            IpHostEvent::OutgoingTcp(silent),
            ">> TCP 50000 -> 9090 seq=1000 ack=None SYN=true FIN=false RST=false win=65535 payload=3",
        ),
        (
            IpHostEvent::IcmpEchoRequest {
                src_ip: [1, 2, 3, 4],
                dst_ip: [5, 6, 7, 8],
                identifier: 9,
                sequence_number: 10,
                payload_len: 56,
            },
            "<< ICMP echo request 1.2.3.4 -> 5.6.7.8 id=9 seq=10 payload=56",
        ),
        (
            IpHostEvent::IcmpEchoReply {
                src_ip: [5, 6, 7, 8],
                dst_ip: [1, 2, 3, 4],
                identifier: 9,
                sequence_number: 10,
                payload_len: 56,
            },
            ">> ICMP echo reply 5.6.7.8 -> 1.2.3.4 id=9 seq=10 payload=56",
        ),
        (
            IpHostEvent::IgnoredMalformedIpv4("NotIpv4".to_string()),
            "ignored malformed IPv4 packet: NotIpv4",
        ),
        (
            IpHostEvent::IgnoredMalformedTcp("SegmentTooShort".to_string()),
            "ignored malformed TCP segment: SegmentTooShort",
        ),
        (
            IpHostEvent::IgnoredMalformedIcmp("InvalidChecksum".to_string()),
            "ignored malformed ICMP message: InvalidChecksum",
        ),
    ];

    for (event, line) in cases {
        assert_eq!(event_output(&event), Printed::Line(line.to_string()));
        assert_eq!(event.clone(), event);
    }
    assert_eq!(
        event_output(&IpHostEvent::TcpPayload(Bytes::from_static(b"ok \xff\n"))),
        Printed::PeerText("ok \u{fffd}\n".to_string())
    );
    assert_eq!(
        event_output(&IpHostEvent::TcpPayload(Bytes::from_static("gr\u{fc}n\n".as_bytes()))),
        Printed::PeerText("gr\u{fc}n\n".to_string())
    );
}
