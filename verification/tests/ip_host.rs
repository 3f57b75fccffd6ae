use bytes::Bytes;
use minnow_rs::icmp::{IcmpMessage, ICMP_ECHO_REPLY};
use minnow_rs::ip_host::{IpHost, IpHostConfig};
use minnow_rs::ipv4_datagram::Ipv4Datagram;
use minnow_rs::wrapping_integers::Wrap32;
use minnow_rs::ip_host::{IpHostEvent, IpHostOutput};
use minnow_rs::tcp_segment::{TcpHeader, TcpSegment};

fn host() -> IpHost {
    IpHost::new(IpHostConfig::tcp_demo(
        [169, 254, 144, 2],
        [169, 254, 144, 1],
        50_000,
        9_090,
        Wrap32::new(1),
    ))
}

#[test]
fn replies_to_icmp_echo_request_for_local_ip() {
    let request = IcmpMessage::echo_request(7, 11, Bytes::from_static(b"hello"));
    let datagram =
        Ipv4Datagram::new_icmp([169, 254, 144, 1], [169, 254, 144, 2], request.serialize());

    let mut host = host();
    let output = host.receive_datagram(datagram);

    assert_eq!(output.datagrams.len(), 1);
    assert_eq!(output.datagrams[0].header.src.octets(), [169, 254, 144, 2]);
    assert_eq!(output.datagrams[0].header.dst.octets(), [169, 254, 144, 1]);

    let reply = IcmpMessage::parse_bytes(output.datagrams[0].payload.clone()).unwrap();

    assert_eq!(reply.icmp_type, ICMP_ECHO_REPLY);
    assert_eq!(reply.identifier, 7);
    assert_eq!(reply.sequence_number, 11);
    assert_eq!(reply.payload, Bytes::from_static(b"hello"));
}

#[test]
fn ignores_datagram_for_other_ip() {
    let request = IcmpMessage::echo_request(7, 11, Bytes::new());
    let datagram =
        Ipv4Datagram::new_icmp([169, 254, 144, 1], [10, 0, 0, 99], request.serialize());

    let mut host = host();
    let output = host.receive_datagram(datagram);

    assert!(output.datagrams.is_empty());
    assert!(output.events.is_empty());
}

fn peer_segment(
    seqno: u32,
    ackno: Option<u32>,
    flags: (bool, bool, bool),
    payload: &'static [u8],
) -> Ipv4Datagram {
    let (syn, fin, rst) = flags;
    let segment = TcpSegment::new(
        TcpHeader {
            src_port: 9_090,
            dst_port: 50_000,
            seqno: Wrap32::new(seqno),
            ackno: ackno.map(Wrap32::new),
            window_size: 4_000,
            syn,
            fin,
            rst,
        },
        Bytes::from_static(payload),
    );
    let bytes = segment.serialize_ipv4([169, 254, 144, 1], [169, 254, 144, 2]);

    Ipv4Datagram::new_tcp([169, 254, 144, 1], [169, 254, 144, 2], bytes)
}

fn established() -> IpHost {
    let mut host = host();

    host.connect();
    host.receive_datagram(peer_segment(100, Some(2), (true, false, false), b""));
    assert!(host.is_established());
    host
}

#[test]
fn host_knows_its_config() {
    let host = host();

    assert_eq!(host.local_ip(), [169, 254, 144, 2]);
    assert_eq!(host.peer_ip(), [169, 254, 144, 1]);
    assert_eq!(host.local_port(), 50_000);
    assert_eq!(host.peer_port(), 9_090);
    assert!(host.is_ready());
    assert!(!host.is_established());
    assert!(!host.is_finished());
}

#[test]
fn malformed_packets_are_told_of() {
    let mut host = host();

    let output = host.receive_ipv4_bytes(Bytes::from_static(b"short"));
    assert_eq!(
        output.events,
        vec![IpHostEvent::IgnoredMalformedIpv4("PacketTooShort".to_string())]
    );

    let output = host.receive_datagram(Ipv4Datagram::new_icmp(
        [1, 1, 1, 1],
        [169, 254, 144, 2],
        Bytes::from_static(b"0123456789"),
    ));
    assert_eq!(
        output.events,
        vec![IpHostEvent::IgnoredMalformedIcmp("InvalidChecksum".to_string())]
    );

    let output = host.receive_datagram(Ipv4Datagram::new_tcp(
        [169, 254, 144, 1],
        [169, 254, 144, 2],
        Bytes::from_static(b"0123456789"),
    ));
    assert_eq!(
        output.events,
        vec![IpHostEvent::IgnoredMalformedTcp("SegmentTooShort".to_string())]
    );
    assert!(output.datagrams.is_empty());
}

#[test]
fn segments_of_others_are_ignored() {
    let mut host = host();
    let mut datagram = peer_segment(100, None, (true, false, false), b"");

    datagram.header.src = minnow_rs::ipv4_datagram::Ipv4AddrBytes::new([1, 1, 1, 1]);
    assert_eq!(host.receive_datagram(datagram), IpHostOutput::default());

    let mut datagram = peer_segment(100, None, (true, false, false), b"");
    datagram.header.protocol = 17;
    assert_eq!(host.receive_datagram(datagram), IpHostOutput::default());
}

#[test]
fn written_data_goes_to_the_peer_and_time_sends_it_again() {
    let mut host = established();
    let (accepted, output) = host.write(Bytes::from_static(b"hello"));

    assert_eq!(accepted, 5);
    assert_eq!(output.datagrams.len(), 1);

    let segment = TcpSegment::parse_ipv4_bytes(
        [169, 254, 144, 2],
        [169, 254, 144, 1],
        output.datagrams[0].payload.clone(),
    )
    .unwrap();

    assert_eq!(segment.payload, Bytes::from_static(b"hello"));
    assert_eq!(segment.header.seqno, Wrap32::new(2));
    assert_eq!(output.events, vec![IpHostEvent::OutgoingTcp(segment.clone())]);

    assert!(host.tick(999).datagrams.is_empty());
    assert_eq!(host.tick(1).events, vec![IpHostEvent::OutgoingTcp(segment)]);
}

#[test]
fn closing_sends_fin_and_its_acknowledgement_finishes() {
    let mut host = established();
    let output = host.close();

    assert_eq!(output.events.len(), 1);
    assert!(matches!(&output.events[0], IpHostEvent::OutgoingTcp(segment) if segment.header.fin));

    host.receive_datagram(peer_segment(101, Some(3), (false, false, false), b""));
    assert!(host.is_finished());
}

#[test]
fn reset_is_not_answered() {
    let mut host = established();
    let output = host.receive_datagram(peer_segment(101, Some(2), (false, false, true), b""));

    assert!(output.datagrams.is_empty());
    assert_eq!(output.events.len(), 1);
    assert_eq!(output.clone(), output);
}

#[test]
fn outputs_are_put_one_behind_the_other() {
    let mut host = established();
    let mut output = host.write(Bytes::from_static(b"a")).1;
    let more = host.write(Bytes::from_static(b"b")).1;

    output.extend(more.clone());
    assert_eq!(output.datagrams.len(), 2);
    assert_eq!(output.events.len(), 2);
    assert_eq!(output.datagrams[1], more.datagrams[0]);
}
