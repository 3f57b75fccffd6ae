use bytes::Bytes;
use minnow_rs::ipv4_datagram::{Ipv4Datagram, Ipv4ParseError};
use minnow_rs::tcp_connection::{TcpConnection, TcpConnectionConfig};
use minnow_rs::tcp_ipv4::{handle_packet, segment_packet, HandledPacket};
use minnow_rs::tcp_segment::TcpParseError;
use minnow_rs::tcp_sender::TcpSenderConfig;
use minnow_rs::wrapping_integers::Wrap32;

const LOCAL: [u8; 4] = [10, 0, 0, 1];
const PEER: [u8; 4] = [10, 0, 0, 2];

fn connection(local_port: u16, peer_port: u16) -> TcpConnection {
    TcpConnection::new(TcpConnectionConfig::new(
        local_port,
        peer_port,
        1_000,
        1_000,
        Wrap32::new(7),
        TcpSenderConfig::default(),
    ))
}

#[test]
fn packets_carry_a_connection() {
    let mut local = connection(1, 2);
    let mut peer = connection(2, 1);
    let syn = local.connect();
    let packet = segment_packet(&syn[0], LOCAL, PEER);

    match handle_packet(&mut peer, PEER, LOCAL, &packet) {
        HandledPacket::Taken { segment, responses } => {
            assert_eq!(segment, syn[0]);
            assert_eq!(responses.len(), 1);
            assert!(responses[0].header.syn);
            assert_eq!(responses[0].header.ackno, Some(Wrap32::new(8)));
        }
        other => panic!("{other:?}"),
    }
}

#[test]
fn packets_of_others_are_ignored() {
    let mut local = connection(1, 2);
    let mut peer = connection(2, 1);
    let mut wrong_port = connection(3, 1);
    let syn = local.connect();

    for (src, dst) in [(LOCAL, LOCAL), (PEER, PEER), (PEER, LOCAL)] {
        let packet = segment_packet(&syn[0], src, dst);

        assert!(matches!(
            handle_packet(&mut peer, PEER, LOCAL, &packet),
            HandledPacket::Ignored
        ));
    }

    let packet = segment_packet(&syn[0], LOCAL, PEER);

    assert!(matches!(
        handle_packet(&mut wrong_port, PEER, LOCAL, &packet),
        HandledPacket::Ignored
    ));

    let ping = Ipv4Datagram::new_icmp(LOCAL, PEER, Bytes::from_static(b"x")).serialize();

    assert!(matches!(
        handle_packet(&mut peer, PEER, LOCAL, &ping),
        HandledPacket::Ignored
    ));
}

#[test]
fn malformed_packets_are_reported() {
    let mut peer = connection(2, 1);

    assert!(matches!(
        handle_packet(&mut peer, PEER, LOCAL, b"x"),
        HandledPacket::MalformedIpv4(Ipv4ParseError::PacketTooShort)
    ));

    let packet = Ipv4Datagram::new_tcp(LOCAL, PEER, Bytes::from_static(b"x")).serialize();

    assert!(matches!(
        handle_packet(&mut peer, PEER, LOCAL, &packet),
        HandledPacket::MalformedTcp(TcpParseError::SegmentTooShort)
    ));
}
