use bytes::Bytes;
use minnow_rs::checksum::internet_checksum;
use minnow_rs::ipv4_datagram::{
    Ipv4Datagram, Ipv4ParseError, IPV4_HEADER_MIN_LEN, IPV4_PROTOCOL_TCP,
};
use minnow_rs::ipv4_datagram::{Ipv4AddrBytes, Ipv4Header, IPV4_PROTOCOL_ICMP};

#[test]
fn ipv4_round_trip_tcp_payload() {
    let payload = Bytes::from_static(b"tcp bytes");

    let datagram =
        Ipv4Datagram::new_tcp([192, 168, 1, 10], [93, 184, 216, 34], payload.clone());

    let serialized = datagram.serialize();

    assert_eq!(serialized[0], 0x45);
    assert_eq!(
        u16::from_be_bytes([serialized[2], serialized[3]]) as usize,
        IPV4_HEADER_MIN_LEN + payload.len()
    );

    let parsed = Ipv4Datagram::parse_bytes(serialized).unwrap();

    assert_eq!(parsed.header.src.octets(), [192, 168, 1, 10]);
    assert_eq!(parsed.header.dst.octets(), [93, 184, 216, 34]);
    assert_eq!(parsed.header.protocol, IPV4_PROTOCOL_TCP);
    assert_eq!(parsed.payload, payload);
}

#[test]
fn rejects_non_ipv4_packet() {
    let mut packet = Ipv4Datagram::new_tcp([1, 1, 1, 1], [2, 2, 2, 2], Bytes::new())
        .serialize()
        .to_vec();

    packet[0] = 0x65;

    assert_eq!(
        Ipv4Datagram::parse(&packet).unwrap_err(),
        Ipv4ParseError::NotIpv4
    );
}

#[test]
fn rejects_bad_ipv4_checksum() {
    let mut packet = Ipv4Datagram::new_tcp([1, 1, 1, 1], [2, 2, 2, 2], Bytes::new())
        .serialize()
        .to_vec();

    packet[10] ^= 0xff;

    assert_eq!(
        Ipv4Datagram::parse(&packet).unwrap_err(),
        Ipv4ParseError::InvalidChecksum
    );
}

#[test]
fn parse_allows_extra_trailing_bytes_but_respects_total_length() {
    let mut packet =
        Ipv4Datagram::new_tcp([10, 0, 0, 1], [10, 0, 0, 2], Bytes::from_static(b"abc"))
            .serialize()
            .to_vec();

    packet.extend_from_slice(b"trailing garbage");

    let parsed = Ipv4Datagram::parse(&packet).unwrap();

    assert_eq!(parsed.payload, Bytes::from_static(b"abc"));
}

#[test]
fn rejects_invalid_total_length() {
    let mut packet =
        Ipv4Datagram::new_tcp([10, 0, 0, 1], [10, 0, 0, 2], Bytes::from_static(b"abc"))
            .serialize()
            .to_vec();

    packet[2..4].copy_from_slice(&10u16.to_be_bytes());

    // Need to recompute checksum to isolate total-length validation.
    packet[10] = 0;
    packet[11] = 0;
    let checksum = internet_checksum(&packet[..IPV4_HEADER_MIN_LEN]);
    packet[10..12].copy_from_slice(&checksum.to_be_bytes());

    assert_eq!(
        Ipv4Datagram::parse(&packet).unwrap_err(),
        Ipv4ParseError::InvalidTotalLength
    );
}

#[test]
fn header_fields_survive_the_wire() {
    let datagram = Ipv4Datagram {
        header: Ipv4Header {
            src: Ipv4AddrBytes::from([1, 2, 3, 4]),
            dst: Ipv4AddrBytes::from([250, 251, 252, 253]),
            ttl: 3,
            protocol: 200,
            identification: 0xabcd,
            flags_fragment_offset: 0x2123,
        },
        payload: Bytes::from_static(b"payload"),
    };

    assert_eq!(Ipv4Datagram::parse_bytes(datagram.serialize()).unwrap(), datagram);
    assert_eq!(datagram.clone(), datagram);
}

#[test]
fn serialized_header_is_exact() {
    let packet = Ipv4Datagram::new_icmp([10, 0, 0, 1], [10, 0, 0, 2], Bytes::from_static(b"\xaa"))
        .serialize();

    assert_eq!(
        &packet[..],
        &[
            0x45, 0, 0, 21, 0, 0, 0x40, 0, 64, 1, 0x26, 0xe6, 10, 0, 0, 1, 10, 0, 0, 2, 0xaa
        ]
    );
    assert_eq!(IPV4_PROTOCOL_ICMP, 1);
}

#[test]
fn short_packet_is_rejected() {
    assert_eq!(
        Ipv4Datagram::parse(&[0x45; 19]).unwrap_err(),
        Ipv4ParseError::PacketTooShort
    );
}

#[test]
fn header_length_has_to_fit() {
    let mut packet = Ipv4Datagram::new_tcp([1, 1, 1, 1], [2, 2, 2, 2], Bytes::new())
        .serialize()
        .to_vec();

    packet[0] = 0x44;
    assert_eq!(
        Ipv4Datagram::parse(&packet).unwrap_err(),
        Ipv4ParseError::InvalidHeaderLength
    );

    packet[0] = 0x46;
    assert_eq!(
        Ipv4Datagram::parse(&packet).unwrap_err(),
        Ipv4ParseError::InvalidHeaderLength
    );
}

#[test]
fn options_of_a_header_are_passed_over() {
    let mut packet = vec![0x46, 0, 0, 26, 0, 0, 0, 0, 9, 6, 0, 0, 1, 2, 3, 4, 5, 6, 7, 8];
    packet.extend_from_slice(&[1, 1, 1, 0]);
    let checksum = internet_checksum(&packet);
    packet[10..12].copy_from_slice(&checksum.to_be_bytes());
    packet.extend_from_slice(b"xy");

    let datagram = Ipv4Datagram::parse(&packet).unwrap();

    assert_eq!(datagram.payload, Bytes::from_static(b"xy"));
    assert_eq!(datagram.header.dst, Ipv4AddrBytes::new([5, 6, 7, 8]));
}

#[test]
fn parse_errors_have_names() {
    assert_eq!(Ipv4ParseError::PacketTooShort.name(), "PacketTooShort");
    assert_eq!(Ipv4ParseError::NotIpv4.name(), "NotIpv4");
    assert_eq!(Ipv4ParseError::InvalidHeaderLength.name(), "InvalidHeaderLength");
    assert_eq!(Ipv4ParseError::InvalidTotalLength.name(), "InvalidTotalLength");
    assert_eq!(Ipv4ParseError::InvalidChecksum.name(), "InvalidChecksum");
}
