use bytes::Bytes;
use minnow_rs::ethernet_frame::{
    EthernetAddress, EthernetFrame, EthernetParseError, ETHERNET_HEADER_LEN, ETHERTYPE_ARP,
    ETHERTYPE_IPV4,
};

fn mac_a() -> EthernetAddress {
    EthernetAddress::new([0x02, 0xaa, 0xbb, 0xcc, 0xdd, 0x01])
}

fn mac_b() -> EthernetAddress {
    EthernetAddress::new([0x02, 0xaa, 0xbb, 0xcc, 0xdd, 0x02])
}

#[test]
fn ethernet_address_debug_and_display() {
    let mac = mac_a();

    assert_eq!(format!("{mac:?}"), "02:aa:bb:cc:dd:01");

    assert_eq!(format!("{mac}"), "02:aa:bb:cc:dd:01");
}

#[test]
fn ethernet_ipv4_round_trip() {
    let frame = EthernetFrame::ipv4(mac_b(), mac_a(), Bytes::from_static(b"ipv4-payload"));

    let serialized = frame.serialize();

    assert_eq!(serialized.len(), ETHERNET_HEADER_LEN + 12);
    assert_eq!(&serialized[0..6], &mac_b().octets());
    assert_eq!(&serialized[6..12], &mac_a().octets());
    assert_eq!(
        u16::from_be_bytes([serialized[12], serialized[13]]),
        ETHERTYPE_IPV4
    );

    let parsed = EthernetFrame::parse_bytes(serialized).unwrap();

    assert_eq!(parsed, frame);
}

#[test]
fn ethernet_arp_round_trip() {
    let frame = EthernetFrame::arp(
        EthernetAddress::broadcast(),
        mac_a(),
        Bytes::from_static(b"arp-payload"),
    );

    let parsed = EthernetFrame::parse_bytes(frame.serialize()).unwrap();

    assert_eq!(parsed.header.dst, EthernetAddress::broadcast());
    assert_eq!(parsed.header.src, mac_a());
    assert_eq!(parsed.header.ethertype, ETHERTYPE_ARP);
    assert_eq!(parsed.payload, Bytes::from_static(b"arp-payload"));
}

#[test]
fn rejects_short_frame() {
    let error = EthernetFrame::parse(&[0u8; 13]).unwrap_err();

    assert_eq!(error, EthernetParseError::FrameTooShort);
}

#[test]
fn frame_destination_filter() {
    let mine = mac_a();

    let unicast_to_me = EthernetFrame::ipv4(mine, mac_b(), Bytes::new());

    let broadcast = EthernetFrame::ipv4(EthernetAddress::broadcast(), mac_b(), Bytes::new());

    let other = EthernetFrame::ipv4(mac_b(), mine, Bytes::new());

    assert!(unicast_to_me.is_for(mine));
    assert!(broadcast.is_for(mine));
    assert!(!other.is_for(mine));
}

#[test]
fn addresses_are_compared_by_their_bytes() {
    assert_eq!(EthernetAddress::from([1, 2, 3, 4, 5, 6]), EthernetAddress::new([1, 2, 3, 4, 5, 6]));
    assert_ne!(EthernetAddress::from([1, 2, 3, 4, 5, 6]), EthernetAddress::new([1, 2, 3, 4, 5, 7]));
    assert!(EthernetAddress::new([0xff; 6]).is_broadcast());
    assert!(!mac_a().is_broadcast());
    assert_eq!(EthernetAddress::zero().octets(), [0; 6]);
    assert_eq!(EthernetAddress::broadcast().to_string(), "ff:ff:ff:ff:ff:ff");
    assert_eq!(format!("{:?}", Some(mac_b())), "Some(02:aa:bb:cc:dd:02)");
}

#[test]
fn shortest_frame_has_no_payload() {
    let frame = EthernetFrame::parse(&[7u8; 14]).unwrap();

    assert_eq!(frame.header.ethertype, 0x0707);
    assert!(frame.payload.is_empty());
    assert_eq!(frame.clone(), frame);

    let empty = EthernetFrame::new(mac_a(), mac_b(), 0x1234, Bytes::new()).serialize();

    assert_eq!(&empty[12..], &[0x12, 0x34]);
}
