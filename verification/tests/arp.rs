use minnow_rs::arp::{
    ArpMessage, ArpParseError, ARP_HARDWARE_TYPE_ETHERNET, ARP_MESSAGE_LEN, ARP_OPCODE_REQUEST,
    ARP_PROTOCOL_TYPE_IPV4,
};
use minnow_rs::ethernet_frame::EthernetAddress;
use minnow_rs::arp::ArpOperation;

fn mac_a() -> EthernetAddress {
    EthernetAddress::new([0x02, 0xaa, 0xbb, 0xcc, 0xdd, 0x01])
}

fn mac_b() -> EthernetAddress {
    EthernetAddress::new([0x02, 0xaa, 0xbb, 0xcc, 0xdd, 0x02])
}

#[test]
fn arp_request_round_trip() {
    let request = ArpMessage::request(mac_a(), [169, 254, 144, 2], [169, 254, 144, 1]);

    let serialized = request.serialize();

    assert_eq!(serialized.len(), ARP_MESSAGE_LEN);

    assert_eq!(
        u16::from_be_bytes([serialized[0], serialized[1]]),
        ARP_HARDWARE_TYPE_ETHERNET
    );

    assert_eq!(
        u16::from_be_bytes([serialized[2], serialized[3]]),
        ARP_PROTOCOL_TYPE_IPV4
    );

    assert_eq!(serialized[4], 6);

    assert_eq!(serialized[5], 4);

    assert_eq!(
        u16::from_be_bytes([serialized[6], serialized[7]]),
        ARP_OPCODE_REQUEST
    );

    let parsed = ArpMessage::parse_bytes(serialized).unwrap();

    assert_eq!(parsed, request);

    assert!(parsed.is_request());

    assert!(!parsed.is_reply());

    assert_eq!(parsed.target_ethernet_address, EthernetAddress::zero());
}

#[test]
fn arp_reply_round_trip() {
    let reply = ArpMessage::reply(mac_a(), [169, 254, 144, 1], mac_b(), [169, 254, 144, 2]);

    let parsed = ArpMessage::parse_bytes(reply.serialize()).unwrap();

    assert_eq!(parsed, reply);

    assert!(parsed.is_reply());

    assert!(!parsed.is_request());

    assert_eq!(parsed.sender_ethernet_address, mac_a());

    assert_eq!(parsed.target_ethernet_address, mac_b());
}

#[test]
fn rejects_short_arp_message() {
    let error = ArpMessage::parse(&[0u8; 27]).unwrap_err();

    assert_eq!(error, ArpParseError::MessageTooShort);
}

#[test]
fn rejects_unsupported_hardware_type() {
    let mut data = ArpMessage::request(mac_a(), [1, 1, 1, 1], [2, 2, 2, 2])
        .serialize()
        .to_vec();

    data[1] = 2;

    assert_eq!(
        ArpMessage::parse(&data).unwrap_err(),
        ArpParseError::UnsupportedHardwareType(2)
    );
}

#[test]
fn rejects_unsupported_protocol_type() {
    let mut data = ArpMessage::request(mac_a(), [1, 1, 1, 1], [2, 2, 2, 2])
        .serialize()
        .to_vec();

    data[2..4].copy_from_slice(&0x86ddu16.to_be_bytes());

    assert_eq!(
        ArpMessage::parse(&data).unwrap_err(),
        ArpParseError::UnsupportedProtocolType(0x86dd)
    );
}

#[test]
fn rejects_unsupported_opcode() {
    let mut data = ArpMessage::request(mac_a(), [1, 1, 1, 1], [2, 2, 2, 2])
        .serialize()
        .to_vec();

    data[6..8].copy_from_slice(&9u16.to_be_bytes());

    assert_eq!(
        ArpMessage::parse(&data).unwrap_err(),
        ArpParseError::UnsupportedOperation(9)
    );
}

#[test]
fn rejects_unsupported_address_lengths() {
    let mut data = ArpMessage::request(mac_a(), [1, 1, 1, 1], [2, 2, 2, 2])
        .serialize()
        .to_vec();

    data[5] = 16;
    assert_eq!(
        ArpMessage::parse(&data).unwrap_err(),
        ArpParseError::UnsupportedProtocolAddressLength(16)
    );

    data[4] = 8;
    assert_eq!(
        ArpMessage::parse(&data).unwrap_err(),
        ArpParseError::UnsupportedHardwareAddressLength(8)
    );
}

#[test]
fn bytes_behind_a_message_are_passed_over() {
    let reply = ArpMessage::reply(mac_a(), [1, 2, 3, 4], mac_b(), [5, 6, 7, 8]);
    let mut data = reply.serialize().to_vec();

    data.extend_from_slice(&[0; 18]);
    assert_eq!(ArpMessage::parse(&data).unwrap(), reply);
}

#[test]
fn operations_have_numbers() {
    assert_eq!(ArpOperation::Request.opcode(), 1);
    assert_eq!(ArpOperation::Reply.opcode(), 2);
    assert_eq!(ArpOperation::from_opcode(1), Some(ArpOperation::Request));
    assert_eq!(ArpOperation::from_opcode(2), Some(ArpOperation::Reply));
    assert_eq!(ArpOperation::from_opcode(0), None);
    assert_eq!(ArpOperation::from_opcode(3), None);
}
