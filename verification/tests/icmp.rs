use bytes::Bytes;
use minnow_rs::icmp::{IcmpMessage, IcmpParseError, ICMP_ECHO_REPLY};

#[test]
fn echo_request_round_trips() {
    let request = IcmpMessage::echo_request(0x1234, 7, Bytes::from_static(b"hello"));

    let parsed = IcmpMessage::parse_bytes(request.serialize()).unwrap();

    assert_eq!(parsed, request);
}

#[test]
fn echo_reply_preserves_id_sequence_and_payload() {
    let request = IcmpMessage::echo_request(0xabcd, 42, Bytes::from_static(b"payload"));

    let reply = IcmpMessage::echo_reply_from_request(&request).unwrap();

    assert_eq!(reply.icmp_type, ICMP_ECHO_REPLY);
    assert_eq!(reply.code, 0);
    assert_eq!(reply.identifier, request.identifier);
    assert_eq!(reply.sequence_number, request.sequence_number);
    assert_eq!(reply.payload, request.payload);
    assert!(IcmpMessage::parse_bytes(reply.serialize()).is_ok());
}

#[test]
fn parse_rejects_bad_checksum() {
    let mut bytes = IcmpMessage::echo_request(1, 1, Bytes::from_static(b"x"))
        .serialize()
        .to_vec();
    bytes[8] ^= 0xff;

    assert_eq!(
        IcmpMessage::parse_bytes(Bytes::from(bytes)),
        Err(IcmpParseError::InvalidChecksum)
    );
}

#[test]
fn short_message_is_rejected() {
    assert_eq!(
        IcmpMessage::parse_bytes(Bytes::from_static(&[8, 0, 0, 0, 0, 0, 0])),
        Err(IcmpParseError::MessageTooShort)
    );
    assert_eq!(IcmpParseError::MessageTooShort.name(), "MessageTooShort");
    assert_eq!(IcmpParseError::InvalidChecksum.name(), "InvalidChecksum");
}

#[test]
fn only_an_echo_request_is_replied_to() {
    let mut message = IcmpMessage::echo_request(1, 2, Bytes::from_static(b"x"));

    assert!(IcmpMessage::echo_reply_from_request(&message).is_some());

    message.code = 1;
    assert_eq!(IcmpMessage::echo_reply_from_request(&message), None);

    message.code = 0;
    message.icmp_type = ICMP_ECHO_REPLY;
    assert_eq!(IcmpMessage::echo_reply_from_request(&message), None);
}

#[test]
fn serialized_request_is_exact() {
    let bytes = IcmpMessage::echo_request(0x1234, 0x0005, Bytes::from_static(b"\x01")).serialize();

    assert_eq!(&bytes[..], &[8, 0, 0xe4, 0xc6, 0x12, 0x34, 0, 5, 1]);
}
