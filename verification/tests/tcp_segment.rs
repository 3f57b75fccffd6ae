use bytes::Bytes;
use minnow_rs::tcp_message::{TcpReceiverMessage, TcpSenderMessage};
use minnow_rs::tcp_segment::{TcpParseError, TcpSegment};
use minnow_rs::wrapping_integers::Wrap32;
use minnow_rs::tcp_segment::TcpHeader;

fn sender_message() -> TcpSenderMessage {
    TcpSenderMessage {
        seqno: Wrap32::new(1_000),
        syn: true,
        payload: Bytes::from_static(b"abc"),
        fin: false,
        rst: false,
    }
}

#[test]
fn tcp_segment_round_trip_with_syn_payload_and_ack() {
    let sender = sender_message();

    let receiver = TcpReceiverMessage {
        ackno: Some(Wrap32::new(9_001)),
        window_size: 4096,
        rst: false,
    };

    let segment = TcpSegment::from_messages(12345, 80, &sender, Some(receiver));

    let serialized = segment.serialize_ipv4([10, 0, 0, 1], [10, 0, 0, 2]);

    let parsed =
        TcpSegment::parse_ipv4_bytes([10, 0, 0, 1], [10, 0, 0, 2], serialized).unwrap();

    assert_eq!(parsed.header.src_port, 12345);
    assert_eq!(parsed.header.dst_port, 80);
    assert_eq!(parsed.header.seqno, Wrap32::new(1_000));
    assert_eq!(parsed.header.ackno, Some(Wrap32::new(9_001)));
    assert_eq!(parsed.header.window_size, 4096);
    assert!(parsed.header.syn);
    assert!(!parsed.header.fin);
    assert!(!parsed.header.rst);
    assert_eq!(parsed.payload, Bytes::from_static(b"abc"));

    assert_eq!(parsed.to_sender_message(), sender);
    assert_eq!(parsed.to_receiver_message(), receiver);
}

#[test]
fn tcp_segment_round_trip_fin_without_ack() {
    let sender = TcpSenderMessage {
        seqno: Wrap32::new(77),
        syn: false,
        payload: Bytes::new(),
        fin: true,
        rst: false,
    };

    let segment = TcpSegment::from_messages(5000, 5001, &sender, None);

    let serialized = segment.serialize_ipv4([192, 168, 0, 1], [192, 168, 0, 2]);

    let parsed =
        TcpSegment::parse_ipv4_bytes([192, 168, 0, 1], [192, 168, 0, 2], serialized).unwrap();

    assert_eq!(parsed.header.seqno, Wrap32::new(77));
    assert_eq!(parsed.header.ackno, None);
    assert!(parsed.header.fin);
    assert!(!parsed.header.syn);
    assert_eq!(parsed.payload, Bytes::new());
}

#[test]
fn tcp_checksum_rejects_wrong_pseudo_header() {
    let sender = sender_message();

    let segment = TcpSegment::from_messages(12345, 80, &sender, None);

    let serialized = segment.serialize_ipv4([10, 0, 0, 1], [10, 0, 0, 2]);

    let error =
        TcpSegment::parse_ipv4_bytes([10, 0, 0, 9], [10, 0, 0, 2], serialized).unwrap_err();

    assert_eq!(error, TcpParseError::InvalidChecksum);
}

#[test]
fn tcp_parse_rejects_short_segment() {
    let error = TcpSegment::parse_ipv4([1, 1, 1, 1], [2, 2, 2, 2], &[0; 10]).unwrap_err();

    assert_eq!(error, TcpParseError::SegmentTooShort);
}

#[test]
fn tcp_parse_rejects_invalid_data_offset() {
    let sender = sender_message();

    let segment = TcpSegment::from_messages(12345, 80, &sender, None);

    let mut serialized = segment
        .serialize_ipv4([10, 0, 0, 1], [10, 0, 0, 2])
        .to_vec();

    serialized[12] = 4 << 4;

    // Recompute checksum after corrupting data offset so the parser
    // reaches InvalidDataOffset instead of InvalidChecksum.
    serialized[16] = 0;
    serialized[17] = 0;

    let checksum =
        minnow_rs::checksum::tcp_checksum_ipv4([10, 0, 0, 1], [10, 0, 0, 2], &serialized);

    serialized[16..18].copy_from_slice(&checksum.to_be_bytes());

    let error = TcpSegment::parse_ipv4([10, 0, 0, 1], [10, 0, 0, 2], &serialized).unwrap_err();

    assert_eq!(error, TcpParseError::InvalidDataOffset);
}

#[test]
fn rst_propagates_from_receiver_message() {
    let sender = TcpSenderMessage::new(Wrap32::new(100));

    let receiver = TcpReceiverMessage {
        ackno: Some(Wrap32::new(200)),
        window_size: 0,
        rst: true,
    };

    let segment = TcpSegment::from_messages(1, 2, &sender, Some(receiver));

    assert!(segment.header.rst);
}

#[test]
fn serialized_segment_is_exact() {
    let segment = TcpSegment::new(
        TcpHeader {
            src_port: 0x1122,
            dst_port: 0x3344,
            seqno: Wrap32::new(0x5566_7788),
            ackno: Some(Wrap32::new(0x99aa_bbcc)),
            window_size: 0xddee,
            syn: true,
            fin: true,
            rst: true,
        },
        Bytes::from_static(b"\x01\x02\x03"),
    );
    let bytes = segment.serialize_ipv4([1, 2, 3, 4], [5, 6, 7, 8]);

    assert_eq!(segment.header.flags(), 0x17);
    assert_eq!(
        &bytes[..16],
        &[
            0x11, 0x22, 0x33, 0x44, 0x55, 0x66, 0x77, 0x88, 0x99, 0xaa, 0xbb, 0xcc, 0x50, 0x17,
            0xdd, 0xee
        ]
    );
    assert_eq!(&bytes[18..], &[0, 0, 1, 2, 3]);
    assert_eq!(
        TcpSegment::parse_ipv4_bytes([1, 2, 3, 4], [5, 6, 7, 8], bytes).unwrap(),
        segment
    );
    assert_eq!(segment.clone(), segment);
}

#[test]
fn number_without_ack_flag_is_no_acknowledgement() {
    let segment = TcpSegment::from_messages(1, 2, &sender_message(), None);

    assert_eq!(segment.header.flags(), 0x02);
    assert_eq!(segment.header.window_size, 0);

    let bytes = segment.serialize_ipv4([1, 2, 3, 4], [5, 6, 7, 8]);

    assert_eq!(&bytes[8..12], &[0, 0, 0, 0]);
}

#[test]
fn options_of_a_segment_are_passed_over() {
    let mut bytes = vec![0u8; 28];

    bytes[12] = 6 << 4;
    bytes[13] = 0x10;
    bytes[11] = 9;
    bytes[24..].copy_from_slice(b"data");
    let checksum = minnow_rs::checksum::tcp_checksum_ipv4([1, 2, 3, 4], [5, 6, 7, 8], &bytes);
    bytes[16..18].copy_from_slice(&checksum.to_be_bytes());

    let segment = TcpSegment::parse_ipv4([1, 2, 3, 4], [5, 6, 7, 8], &bytes).unwrap();

    assert_eq!(segment.payload, Bytes::from_static(b"data"));
    assert_eq!(segment.header.ackno, Some(Wrap32::new(9)));
}

#[test]
fn segment_errors_have_names() {
    assert_eq!(TcpParseError::SegmentTooShort.name(), "SegmentTooShort");
    assert_eq!(TcpParseError::InvalidDataOffset.name(), "InvalidDataOffset");
    assert_eq!(TcpParseError::InvalidChecksum.name(), "InvalidChecksum");
}
