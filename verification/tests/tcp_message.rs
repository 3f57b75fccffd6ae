use bytes::Bytes;
use minnow_rs::tcp_message::TcpSenderMessage;
use minnow_rs::wrapping_integers::Wrap32;
use minnow_rs::tcp_message::TcpReceiverMessage;

#[test]
fn sequence_length_counts_syn_payload_and_fin() {
    let message = TcpSenderMessage {
        seqno: Wrap32::new(100),
        syn: true,
        payload: Bytes::from_static(b"cat"),
        fin: true,
        rst: false,
    };

    assert_eq!(message.sequence_length(), 5);
}

#[test]
fn empty_message_occupies_no_sequence_space() {
    let message = TcpSenderMessage::new(Wrap32::new(100));

    assert_eq!(message.sequence_length(), 0);
    assert!(message.is_empty_in_sequence_space());
}

#[test]
fn clone_carries_the_payload() {
    let message = TcpSenderMessage {
        seqno: Wrap32::new(5),
        syn: false,
        payload: Bytes::from_static(b"xyz"),
        fin: true,
        rst: true,
    };

    assert_eq!(message.clone(), message);
    assert_eq!(message.sequence_length(), 4);
    assert!(!message.is_empty_in_sequence_space());
}

#[test]
fn default_receiver_message_says_nothing() {
    let message = TcpReceiverMessage::default();

    assert_eq!(message.ackno, None);
    assert_eq!(message.window_size, 0);
    assert!(!message.rst);
}
