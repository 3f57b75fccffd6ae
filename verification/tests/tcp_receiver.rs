use bytes::Bytes;
use minnow_rs::tcp_message::TcpSenderMessage;
use minnow_rs::tcp_receiver::TcpReceiver;
use minnow_rs::wrapping_integers::Wrap32;
use minnow_rs::reassembler::ReassemblerError;

fn message(
    seqno: u32,
    syn: bool,
    payload: &'static [u8],
    fin: bool,
) -> TcpSenderMessage {
    TcpSenderMessage {
        seqno: Wrap32::new(seqno),
        syn,
        payload: Bytes::from_static(payload),
        fin,
        rst: false,
    }
}

#[test]
fn receiver_has_no_ack_before_syn() {
    let receiver = TcpReceiver::new(10);

    let response = receiver.send();

    assert_eq!(response.ackno, None);
    assert_eq!(response.window_size, 10);
    assert!(!response.rst);
}

#[test]
fn segment_without_syn_is_ignored_before_connection_starts() {
    let mut receiver = TcpReceiver::new(10);

    receiver
        .receive(message(1_001, false, b"abc", false))
        .unwrap();

    assert_eq!(receiver.output().bytes_pushed(), 0);
    assert_eq!(receiver.send().ackno, None);
}

#[test]
fn syn_establishes_isn_and_advances_ack() {
    let mut receiver = TcpReceiver::new(10);

    receiver
        .receive(message(1_000, true, b"", false))
        .unwrap();

    assert_eq!(receiver.send().ackno, Some(Wrap32::new(1_001)));
    assert_eq!(receiver.send().window_size, 10);
}

#[test]
fn syn_can_carry_payload() {
    let mut receiver = TcpReceiver::new(10);

    receiver
        .receive(message(1_000, true, b"abc", false))
        .unwrap();

    assert_eq!(receiver.output().peek(), Bytes::from_static(b"abc"));
    assert_eq!(receiver.send().ackno, Some(Wrap32::new(1_004)));
    assert_eq!(receiver.send().window_size, 7);
}

#[test]
fn receiver_reassembles_out_of_order_payload() {
    let mut receiver = TcpReceiver::new(10);

    receiver
        .receive(message(1_000, true, b"", false))
        .unwrap();

    // Payload stream index 3 begins at absolute seqno 4,
    // which wraps to TCP seqno 1004.
    receiver
        .receive(message(1_004, false, b"def", false))
        .unwrap();

    assert_eq!(receiver.output().bytes_pushed(), 0);
    assert_eq!(receiver.reassembler().bytes_pending(), 3);
    assert_eq!(receiver.send().ackno, Some(Wrap32::new(1_001)));

    receiver
        .receive(message(1_001, false, b"abc", false))
        .unwrap();

    assert_eq!(receiver.output().peek(), Bytes::from_static(b"abcdef"));
    assert_eq!(receiver.reassembler().bytes_pending(), 0);
    assert_eq!(receiver.send().ackno, Some(Wrap32::new(1_007)));
}

#[test]
fn fin_advances_ack_after_complete_reassembly() {
    let mut receiver = TcpReceiver::new(10);

    receiver
        .receive(message(1_000, true, b"abc", false))
        .unwrap();

    receiver
        .receive(message(1_004, false, b"de", true))
        .unwrap();

    assert_eq!(receiver.output().peek(), Bytes::from_static(b"abcde"));
    assert!(receiver.output().is_closed());

    // SYN + five payload bytes + FIN:
    //
    // absolute ACK = 1 + 5 + 1 = 7
    assert_eq!(receiver.send().ackno, Some(Wrap32::new(1_007)));
}

#[test]
fn fin_waits_until_missing_prefix_arrives() {
    let mut receiver = TcpReceiver::new(10);

    receiver
        .receive(message(1_000, true, b"", false))
        .unwrap();

    receiver
        .receive(message(1_004, false, b"def", true))
        .unwrap();

    assert!(!receiver.output().is_closed());
    assert_eq!(receiver.send().ackno, Some(Wrap32::new(1_001)));

    receiver
        .receive(message(1_001, false, b"abc", false))
        .unwrap();

    assert!(receiver.output().is_closed());
    assert_eq!(receiver.output().peek(), Bytes::from_static(b"abcdef"));
    assert_eq!(receiver.send().ackno, Some(Wrap32::new(1_008)));
}

#[test]
fn advertised_window_shrinks_and_reopens() {
    let mut receiver = TcpReceiver::new(5);

    receiver
        .receive(message(1_000, true, b"abc", false))
        .unwrap();

    assert_eq!(receiver.send().window_size, 2);

    receiver.output_mut().pop(2);

    assert_eq!(receiver.send().window_size, 4);
}

#[test]
fn advertised_window_is_limited_to_u16_max() {
    let receiver = TcpReceiver::new(100_000);

    assert_eq!(receiver.send().window_size, u16::MAX);
}

#[test]
fn rst_marks_stream_as_failed() {
    let mut receiver = TcpReceiver::new(10);

    receiver
        .receive(TcpSenderMessage {
            seqno: Wrap32::new(0),
            syn: false,
            payload: Bytes::new(),
            fin: false,
            rst: true,
        })
        .unwrap();

    assert!(receiver.output().has_error());
    assert!(receiver.send().rst);
}

#[test]
fn receiver_handles_seqno_wraparound() {
    let isn = u32::MAX - 1;
    let mut receiver = TcpReceiver::new(10);

    receiver
        .receive(message(isn, true, b"cat", true))
        .unwrap();

    assert_eq!(receiver.output().peek(), Bytes::from_static(b"cat"));
    assert!(receiver.output().is_closed());

    // SYN  -> u32::MAX - 1
    // c    -> u32::MAX
    // a    -> 0
    // t    -> 1
    // FIN  -> 2
    // ACK  -> 3
    assert_eq!(receiver.send().ackno, Some(Wrap32::new(3)));
}

#[test]
fn conflicting_retransmitted_syn_is_ignored() {
    let mut receiver = TcpReceiver::new(10);

    receiver
        .receive(message(1_000, true, b"", false))
        .unwrap();

    receiver
        .receive(message(2_000, true, b"abc", false))
        .unwrap();

    assert_eq!(receiver.output().bytes_pushed(), 0);
    assert_eq!(receiver.send().ackno, Some(Wrap32::new(1_001)));
}

#[test]
fn message_at_the_number_of_the_syn_without_syn_is_ignored() {
    let mut receiver = TcpReceiver::new(10);

    receiver.receive(message(1_000, true, b"", false)).unwrap();
    receiver.receive(message(1_000, false, b"abc", false)).unwrap();

    assert_eq!(receiver.output().bytes_pushed(), 0);
    assert_eq!(receiver.reassembler().bytes_pending(), 0);
}

#[test]
fn contradicting_end_is_reported() {
    let mut receiver = TcpReceiver::new(10);

    receiver.receive(message(1_000, true, b"abc", true)).unwrap();

    assert_eq!(
        receiver.receive(message(1_004, false, b"d", true)),
        Err(ReassemblerError::InconsistentEof {
            existing: 3,
            received: 4,
        })
    );
    assert_eq!(
        receiver.receive(message(1_004, false, b"d", false)),
        Err(ReassemblerError::SegmentBeyondEof {
            eof: 3,
            segment_start: 3,
            segment_end: 4,
        })
    );
}

#[test]
fn segment_at_the_acknowledged_number_is_put_together() {
    let mut receiver = TcpReceiver::new(100);

    receiver.receive(message(u32::MAX - 2, true, b"", false)).unwrap();

    for part in [&b"abc"[..], b"de", b"fghij"] {
        let seqno = receiver.send().ackno.unwrap();
        let before = receiver.output().bytes_pushed();

        receiver
            .receive(TcpSenderMessage {
                seqno,
                syn: false,
                payload: Bytes::copy_from_slice(part),
                fin: false,
                rst: false,
            })
            .unwrap();
        assert_eq!(receiver.output().bytes_pushed(), before + part.len() as u64);
    }

    assert_eq!(receiver.output().peek(), Bytes::from_static(b"abcdefghij"));
    assert_eq!(receiver.reassembler_mut().output_mut().pop(4), Bytes::from_static(b"abcd"));
}

#[test]
fn segments_of_a_stream_in_any_order_give_the_stream() {
    let segments = [
        message(1_004, false, b"def", false),
        message(1_000, true, b"abc", false),
        message(1_006, false, b"fgh", true),
        message(1_002, false, b"bcde", false),
    ];
    let orders = [[0, 1, 2, 3], [1, 3, 2, 0], [1, 2, 0, 3], [2, 1, 3, 0]];

    for order in orders {
        let mut receiver = TcpReceiver::new(100);

        receiver.receive(message(1_000, true, b"", false)).unwrap();
        for place in order {
            receiver.receive(segments[place].clone()).unwrap();
        }

        assert_eq!(receiver.output().peek(), Bytes::from_static(b"abcdefgh"));
        assert!(receiver.output().is_closed());
        assert_eq!(receiver.send().ackno, Some(Wrap32::new(1_010)));
    }
}

#[test]
fn segments_in_any_order_are_reassembled_from_the_syn_on() {
    let mut receiver = TcpReceiver::new(6);
    let isn: u32 = u32::MAX - 2;
    let mut read: Vec<u8> = Vec::new();

    for (index, syn, payload, fin, len, acknowledged) in [
        (3, false, &b"de"[..], false, 0, None),
        (0, true, &b""[..], false, 0, Some(1)),
        (3, false, &b"defgh"[..], true, 0, Some(1)),
        (0, true, &b"ab"[..], false, 1, Some(3)),
        (1, false, &b"bc"[..], false, 4, Some(7)),
        (6, false, &b"gh"[..], true, 9, Some(10)),
        (0, true, &b"ab"[..], false, 1, Some(10)),
    ] {
        let start: u32 = if syn { 0 } else { index + 1 };

        receiver
            .receive(message(isn.wrapping_add(start), syn, payload, fin))
            .unwrap();

        assert_eq!(
            receiver.send().ackno,
            acknowledged.map(|number: u32| Wrap32::new(isn.wrapping_add(number)))
        );
        read.extend_from_slice(&receiver.output_mut().pop(len));
    }
    assert_eq!(read, b"abcdefgh");
    assert!(receiver.output().is_finished());
}
