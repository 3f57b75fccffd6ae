use bytes::Bytes;
use minnow_rs::tcp_message::TcpReceiverMessage;
use minnow_rs::tcp_sender::{TcpSender, TcpSenderConfig};
use minnow_rs::wrapping_integers::Wrap32;

fn config() -> TcpSenderConfig {
    TcpSenderConfig {
        initial_rto_ms: 100,
        max_timer_interval_ms: 10_000,
        max_payload_size: 4,
    }
}

fn sender() -> TcpSender {
    TcpSender::new(64, Wrap32::new(1_000), config())
}

fn receiver_message(ackno: Option<u32>, window_size: u16) -> TcpReceiverMessage {
    TcpReceiverMessage {
        ackno: ackno.map(Wrap32::new),
        window_size,
        rst: false,
    }
}

#[test]
fn first_push_sends_syn_only_with_default_window() {
    let mut sender = sender();
    let mut sent = Vec::new();

    sent.extend(sender.push());

    assert_eq!(sent.len(), 1);
    assert_eq!(sent[0].seqno, Wrap32::new(1_000));
    assert!(sent[0].syn);
    assert!(sent[0].payload.is_empty());
    assert!(!sent[0].fin);

    assert_eq!(sender.snd_una(), 0);
    assert_eq!(sender.snd_nxt(), 1);
    assert_eq!(sender.bytes_in_flight(), 1);
    assert_eq!(sender.outstanding_segments(), 1);
    assert_eq!(sender.timer_mode(), Some("retransmission"));
}

#[test]
fn no_duplicate_syn_on_second_push() {
    let mut sender = sender();
    let mut sent = Vec::new();

    sent.extend(sender.push());
    sent.extend(sender.push());

    assert_eq!(sent.len(), 1);
    assert_eq!(sender.bytes_in_flight(), 1);
    assert_eq!(sender.outstanding_segments(), 1);
}

#[test]
fn empty_message_uses_next_sequence_number_and_is_not_tracked() {
    let mut sender = sender();
    let mut sent = Vec::new();

    sent.extend(sender.push());

    let empty = sender.make_empty_message();

    assert_eq!(empty.seqno, Wrap32::new(1_001));
    assert!(empty.is_empty_in_sequence_space());
    assert_eq!(sender.outstanding_segments(), 1);
}

#[test]
fn ack_of_syn_opens_window_and_stops_timer() {
    let mut sender = sender();
    let mut sent = Vec::new();

    sent.extend(sender.push());

    sender.receive(receiver_message(Some(1_001), 8));

    assert_eq!(sender.snd_una(), 1);
    assert_eq!(sender.snd_nxt(), 1);
    assert_eq!(sender.bytes_in_flight(), 0);
    assert_eq!(sender.outstanding_segments(), 0);
    assert_eq!(sender.timer_timeout_ms(), None);
    assert_eq!(sender.advertised_window(), 8);
}

#[test]
fn payload_is_segmented_and_fin_is_added_when_space_allows() {
    let mut sender = sender();
    let mut sent = Vec::new();

    sent.extend(sender.push());
    sender.receive(receiver_message(Some(1_001), 8));

    assert_eq!(sender.outbound_mut().push(Bytes::from_static(b"abcdef")), 6);
    sender.outbound_mut().close();

    sent.clear();
    sent.extend(sender.push());

    assert_eq!(sent.len(), 2);

    assert_eq!(sent[0].seqno, Wrap32::new(1_001));
    assert_eq!(sent[0].payload, Bytes::from_static(b"abcd"));
    assert!(!sent[0].syn);
    assert!(!sent[0].fin);

    assert_eq!(sent[1].seqno, Wrap32::new(1_005));
    assert_eq!(sent[1].payload, Bytes::from_static(b"ef"));
    assert!(!sent[1].syn);
    assert!(sent[1].fin);

    assert_eq!(sender.bytes_in_flight(), 7);
    assert_eq!(sender.outstanding_segments(), 2);
    assert!(sender.fin_sent());
}

#[test]
fn fin_waits_for_window_space() {
    let mut sender = sender();
    let mut sent = Vec::new();

    sent.extend(sender.push());
    sender.receive(receiver_message(Some(1_001), 4));

    sender.outbound_mut().push(Bytes::from_static(b"abcd"));
    sender.outbound_mut().close();

    sent.clear();
    sent.extend(sender.push());

    assert_eq!(sent.len(), 1);
    assert_eq!(sent[0].payload, Bytes::from_static(b"abcd"));
    assert!(!sent[0].fin);
    assert!(!sender.fin_sent());

    sender.receive(receiver_message(Some(1_005), 4));

    sent.clear();
    sent.extend(sender.push());

    assert_eq!(sent.len(), 1);
    assert_eq!(sent[0].seqno, Wrap32::new(1_005));
    assert!(sent[0].payload.is_empty());
    assert!(sent[0].fin);
    assert!(sender.fin_sent());
}

#[test]
fn partial_ack_trims_front_segment_precisely() {
    let mut sender = sender();
    let mut sent = Vec::new();

    sent.extend(sender.push());
    sender.receive(receiver_message(Some(1_001), 8));

    sender.outbound_mut().push(Bytes::from_static(b"abcdef"));
    sender.outbound_mut().close();

    sent.extend(sender.push());

    // ACK payload bytes 'a' and 'b', but not 'c' and 'd'.
    sender.receive(receiver_message(Some(1_003), 8));

    assert_eq!(sender.snd_una(), 3);
    assert_eq!(sender.bytes_in_flight(), 5);

    let front = sender.oldest_outstanding().unwrap();

    assert_eq!(front.absolute_start, 3);
    assert_eq!(front.message.seqno, Wrap32::new(1_003));
    assert_eq!(front.message.payload, Bytes::from_static(b"cd"));
    assert!(!front.message.syn);
    assert!(!front.message.fin);
}

#[test]
fn partial_ack_can_trim_syn_and_payload_together() {
    let mut sender = TcpSender::new(
        64,
        Wrap32::new(5_000),
        TcpSenderConfig {
            initial_rto_ms: 100,
            max_timer_interval_ms: 10_000,
            max_payload_size: 10,
        },
    );

    sender.outbound_mut().push(Bytes::from_static(b"abc"));

    let mut sent = Vec::new();
    sender.receive(receiver_message(None, 10));
    sent.extend(sender.push());

    assert_eq!(sent.len(), 1);
    assert!(sent[0].syn);
    assert_eq!(sent[0].payload, Bytes::from_static(b"abc"));

    // ACK SYN + 'a', leaving 'b' and 'c'.
    sender.receive(TcpReceiverMessage {
        ackno: Some(Wrap32::new(5_002)),
        window_size: 10,
        rst: false,
    });

    let front = sender.oldest_outstanding().unwrap();

    assert_eq!(front.absolute_start, 2);
    assert_eq!(front.message.seqno, Wrap32::new(5_002));
    assert!(!front.message.syn);
    assert_eq!(front.message.payload, Bytes::from_static(b"bc"));
}

#[test]
fn ack_beyond_snd_nxt_is_ignored() {
    let mut sender = sender();
    let mut sent = Vec::new();

    sent.extend(sender.push());

    sender.receive(receiver_message(Some(9_999), 10));

    assert_eq!(sender.snd_una(), 0);
    assert_eq!(sender.snd_nxt(), 1);
    assert_eq!(sender.bytes_in_flight(), 1);
    assert_eq!(sender.outstanding_segments(), 1);
}

#[test]
fn duplicate_ack_updates_window_but_does_not_reset_rto() {
    let mut sender = sender();
    let mut sent = Vec::new();

    sent.extend(sender.push());
    sender.tick(100);

    assert_eq!(sender.current_rto_ms(), 200);
    assert_eq!(sender.consecutive_retransmissions(), 1);

    sender.receive(receiver_message(Some(1_000), 20));

    assert_eq!(sender.advertised_window(), 20);
    assert_eq!(sender.current_rto_ms(), 200);
    assert_eq!(sender.consecutive_retransmissions(), 1);
}

#[test]
fn timeout_retransmits_earliest_segment_and_backs_off_rto() {
    let mut sender = sender();
    let mut sent = Vec::new();

    sent.extend(sender.push());

    sent.clear();

    sent.extend(sender.tick(99));

    assert!(sent.is_empty());

    sent.extend(sender.tick(1));

    assert_eq!(sent.len(), 1);
    assert!(sent[0].syn);

    assert_eq!(sender.current_rto_ms(), 200);
    assert_eq!(sender.consecutive_retransmissions(), 1);
    assert_eq!(sender.timer_timeout_ms(), Some(200));
    assert_eq!(sender.timer_mode(), Some("retransmission"));
}

#[test]
fn advancing_ack_resets_loss_backoff() {
    let mut sender = sender();
    let mut sent = Vec::new();

    sent.extend(sender.push());
    sender.tick(100);

    assert_eq!(sender.current_rto_ms(), 200);
    assert_eq!(sender.consecutive_retransmissions(), 1);

    sender.receive(receiver_message(Some(1_001), 10));

    assert_eq!(sender.current_rto_ms(), 100);
    assert_eq!(sender.consecutive_retransmissions(), 0);
    assert_eq!(sender.bytes_in_flight(), 0);
    assert_eq!(sender.timer_timeout_ms(), None);
}

#[test]
fn rto_backoff_is_capped() {
    let mut sender = TcpSender::new(
        64,
        Wrap32::new(1_000),
        TcpSenderConfig {
            initial_rto_ms: 100,
            max_timer_interval_ms: 250,
            max_payload_size: 4,
        },
    );

    let mut sent = Vec::new();

    sent.extend(sender.push());

    sender.tick(100);
    assert_eq!(sender.current_rto_ms(), 200);

    sender.tick(200);
    assert_eq!(sender.current_rto_ms(), 250);

    sender.tick(250);
    assert_eq!(sender.current_rto_ms(), 250);
}

#[test]
fn zero_window_allows_one_probe_and_uses_persist_backoff() {
    let mut sender = sender();
    let mut sent = Vec::new();

    sent.extend(sender.push());

    sender.receive(receiver_message(Some(1_001), 0));

    sender.outbound_mut().push(Bytes::from_static(b"ABC"));

    sent.clear();
    sent.extend(sender.push());

    assert_eq!(sent.len(), 1);
    assert_eq!(sent[0].seqno, Wrap32::new(1_001));
    assert_eq!(sent[0].payload, Bytes::from_static(b"A"));

    assert_eq!(sender.bytes_in_flight(), 1);
    assert_eq!(sender.timer_mode(), Some("persist"));

    sent.clear();
    sent.extend(sender.tick(100));

    assert_eq!(sent.len(), 1);
    assert_eq!(sent[0].payload, Bytes::from_static(b"A"));

    assert_eq!(sender.consecutive_retransmissions(), 0);
    assert_eq!(sender.persist_interval_ms(), 200);
    assert_eq!(sender.timer_timeout_ms(), Some(200));
    assert_eq!(sender.timer_mode(), Some("persist"));
}

#[test]
fn opening_window_after_probe_allows_normal_sending() {
    let mut sender = sender();
    let mut sent = Vec::new();

    sent.extend(sender.push());
    sender.receive(receiver_message(Some(1_001), 0));

    sender.outbound_mut().push(Bytes::from_static(b"ABC"));

    sent.clear();
    sent.extend(sender.push());

    assert_eq!(sent[0].payload, Bytes::from_static(b"A"));

    sender.receive(receiver_message(Some(1_002), 10));

    sent.clear();
    sent.extend(sender.push());

    assert_eq!(sent.len(), 1);
    assert_eq!(sent[0].payload, Bytes::from_static(b"BC"));
    assert_eq!(sender.timer_mode(), Some("retransmission"));
    assert_eq!(sender.consecutive_retransmissions(), 0);
}

#[test]
fn window_shrink_does_not_send_new_data_if_flight_exceeds_window() {
    let mut sender = sender();
    let mut sent = Vec::new();

    sent.extend(sender.push());
    sender.receive(receiver_message(Some(1_001), 5));

    sender.outbound_mut().push(Bytes::from_static(b"ABCDE"));

    sent.clear();
    sent.extend(sender.push());

    assert_eq!(sender.bytes_in_flight(), 5);

    sender.receive(receiver_message(Some(1_001), 0));

    sent.clear();
    sent.extend(sender.push());

    assert!(sent.is_empty());
    assert_eq!(sender.bytes_in_flight(), 5);
}

#[test]
fn rst_aborts_sender_and_clears_outstanding_queue() {
    let mut sender = sender();
    let mut sent = Vec::new();

    sent.extend(sender.push());

    sender.receive(TcpReceiverMessage {
        ackno: None,
        window_size: 0,
        rst: true,
    });

    assert!(sender.outbound().has_error());
    assert_eq!(sender.bytes_in_flight(), 0);
    assert_eq!(sender.outstanding_segments(), 0);
    assert_eq!(sender.timer_timeout_ms(), None);
}

#[test]
fn sender_finishes_after_fin_is_fully_acked() {
    let mut sender = sender();
    let mut sent = Vec::new();

    sent.extend(sender.push());
    sender.receive(receiver_message(Some(1_001), 10));

    sender.outbound_mut().close();

    sent.clear();
    sent.extend(sender.push());

    assert_eq!(sent.len(), 1);
    assert!(sent[0].fin);
    assert_eq!(sent[0].seqno, Wrap32::new(1_001));

    assert!(!sender.is_finished());

    sender.receive(receiver_message(Some(1_002), 10));

    assert!(sender.is_finished());
    assert_eq!(sender.bytes_in_flight(), 0);
    assert_eq!(sender.outstanding_segments(), 0);
}

#[test]
fn sequence_number_wraparound_is_handled() {
    let mut sender = TcpSender::new(64, Wrap32::new(u32::MAX - 1), config());

    let mut sent = Vec::new();

    sent.extend(sender.push());

    assert_eq!(sent[0].seqno, Wrap32::new(u32::MAX - 1));
    assert!(sent[0].syn);

    sender.receive(TcpReceiverMessage {
        ackno: Some(Wrap32::new(u32::MAX)),
        window_size: 10,
        rst: false,
    });

    sender.outbound_mut().push(Bytes::from_static(b"cat"));
    sender.outbound_mut().close();

    sent.clear();
    sent.extend(sender.push());

    assert_eq!(sent.len(), 1);
    assert_eq!(sent[0].seqno, Wrap32::new(u32::MAX));
    assert_eq!(sent[0].payload, Bytes::from_static(b"cat"));
    assert!(sent[0].fin);

    // SYN:
    //   seqno = u32::MAX - 1
    //
    // payload:
    //   c = u32::MAX
    //   a = 0
    //   t = 1
    //
    // FIN:
    //   2
    //
    // ACK after FIN:
    //   3
    sender.receive(TcpReceiverMessage {
        ackno: Some(Wrap32::new(3)),
        window_size: 10,
        rst: false,
    });

    assert!(sender.is_finished());
}

#[test]
fn default_config_suits_a_network() {
    let config = TcpSenderConfig::default();

    assert_eq!(config.initial_rto_ms, 1_000);
    assert_eq!(config.max_timer_interval_ms, 60_000);
    assert_eq!(config.max_payload_size, 1_000);
    assert_eq!(TcpSender::new(1, Wrap32::new(0), config).max_payload_size(), 1_000);
}

#[test]
fn payload_is_taken_over_the_chunks_in_which_it_was_written() {
    let mut sender = sender();

    sender.push();
    sender.receive(receiver_message(Some(1_001), 100));
    sender.outbound_mut().push(Bytes::from_static(b"ab"));
    sender.outbound_mut().push(Bytes::from_static(b"cdefg"));

    let sent = sender.push();

    assert_eq!(sent.len(), 2);
    assert_eq!(sent[0].payload, Bytes::from_static(b"abcd"));
    assert_eq!(sent[1].payload, Bytes::from_static(b"efg"));
    assert_eq!(sent[1].seqno, Wrap32::new(1_005));
    assert!(sender.push().is_empty());
}

#[test]
fn flight_is_not_more_than_the_window() {
    let mut sender = sender();

    sender.push();
    sender.receive(receiver_message(Some(1_001), 7));
    sender.outbound_mut().push(Bytes::from_static(b"abcdefghijkl"));
    sender.push();

    assert_eq!(sender.bytes_in_flight(), 7);
    assert_eq!(sender.outbound().peek(), Bytes::from_static(b"hijkl"));
    assert_eq!(sender.outstanding_segments(), 2);
}

#[test]
fn window_without_acknowledgement_restarts_the_timer_where_it_changes() {
    let mut sender = sender();

    sender.push();
    sender.tick(60);
    sender.receive(receiver_message(None, 1));
    assert!(sender.tick(40).is_some());

    sender.tick(150);
    sender.receive(receiver_message(None, 0));
    assert_eq!(sender.timer_mode(), Some("persist"));
    assert!(sender.tick(99).is_none());
    assert!(sender.tick(1).is_some());
    assert_eq!(sender.persist_interval_ms(), 200);
}

#[test]
fn reset_is_announced_in_what_is_sent() {
    let mut sender = sender();

    sender.outbound_mut().set_error();

    assert!(sender.make_empty_message().rst);
    assert!(sender.push()[0].rst);
    assert!(sender.oldest_outstanding().unwrap().message.rst);
}

#[test]
fn time_without_anything_outstanding_sends_nothing() {
    let mut sender = sender();

    assert!(sender.tick(1_000_000).is_none());
    assert_eq!(sender.timer_timeout_ms(), None);
    assert_eq!(sender.timer_mode(), None);
    assert!(sender.oldest_outstanding().is_none());
}

#[test]
fn what_is_sent_again_is_what_is_not_acknowledged() {
    let mut sender = sender();

    sender.push();
    sender.receive(receiver_message(Some(1_001), 100));
    sender.outbound_mut().push(Bytes::from_static(b"abcdefg"));
    sender.push();
    sender.receive(receiver_message(Some(1_007), 100));

    let again = sender.tick(100).unwrap();

    assert_eq!(again.payload, Bytes::from_static(b"g"));
    assert_eq!(again.seqno, Wrap32::new(1_007));
    assert_eq!(sender.snd_una(), 7);
    assert_eq!(sender.snd_nxt(), 8);
    assert_eq!(sender.isn(), Wrap32::new(1_000));
    assert!(sender.syn_sent());
}

#[test]
fn fin_is_kept_when_the_bytes_before_it_are_acknowledged() {
    let mut sender = sender();

    sender.push();
    sender.receive(receiver_message(Some(1_001), 100));
    sender.outbound_mut().push(Bytes::from_static(b"abc"));
    sender.outbound_mut().close();
    sender.push();
    sender.receive(receiver_message(Some(1_004), 100));

    let last = sender.oldest_outstanding().unwrap();

    assert!(last.message.fin);
    assert!(last.message.payload.is_empty());
    assert_eq!(last.absolute_start, 4);
    assert!(!sender.is_finished());
}

#[test]
fn every_message_carries_what_was_written_at_its_place() {
    let mut sender = sender();
    let mut written: Vec<u8> = Vec::new();
    let mut fresh: Vec<u8> = Vec::new();

    sender.push();
    for (data, ackno, window, ms) in [
        (&b"abcdef"[..], 1_001, 3, 120),
        (&b"gh"[..], 1_003, 0, 250),
        (&b"ijklmno"[..], 1_004, 9, 30),
        (&b""[..], 1_007, 9, 500),
        (&b"pq"[..], 1_002, 20, 90),
    ] {
        let accepted = sender.outbound_mut().push(Bytes::copy_from_slice(data));

        written.extend_from_slice(&data[..accepted]);
        sender.receive(receiver_message(Some(ackno), window));

        let first = sender.push();

        for message in &first {
            fresh.extend_from_slice(&message.payload);
        }
        for message in first.into_iter().chain(sender.tick(ms)) {
            let place = (message.seqno.raw_value() - 1_001) as usize;

            assert_eq!(message.payload, &written[place..place + message.payload.len()]);
        }

        let all = [&fresh[..], &sender.outbound().peek()[..]].concat();

        assert_eq!(all, written);
    }
    assert_eq!(written, b"abcdefghijklmnopq");
}
