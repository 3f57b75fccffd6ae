use bytes::Bytes;
use minnow_rs::tcp_connection::{TcpConnection, TcpConnectionConfig};
use minnow_rs::tcp_segment::TcpSegment;
use minnow_rs::tcp_sender::TcpSenderConfig;
use minnow_rs::wrapping_integers::Wrap32;

fn connection(local_port: u16, peer_port: u16, isn: u32) -> TcpConnection {
    TcpConnection::new(TcpConnectionConfig::new(
        local_port,
        peer_port,
        64,
        64,
        Wrap32::new(isn),
        TcpSenderConfig {
            initial_rto_ms: 100,
            max_timer_interval_ms: 1_000,
            max_payload_size: 4,
        },
    ))
}

/// Lets two connections exchange segments until neither has more to say.
fn settle(a: &mut TcpConnection, b: &mut TcpConnection, first: Vec<TcpSegment>) {
    let mut to_b = first;

    while !to_b.is_empty() {
        let mut to_a = Vec::new();

        for segment in to_b {
            to_a.extend(b.receive_segment(segment));
        }
        to_b = Vec::new();
        for segment in to_a {
            to_b.extend(a.receive_segment(segment));
        }
    }
}

fn pair() -> (TcpConnection, TcpConnection) {
    let mut a = connection(1, 2, u32::MAX - 1);
    let mut b = connection(2, 1, 500);
    let syn = a.connect();

    assert_eq!(syn.len(), 1);
    assert!(syn[0].header.syn);
    assert_eq!(syn[0].header.ackno, None);
    assert!(!a.is_established());
    settle(&mut a, &mut b, syn);
    (a, b)
}

#[test]
fn both_ends_are_established_after_the_handshake() {
    let (a, b) = pair();

    assert!(a.is_established());
    assert!(b.is_established());
    assert_eq!(a.local_port(), 1);
    assert_eq!(a.peer_port(), 2);
    assert_eq!(b.sender().bytes_in_flight(), 0);
}

#[test]
fn written_bytes_arrive_at_the_other_end() {
    let (mut a, mut b) = pair();
    let (accepted, segments) = a.write(Bytes::from_static(b"hello, other end"));

    assert_eq!(accepted, 16);
    settle(&mut a, &mut b, segments);
    assert_eq!(
        b.receiver().output().peek(),
        Bytes::from_static(b"hello, other end")
    );

    let end = a.close();
    settle(&mut a, &mut b, end);
    assert!(b.receiver().output().is_closed());
    assert!(a.is_finished());
    assert!(!b.is_finished());
}

#[test]
fn lost_segments_are_sent_again() {
    let (mut a, mut b) = pair();
    let (_, lost) = a.write(Bytes::from_static(b"abcdefg"));

    assert_eq!(lost.len(), 2);
    assert!(a.tick(99).is_empty());

    let again = a.tick(1);
    assert_eq!(again.len(), 1);
    assert_eq!(again[0].payload, Bytes::from_static(b"abcd"));
    settle(&mut a, &mut b, again);
    assert_eq!(b.receiver().output().peek(), Bytes::from_static(b"abcd"));

    let again = a.tick(100);
    settle(&mut a, &mut b, again);
    assert_eq!(b.receiver().output().peek(), Bytes::from_static(b"abcdefg"));
    assert_eq!(a.sender().bytes_in_flight(), 0);
}

#[test]
fn only_what_fits_is_taken() {
    let (mut a, _) = pair();
    let (accepted, _) = a.write(Bytes::from(vec![7; 100]));

    assert_eq!(accepted, 64);
}

#[test]
fn bare_acknowledgement_is_not_answered() {
    let (mut a, mut b) = pair();
    let (_, segments) = a.write(Bytes::from_static(b"x"));
    let answer = b.receive_segment(segments[0].clone());

    assert_eq!(answer.len(), 1);
    assert!(answer[0].payload.is_empty());
    assert!(a.receive_segment(answer[0].clone()).is_empty());

    // The same segment once more is acknowledged once more.
    assert_eq!(b.receive_segment(segments[0].clone()).len(), 1);
    assert_eq!(b.receiver().output().peek(), Bytes::from_static(b"x"));
}

#[test]
fn reset_ends_both_directions() {
    let (mut a, mut b) = pair();
    let (_, mut segments) = a.write(Bytes::from_static(b"x"));

    segments[0].header.rst = true;
    assert!(b.receive_segment(segments[0].clone()).is_empty());
    assert!(b.receiver().output().has_error());
    assert!(b.sender().outbound().has_error());
    assert_eq!(b.sender().outstanding_segments(), 0);
}
