use bytes::Bytes;
use minnow_rs::byte_stream::ByteStream;

#[test]
fn new_stream_is_empty() {
    let stream = ByteStream::new(5);

    assert_eq!(stream.available_capacity(), 5);
    assert_eq!(stream.bytes_buffered(), 0);
    assert_eq!(stream.bytes_pushed(), 0);
    assert_eq!(stream.bytes_popped(), 0);
    assert!(!stream.is_closed());
    assert!(!stream.is_finished());
    assert!(!stream.has_error());
}

#[test]
fn push_and_peek() {
    let mut stream = ByteStream::new(5);

    assert_eq!(stream.push(Bytes::from_static(b"abc")), 3);
    assert_eq!(stream.peek(), Bytes::from_static(b"abc"));
    assert_eq!(stream.bytes_buffered(), 3);
    assert_eq!(stream.available_capacity(), 2);
    assert_eq!(stream.bytes_pushed(), 3);
}

#[test]
fn push_respects_capacity() {
    let mut stream = ByteStream::new(4);

    assert_eq!(stream.push(Bytes::from_static(b"abcdef")), 4);
    assert_eq!(stream.peek(), Bytes::from_static(b"abcd"));
    assert_eq!(stream.bytes_buffered(), 4);
    assert_eq!(stream.available_capacity(), 0);
    assert_eq!(stream.bytes_pushed(), 4);
}

#[test]
fn pop_releases_capacity() {
    let mut stream = ByteStream::new(4);

    assert_eq!(stream.push(Bytes::from_static(b"abcd")), 4);

    stream.pop(2);

    assert_eq!(stream.peek(), Bytes::from_static(b"cd"));
    assert_eq!(stream.bytes_buffered(), 2);
    assert_eq!(stream.available_capacity(), 2);
    assert_eq!(stream.bytes_popped(), 2);

    assert_eq!(stream.push(Bytes::from_static(b"XY")), 2);
    assert_eq!(stream.bytes_buffered(), 4);
}

#[test]
fn close_rejects_new_data() {
    let mut stream = ByteStream::new(4);

    stream.close();

    assert_eq!(stream.push(Bytes::from_static(b"abc")), 0);
    assert_eq!(stream.bytes_buffered(), 0);
    assert!(stream.is_closed());
    assert!(stream.is_finished());
}

#[test]
fn closed_stream_finishes_after_reader_drains_buffer() {
    let mut stream = ByteStream::new(4);

    stream.push(Bytes::from_static(b"abc"));
    stream.close();

    assert!(stream.is_closed());
    assert!(!stream.is_finished());

    stream.pop(3);

    assert!(stream.is_finished());
}

#[test]
fn pop_more_than_buffered_is_safe() {
    let mut stream = ByteStream::new(4);

    stream.push(Bytes::from_static(b"ab"));
    stream.pop(100);

    assert_eq!(stream.bytes_buffered(), 0);
    assert_eq!(stream.bytes_popped(), 2);
    assert_eq!(stream.available_capacity(), 4);
}

#[test]
fn tiny_capacity_can_carry_a_long_stream() {
    let mut stream = ByteStream::new(1);

    for byte in b"hello world" {
        assert_eq!(stream.push(Bytes::copy_from_slice(&[*byte])), 1);
        assert_eq!(stream.peek(), Bytes::copy_from_slice(&[*byte]));
        stream.pop(1);
    }

    assert_eq!(stream.bytes_pushed(), 11);
    assert_eq!(stream.bytes_popped(), 11);
    assert_eq!(stream.bytes_buffered(), 0);
    assert_eq!(stream.available_capacity(), 1);
}

#[test]
fn error_state_rejects_new_data() {
    let mut stream = ByteStream::new(5);

    stream.push(Bytes::from_static(b"ab"));
    stream.set_error();

    assert!(stream.has_error());
    assert_eq!(stream.push(Bytes::from_static(b"cd")), 0);
    assert_eq!(stream.bytes_buffered(), 2);
}

#[test]
fn push_and_pop_move_chunks() {
    let mut stream = ByteStream::new(8);

    assert_eq!(stream.push(Bytes::from_static(b"abcdef")), 6);

    let first = stream.pop(2);
    let second = stream.pop(10);

    assert_eq!(first, Bytes::from_static(b"ab"));
    assert_eq!(second, Bytes::from_static(b"cdef"));
    assert_eq!(stream.bytes_buffered(), 0);
    assert_eq!(stream.bytes_pushed(), 6);
    assert_eq!(stream.bytes_popped(), 6);
}

#[test]
fn push_respects_capacity_without_copying_past_window() {
    let mut stream = ByteStream::new(3);

    assert_eq!(stream.push(Bytes::from_static(b"abcdef")), 3);
    assert_eq!(stream.peek(), Bytes::from_static(b"abc"));
    assert_eq!(stream.bytes_buffered(), 3);
    assert_eq!(stream.available_capacity(), 0);
}

#[test]
fn peek_and_pop_reach_over_chunks() {
    let mut stream = ByteStream::new(10);

    stream.push(Bytes::from_static(b"abc"));
    stream.push(Bytes::from_static(b"de"));
    stream.push(Bytes::from_static(b"fgh"));

    assert_eq!(stream.peek(), Bytes::from_static(b"abcdefgh"));
    assert_eq!(stream.pop(4), Bytes::from_static(b"abcd"));
    assert_eq!(stream.peek(), Bytes::from_static(b"efgh"));
    assert_eq!(stream.pop(1), Bytes::from_static(b"e"));
    assert_eq!(stream.pop(3), Bytes::from_static(b"fgh"));
    assert_eq!(stream.pop(3), Bytes::new());
    assert_eq!(stream.bytes_popped(), 8);
}

#[test]
fn chunks_are_the_writes_that_are_not_read() {
    let mut stream = ByteStream::new(10);

    assert_eq!(stream.peek(), Bytes::new());
    assert_eq!(stream.chunks().count(), 0);

    stream.push(Bytes::from_static(b"abc"));
    stream.push(Bytes::new());
    stream.push(Bytes::from_static(b"de"));

    let chunks: Vec<&Bytes> = stream.chunks().collect();

    assert_eq!(chunks.len(), 2);
    assert_eq!(chunks[0], &Bytes::from_static(b"abc"));
    assert_eq!(chunks[1], &Bytes::from_static(b"de"));

    stream.pop(1);

    let chunks: Vec<&Bytes> = stream.chunks().collect();

    assert_eq!(chunks[0], &Bytes::from_static(b"bc"));
}

#[test]
fn two_reads_are_one_longer_read() {
    let mut twice = ByteStream::new(8);
    let mut once = ByteStream::new(8);

    twice.push(Bytes::from_static(b"abcdefgh"));
    once.push(Bytes::from_static(b"abcdefgh"));

    let first = twice.pop(3);
    let second = twice.pop(2);
    let both = once.pop(5);

    assert_eq!([&first[..], &second[..]].concat(), both.to_vec());
    assert_eq!(twice.peek(), once.peek());
    assert_eq!(twice.available_capacity(), once.available_capacity());
}

#[test]
fn capacity_is_what_the_stream_was_made_with() {
    let mut stream = ByteStream::new(3);

    stream.push(Bytes::from_static(b"abcd"));
    assert_eq!(stream.capacity(), 3);
    assert_eq!(stream.available_capacity(), 0);
}

#[test]
fn failed_stream_is_not_closed() {
    let mut stream = ByteStream::new(3);

    stream.set_error();
    assert!(stream.has_error());
    assert!(!stream.is_closed());
    assert!(!stream.is_finished());
}

#[test]
fn every_byte_is_read_or_buffered() {
    let mut stream = ByteStream::new(5);
    let mut taken: Vec<u8> = Vec::new();
    let mut read: Vec<u8> = Vec::new();

    for (data, len) in [(&b"abc"[..], 1), (&b"defgh"[..], 0), (&b"ij"[..], 4), (&b"klmno"[..], 2)] {
        let accepted = stream.push(Bytes::copy_from_slice(data));

        taken.extend_from_slice(&data[..accepted]);

        let popped = stream.pop(len);

        assert!(popped.len() <= len);
        read.extend_from_slice(&popped);

        let both = [&read[..], &stream.peek()[..]].concat();

        assert_eq!(both, taken);
        assert_eq!(
            stream.bytes_pushed() - stream.bytes_popped(),
            stream.bytes_buffered() as u64
        );
        assert!(stream.bytes_buffered() <= 5);
    }
    assert_eq!(taken, b"abcdefklmn");
    assert_eq!(read, b"abcdefk");

    stream.close();
    stream.set_error();

    assert_eq!(stream.push(Bytes::from_static(b"x")), 0);
    assert_eq!(stream.pop(2), Bytes::from_static(b"lm"));
    assert_eq!(stream.pop(2), Bytes::from_static(b"n"));
    assert_eq!(stream.pop(2), Bytes::new());
}
