use bytes::Bytes;
use minnow_rs::reassembler::{Reassembler, ReassemblerError};

#[test]
fn ordered_insert_is_written_immediately() {
    let mut reassembler = Reassembler::new(10);

    reassembler.insert(0, b"abc", false);

    assert_eq!(reassembler.output().peek(), Bytes::from_static(b"abc"));
    assert_eq!(reassembler.output().bytes_pushed(), 3);
    assert_eq!(reassembler.bytes_pending(), 0);
}

#[test]
fn out_of_order_insert_waits_for_missing_prefix() {
    let mut reassembler = Reassembler::new(10);

    reassembler.insert(3, b"def", false);

    assert_eq!(reassembler.output().bytes_buffered(), 0);
    assert_eq!(reassembler.bytes_pending(), 3);

    reassembler.insert(0, b"abc", false);

    assert_eq!(reassembler.output().peek(), Bytes::from_static(b"abcdef"));
    assert_eq!(reassembler.output().bytes_pushed(), 6);
    assert_eq!(reassembler.bytes_pending(), 0);
}

#[test]
fn duplicate_segment_is_stored_once() {
    let mut reassembler = Reassembler::new(10);

    reassembler.insert(3, b"def", false);
    reassembler.insert(3, b"def", false);

    assert_eq!(reassembler.bytes_pending(), 3);
}

#[test]
fn overlapping_insert_keeps_only_missing_ranges() {
    let mut reassembler = Reassembler::new(20);

    reassembler.insert(4, b"ef", false);
    reassembler.insert(2, b"cdefgh", false);

    assert_eq!(reassembler.bytes_pending(), 6);

    reassembler.insert(0, b"ab", false);

    assert_eq!(reassembler.output().peek(), Bytes::from_static(b"abcdefgh"));
    assert_eq!(reassembler.bytes_pending(), 0);
}

#[test]
fn adjacent_segments_flush_in_order() {
    let mut reassembler = Reassembler::new(20);

    reassembler.insert(5, b"fgh", false);
    reassembler.insert(8, b"ijk", false);

    assert_eq!(reassembler.bytes_pending(), 6);

    reassembler.insert(0, b"abcde", false);

    assert_eq!(reassembler.output().peek(), Bytes::from_static(b"abcdefghijk"));
    assert_eq!(reassembler.bytes_pending(), 0);
}

#[test]
fn earlier_already_assembled_bytes_are_discarded() {
    let mut reassembler = Reassembler::new(10);

    reassembler.insert(0, b"abcd", false);
    reassembler.insert(0, b"abcdef", false);

    assert_eq!(reassembler.output().peek(), Bytes::from_static(b"abcdef"));
    assert_eq!(reassembler.output().bytes_pushed(), 6);
    assert_eq!(reassembler.bytes_pending(), 0);
}

#[test]
fn bytes_beyond_capacity_window_are_discarded() {
    let mut reassembler = Reassembler::new(5);

    reassembler.insert(0, b"abcdefghij", false);

    assert_eq!(reassembler.output().peek(), Bytes::from_static(b"abcde"));
    assert_eq!(reassembler.output().bytes_pushed(), 5);
    assert_eq!(reassembler.bytes_pending(), 0);
}

#[test]
fn future_bytes_beyond_window_are_not_saved() {
    let mut reassembler = Reassembler::new(5);

    reassembler.insert(100, b"xyz", false);

    assert_eq!(reassembler.output().bytes_buffered(), 0);
    assert_eq!(reassembler.bytes_pending(), 0);
}

#[test]
fn reader_pop_advances_the_acceptable_window() {
    let mut reassembler = Reassembler::new(5);

    reassembler.insert(0, b"abcde", false);
    reassembler.output_mut().pop(3);
    reassembler.insert(5, b"fgh", false);

    assert_eq!(reassembler.output().bytes_pushed(), 8);
    assert_eq!(reassembler.output().bytes_popped(), 3);
    assert_eq!(reassembler.output().bytes_buffered(), 5);
}

#[test]
fn final_substring_closes_output_after_complete_assembly() {
    let mut reassembler = Reassembler::new(10);

    reassembler.insert(3, b"def", true);

    assert!(!reassembler.output().is_closed());

    reassembler.insert(0, b"abc", false);

    assert_eq!(reassembler.output().peek(), Bytes::from_static(b"abcdef"));
    assert!(reassembler.output().is_closed());
    assert!(!reassembler.output().is_finished());

    reassembler.output_mut().pop(6);

    assert!(reassembler.output().is_finished());
}

#[test]
fn empty_final_segment_can_close_an_empty_stream() {
    let mut reassembler = Reassembler::new(10);

    reassembler.insert(0, b"", true);

    assert!(reassembler.output().is_closed());
    assert!(reassembler.output().is_finished());
}

#[test]
fn zero_capacity_discards_everything() {
    let mut reassembler = Reassembler::new(0);

    reassembler.insert(0, b"abc", false);

    assert_eq!(reassembler.output().bytes_pushed(), 0);
    assert_eq!(reassembler.bytes_pending(), 0);
}

#[test]
fn segment_is_clipped_on_both_sides() {
    let mut reassembler = Reassembler::new(5);

    reassembler.insert(0, b"abc", false);
    reassembler.output_mut().pop(2);

    // Current acceptable window: [2, 7)
    // Already assembled: [0, 3)
    // New fragment: [1, 9)
    // Newly useful bytes: [3, 7)
    reassembler.insert(1, b"bcdefghi", false);

    assert_eq!(reassembler.output().bytes_pushed(), 7);
    assert_eq!(reassembler.output().bytes_buffered(), 5);
}

#[test]
fn reverse_single_byte_segments_are_reassembled() {
    let mut reassembler = Reassembler::new(10);

    for index in (0..10).rev() {
        let byte = [b'a' + index as u8];
        reassembler.insert(index, &byte, false);
    }

    assert_eq!(reassembler.output().peek(), Bytes::from_static(b"abcdefghij"));
    assert_eq!(reassembler.bytes_pending(), 0);
}

#[test]
fn combined_storage_never_exceeds_capacity() {
    let mut reassembler = Reassembler::new(10);

    reassembler.insert(5, b"fghij", false);

    assert!(
        reassembler.output().bytes_buffered() + reassembler.bytes_pending()
            <= reassembler.output().capacity()
    );

    reassembler.insert(0, b"abcdefghij", false);

    assert_eq!(reassembler.output().peek(), Bytes::from_static(b"abcdefghij"));
    assert_eq!(reassembler.bytes_pending(), 0);

    assert!(
        reassembler.output().bytes_buffered() + reassembler.bytes_pending()
            <= reassembler.output().capacity()
    );
}

#[test]
fn inconsistent_eof_is_rejected() {
    let mut reassembler = Reassembler::new(10);

    assert!(reassembler.try_insert(3, b"def", true).is_ok());

    let error = reassembler
        .try_insert(4, b"def", true)
        .expect_err("conflicting EOF must be rejected");

    assert_eq!(
        error,
        ReassemblerError::InconsistentEof {
            existing: 6,
            received: 7,
        }
    );
}

#[test]
fn bytes_beyond_known_eof_are_rejected() {
    let mut reassembler = Reassembler::new(10);

    assert!(reassembler.try_insert(3, b"def", true).is_ok());

    let error = reassembler
        .try_insert(5, b"fg", false)
        .expect_err("bytes beyond EOF must be rejected");

    assert_eq!(
        error,
        ReassemblerError::SegmentBeyondEof {
            eof: 6,
            segment_start: 5,
            segment_end: 7,
        }
    );
}

#[test]
fn index_overflow_is_rejected() {
    let mut reassembler = Reassembler::new(10);

    assert_eq!(
        reassembler.try_insert(u64::MAX, b"ab", false),
        Err(ReassemblerError::IndexOverflow)
    );
    assert!(reassembler.try_insert(u64::MAX, b"", false).is_ok());
    assert_eq!(reassembler.bytes_pending(), 0);
}

#[test]
fn end_before_what_waits_is_rejected() {
    let mut reassembler = Reassembler::new(20);

    reassembler.insert(4, b"ef", false);
    reassembler.insert(8, b"ij", false);

    assert_eq!(
        reassembler.try_insert(2, b"c", true),
        Err(ReassemblerError::BufferedDataBeyondEof {
            eof: 3,
            buffered_end: 6,
        })
    );
    assert_eq!(
        reassembler.try_insert(6, b"gh", true),
        Err(ReassemblerError::BufferedDataBeyondEof {
            eof: 8,
            buffered_end: 10,
        })
    );
    assert_eq!(reassembler.bytes_pending(), 4);
}

#[test]
fn end_before_what_was_put_together_is_rejected() {
    let mut reassembler = Reassembler::new(20);

    reassembler.insert(0, b"abcdef", false);

    assert_eq!(
        reassembler.try_insert(0, b"abc", true),
        Err(ReassemblerError::BufferedDataBeyondEof {
            eof: 3,
            buffered_end: 6,
        })
    );
    assert!(!reassembler.output().is_closed());
}

#[test]
fn errors_tell_what_is_wrong() {
    assert_eq!(
        ReassemblerError::IndexOverflow.to_string(),
        "reassembler index calculation overflowed"
    );
    assert_eq!(
        ReassemblerError::InconsistentEof {
            existing: 6,
            received: 17,
        }
        .to_string(),
        "inconsistent EOF indices: existing=6, received=17"
    );
    assert_eq!(
        ReassemblerError::SegmentBeyondEof {
            eof: 6,
            segment_start: 5,
            segment_end: 1234567890,
        }
        .to_string(),
        "segment [5, 1234567890) extends beyond EOF 6"
    );
    assert_eq!(
        ReassemblerError::BufferedDataBeyondEof {
            eof: 0,
            buffered_end: u64::MAX,
        }
        .to_string(),
        "buffered data ends at 18446744073709551615, beyond EOF 0"
    );
}

#[test]
fn what_waits_stays_where_a_later_fragment_differs() {
    let mut reassembler = Reassembler::new(20);

    reassembler.insert(4, b"ef", false);
    reassembler.insert(2, b"CDEFGH", false);
    reassembler.insert(0, b"ab", false);

    assert_eq!(reassembler.output().peek(), Bytes::from_static(b"abCDefGH"));
}

#[test]
fn what_follows_on_the_output_counts_over_what_waits() {
    let mut reassembler = Reassembler::new(20);

    reassembler.insert(2, b"cd", false);
    reassembler.insert(0, b"ABC", false);

    assert_eq!(reassembler.output().peek(), Bytes::from_static(b"ABCd"));
}

#[test]
fn several_gaps_are_filled_at_once() {
    let mut reassembler = Reassembler::new(26);

    reassembler.insert(3, b"d", false);
    reassembler.insert(6, b"gh", false);
    reassembler.insert(11, b"l", false);
    reassembler.insert(1, b"bcdefghijklm", false);

    assert_eq!(reassembler.bytes_pending(), 12);

    reassembler.insert(0, b"a", false);

    assert_eq!(reassembler.output().peek(), Bytes::from_static(b"abcdefghijklm"));
    assert_eq!(reassembler.bytes_pending(), 0);
}


#[test]
fn closed_output_loses_what_follows_on_it_and_keeps_the_rest() {
    let mut reassembler = Reassembler::new(10);

    reassembler.output_mut().close();
    reassembler.insert(0, b"abc", false);

    assert_eq!(reassembler.output().bytes_pushed(), 0);
    assert_eq!(reassembler.bytes_pending(), 0);

    reassembler.insert(2, b"cd", false);

    assert_eq!(reassembler.bytes_pending(), 2);

    reassembler.insert(0, b"ab", false);

    assert_eq!(reassembler.output().bytes_pushed(), 0);
    assert_eq!(reassembler.bytes_pending(), 2);
}

#[test]
fn the_order_of_fragments_does_not_matter() {
    let fragments: [(u64, &[u8]); 5] =
        [(0, b"ab"), (1, b"bcd"), (4, b"efg"), (3, b"de"), (6, b"gh")];
    let orders = [
        [0, 1, 2, 3, 4],
        [4, 3, 2, 1, 0],
        [2, 0, 4, 1, 3],
        [3, 1, 4, 0, 2],
    ];

    for order in orders {
        let mut reassembler = Reassembler::new(10);

        for place in order {
            let (first, data) = fragments[place];
            reassembler.insert(first, data, first == 6);
            reassembler.insert(first, data, false);
        }

        assert_eq!(reassembler.output().peek(), Bytes::from_static(b"abcdefgh"));
        assert!(reassembler.output().is_closed());
        assert_eq!(reassembler.bytes_pending(), 0);
    }
}

#[test]
fn each_piece_written_is_a_chunk() {
    let mut reassembler = Reassembler::new(20);

    reassembler.insert(3, b"def", false);
    reassembler.insert(8, b"ij", false);
    reassembler.insert(0, b"abcd", false);

    let chunks: Vec<&Bytes> = reassembler.output().chunks().collect();

    assert_eq!(chunks, [&b"abcd"[..], &b"ef"[..]]);

    reassembler.insert(6, b"gh", false);

    let chunks: Vec<&Bytes> = reassembler.output().chunks().collect();

    assert_eq!(chunks, [&b"abcd"[..], &b"ef"[..], &b"gh"[..], &b"ij"[..]]);
}

#[test]
fn errors_are_displayed() {
    let error = ReassemblerError::InconsistentEof {
        existing: 6,
        received: 17,
    };
    let boxed: Box<dyn std::error::Error> = Box::new(error);

    assert_eq!(format!("{error}"), "inconsistent EOF indices: existing=6, received=17");
    assert_eq!(boxed.to_string(), error.to_string());
}

#[test]
fn every_history_tells_the_stream() {
    let stream = b"abcdefghijklmnop";
    let capacity = 6;
    let mut reassembler = Reassembler::new(capacity);
    let mut accepted = [false; 16];
    let mut read: Vec<u8> = Vec::new();
    let mut ended = false;

    for (first, end, len) in [
        (4, 9, 0),
        (1, 3, 0),
        (0, 2, 2),
        (12, 16, 0),
        (2, 5, 3),
        (7, 16, 1),
        (6, 7, 9),
        (10, 14, 2),
        (9, 16, 5),
        (15, 16, 1),
        (3, 12, 4),
    ] {
        let room = read.len() + capacity;

        for index in first..end {
            accepted[index] = accepted[index] || index < room;
        }
        ended = ended || end == stream.len();

        let last = end == stream.len();

        assert_eq!(reassembler.try_insert(first as u64, &stream[first..end], last), Ok(()));

        let pushed = accepted.iter().position(|known| !known).unwrap_or(16);
        let waiting = accepted[pushed..].iter().filter(|known| **known).count();
        let held = [&read[..], &reassembler.output().peek()[..]].concat();

        assert_eq!(reassembler.output().bytes_pushed(), pushed as u64);
        assert_eq!(held, &stream[..pushed]);
        assert_eq!(reassembler.bytes_pending(), waiting);
        assert_eq!(reassembler.output().is_closed(), ended && pushed == 16);

        read.extend_from_slice(&reassembler.output_mut().pop(len));
    }
    assert_eq!(read, stream);
    assert!(reassembler.output().is_finished());
}
