//! Puts fragments of a byte stream, which may come in any order and overlap,
//! together into the stream.
use crate::buffer::{contents, slice};
use crate::byte_stream::{ByteStream, StreamView};
use crate::text::{decimal, push_decimal, taken};
use bytes::Bytes;
use std::collections::VecDeque;
use vstd::prelude::*;
use vstd::set_lib::{lemma_int_range, lemma_set_disjoint_lens, set_int_range};
use vstd::string::StringExecFns;

verus! {

/// Why a fragment does not belong to the stream.
#[derive(Debug, Clone, Copy, PartialEq, Eq, Structural)]
pub enum ReassemblerError {
    IndexOverflow,
    InconsistentEof { existing: u64, received: u64 },
    SegmentBeyondEof { eof: u64, segment_start: u64, segment_end: u64 },
    BufferedDataBeyondEof { eof: u64, buffered_end: u64 },
}

impl ReassemblerError {
    /// What the error says.
    pub open spec fn text(self) -> Seq<char> {
        match self {
            ReassemblerError::IndexOverflow => "reassembler index calculation overflowed"@,
            ReassemblerError::InconsistentEof { existing, received } =>
                "inconsistent EOF indices: existing="@ + decimal(existing as nat) + ", received="@
                    + decimal(received as nat),
            ReassemblerError::SegmentBeyondEof { eof, segment_start, segment_end } => "segment ["@
                + decimal(segment_start as nat) + ", "@ + decimal(segment_end as nat)
                + ") extends beyond EOF "@ + decimal(eof as nat),
            ReassemblerError::BufferedDataBeyondEof { eof, buffered_end } =>
                "buffered data ends at "@ + decimal(buffered_end as nat) + ", beyond EOF "@
                    + decimal(eof as nat),
        }
    }

    /// What the error says.
    pub fn to_string(&self) -> (text: String)
        ensures
            text@ == self.text(),
    {
        match *self {
            Self::IndexOverflow => String::from_str("reassembler index calculation overflowed"),
            Self::InconsistentEof { existing, received } => {
                let mut text = String::from_str("inconsistent EOF indices: existing=");
                push_decimal(&mut text, existing);
                text.append(", received=");
                push_decimal(&mut text, received);
                text
            },
            Self::SegmentBeyondEof { eof, segment_start, segment_end } => {
                let mut text = String::from_str("segment [");
                push_decimal(&mut text, segment_start);
                text.append(", ");
                push_decimal(&mut text, segment_end);
                text.append(") extends beyond EOF ");
                push_decimal(&mut text, eof);
                text
            },
            Self::BufferedDataBeyondEof { eof, buffered_end } => {
                let mut text = String::from_str("buffered data ends at ");
                push_decimal(&mut text, buffered_end);
                text.append(", beyond EOF ");
                push_decimal(&mut text, eof);
                text
            },
        }
    }
}

impl std::fmt::Display for ReassemblerError {
    fn fmt(&self, f: &mut std::fmt::Formatter<'_>) -> (result: std::fmt::Result)
        ensures
            result is Ok ==> taken(*final(f)) == taken(*old(f)) + self.text(),
    {
        f.write_str(self.to_string().as_str())
    }
}

impl std::error::Error for ReassemblerError {

}

/// Consecutive bytes of the stream, from the index `start` on.
#[verifier::ext_equal]
pub struct FragmentView {
    pub start: int,
    pub data: Seq<u8>,
}

impl FragmentView {
    /// The index behind the last byte.
    pub open spec fn end(self) -> int {
        self.start + self.data.len()
    }
}

/// The byte that some fragment holds for an index of the stream.
pub open spec fn byte_at(fragments: Seq<FragmentView>, index: int) -> Option<u8>
    decreases fragments.len(),
{
    if fragments.len() == 0 {
        None
    } else if fragments[0].start <= index < fragments[0].end() {
        Some(fragments[0].data[index - fragments[0].start])
    } else {
        byte_at(fragments.drop_first(), index)
    }
}

/// How many bytes the fragments hold.
pub open spec fn total_len(fragments: Seq<FragmentView>) -> nat
    decreases fragments.len(),
{
    if fragments.len() == 0 {
        0
    } else {
        fragments[0].data.len() + total_len(fragments.drop_first())
    }
}

/// The fragments are not empty, stand in order and do not overlap.
pub open spec fn in_order(fragments: Seq<FragmentView>) -> bool {
    &&& forall|i: int| 0 <= i < fragments.len() ==> (#[trigger] fragments[i]).data.len() > 0
    &&& forall|i: int, j: int|
        0 <= i < j < fragments.len() ==> (#[trigger] fragments[i]).end() <= (
        #[trigger] fragments[j]).start
}

/// All fragments lie between two indices.
pub open spec fn within(fragments: Seq<FragmentView>, low: int, high: int) -> bool {
    forall|i: int|
        0 <= i < fragments.len() ==> low <= (#[trigger] fragments[i]).start && fragments[i].end()
            <= high
}

/// The fragments with those bytes of `data`, which starts at the index `start`,
/// that none of them holds: one more fragment for each gap.
pub open spec fn filled(fragments: Seq<FragmentView>, start: int, data: Seq<u8>) -> Seq<
    FragmentView,
>
    decreases fragments.len(),
{
    let end = start + data.len();
    if data.len() == 0 {
        fragments
    } else if fragments.len() == 0 {
        seq![FragmentView { start, data }]
    } else {
        let next = fragments[0];
        let rest = fragments.drop_first();
        if end <= next.start {
            seq![FragmentView { start, data }] + fragments
        } else if next.end() <= start {
            seq![next] + filled(rest, start, data)
        } else {
            let gap = if start < next.start {
                seq![FragmentView { start, data: data.take(next.start - start) }]
            } else {
                Seq::empty()
            };
            let behind = if next.end() < end {
                next.end()
            } else {
                end
            };
            gap + seq![next] + filled(rest, behind, data.skip(behind - start))
        }
    }
}

/// The fragments and the output once everything that follows on the output
/// without a gap was written to it.
pub open spec fn flushed(fragments: Seq<FragmentView>, output: StreamView) -> (
    Seq<FragmentView>,
    StreamView,
)
    decreases fragments.len(),
{
    if fragments.len() == 0 || fragments[0].start > output.pushed() {
        (fragments, output)
    } else {
        let next = fragments[0];
        let rest = fragments.drop_first();
        if next.end() <= output.pushed() {
            flushed(rest, output)
        } else {
            let data = next.data.skip(output.pushed() - next.start);
            let accepted = output.accepted(data.len());
            if accepted == data.len() {
                flushed(rest, output.after_push(data))
            } else {
                let left = FragmentView {
                    start: (output.pushed() + accepted) as int,
                    data: data.skip(accepted as int),
                };
                (seq![left] + rest, output.after_push(data))
            }
        }
    }
}

/// The end of the first fragment that reaches beyond `eof`.
pub open spec fn end_beyond(fragments: Seq<FragmentView>, eof: int) -> Option<int>
    decreases fragments.len(),
{
    if fragments.len() == 0 {
        None
    } else if fragments[0].end() > eof {
        Some(fragments[0].end())
    } else {
        end_beyond(fragments.drop_first(), eof)
    }
}

/// What a reassembler is: the stream put together so far, the fragments that
/// wait for bytes in front of them, and where the stream ends, once known.
#[verifier::ext_equal]
pub struct ReassemblerView {
    pub output: StreamView,
    pub fragments: Seq<FragmentView>,
    pub eof: Option<u64>,
}

impl ReassemblerView {
    /// A reassembler into which nothing came.
    pub open spec fn fresh(capacity: nat) -> ReassemblerView {
        ReassemblerView {
            output: StreamView::fresh(capacity),
            fragments: Seq::empty(),
            eof: None,
        }
    }

    /// The byte that waits at an index of the stream.
    pub open spec fn pending(self, index: int) -> Option<u8> {
        byte_at(self.fragments, index)
    }

    /// The index behind the last byte for which there is room.
    pub open spec fn window_end(self) -> int {
        if self.output.popped + self.output.capacity <= u64::MAX {
            (self.output.popped + self.output.capacity) as int
        } else {
            u64::MAX as int
        }
    }

    /// The waiting fragments stand in order and apart from each other, between
    /// what was put together and the end of the window, and nothing reaches
    /// beyond the end of the stream. What can be written has been written, and
    /// a complete stream is closed.
    pub open spec fn valid(self) -> bool {
        &&& self.output.buffered.len() <= self.output.capacity
        &&& self.output.pushed() <= u64::MAX
        &&& in_order(self.fragments)
        &&& within(self.fragments, self.output.pushed() as int, self.window_end())
        &&& self.eof matches Some(eof) ==> {
            &&& self.output.pushed() <= eof
            &&& within(self.fragments, self.output.pushed() as int, eof as int)
            &&& self.output.pushed() == eof ==> self.output.closed
        }
        &&& self.output.is_open() && self.fragments.len() > 0 ==> self.fragments[0].start
            > self.output.pushed()
    }

    /// Why a fragment of `len` bytes at the index `first` is refused, if it is.
    pub open spec fn rejection(self, first: u64, len: nat, last: bool) -> Option<
        ReassemblerError,
    > {
        let end = first + len;
        if end > u64::MAX {
            Some(ReassemblerError::IndexOverflow)
        } else if last && self.eof is None && self.output.pushed() > end {
            Some(
                ReassemblerError::BufferedDataBeyondEof {
                    eof: end as u64,
                    buffered_end: self.output.pushed() as u64,
                },
            )
        } else if last && self.eof is None && end_beyond(self.fragments, end as int) is Some {
            Some(
                ReassemblerError::BufferedDataBeyondEof {
                    eof: end as u64,
                    buffered_end: end_beyond(self.fragments, end as int)->Some_0 as u64,
                },
            )
        } else if last && self.eof is Some && self.eof->Some_0 != end {
            Some(
                ReassemblerError::InconsistentEof {
                    existing: self.eof->Some_0,
                    received: end as u64,
                },
            )
        } else if !last && self.eof is Some && end > self.eof->Some_0 {
            Some(
                ReassemblerError::SegmentBeyondEof {
                    eof: self.eof->Some_0,
                    segment_start: first,
                    segment_end: end as u64,
                },
            )
        } else {
            None
        }
    }

    /// The first index of a fragment that is of use: what was put together
    /// already is not.
    pub open spec fn clip_start(self, first: u64) -> int {
        if first >= self.output.pushed() {
            first as int
        } else {
            self.output.pushed() as int
        }
    }

    /// The index behind the last one of a fragment for which there is room.
    pub open spec fn clip_end(self, first: u64, len: nat) -> int {
        if first + len <= self.window_end() {
            first + len
        } else {
            self.window_end()
        }
    }

    /// Where the stream ends, once the fragment is in.
    pub open spec fn eof_after(self, first: u64, len: nat, last: bool) -> Option<u64> {
        if last {
            Some((first + len) as u64)
        } else {
            self.eof
        }
    }

    /// The reassembler once the fragment is in.
    pub open spec fn after_insert(self, first: u64, data: Seq<u8>, last: bool) -> ReassemblerView {
        let eof = self.eof_after(first, data.len(), last);
        let start = self.clip_start(first);
        let end = self.clip_end(first, data.len());
        let clipped = data.subrange(start - first, end - first);
        let (fragments, output) = if start >= end {
            (self.fragments, self.output)
        } else if start == self.output.pushed() {
            flushed(self.fragments, self.output.after_push(clipped))
        } else {
            flushed(filled(self.fragments, start, clipped), self.output)
        };
        ReassemblerView {
            output: StreamView {
                closed: output.closed || eof == Some(output.pushed() as u64),
                ..output
            },
            fragments,
            eof,
        }
    }

    /// The byte known for an index once the fragment is in, whether written or
    /// waiting. Where the fragment follows directly on the output its own bytes
    /// count, otherwise those that were there before.
    pub open spec fn known(self, first: u64, data: Seq<u8>, index: int) -> Option<u8> {
        let start = self.clip_start(first);
        let fresh = start <= index < self.clip_end(first, data.len());
        if fresh && start == self.output.pushed() {
            Some(data[index - first])
        } else if self.pending(index) is Some {
            self.pending(index)
        } else if fresh {
            Some(data[index - first])
        } else {
            None
        }
    }

    /// Whether `after` is what becomes of the reassembler by a fragment, while
    /// the output takes bytes: the output grows by the bytes known from its end
    /// up to the first index for which none is known, and the bytes known
    /// beyond wait.
    pub open spec fn grows_to(self, first: u64, data: Seq<u8>, after: ReassemblerView) -> bool {
        let begin = self.output.pushed() as int;
        let end = after.output.pushed() as int;
        &&& after.output.popped == self.output.popped
        &&& after.output.capacity == self.output.capacity
        &&& after.output.error == self.output.error
        &&& begin <= end
        &&& after.output.buffered.take(self.output.buffered.len() as int) == self.output.buffered
        &&& forall|i: int|
            begin <= i < end ==> #[trigger] self.known(first, data, i) == Some(
                after.output.buffered[i - self.output.popped],
            )
        &&& self.known(first, data, end) is None
        &&& forall|i: int| #[trigger]
            after.pending(i) == if i < end {
                None
            } else {
                self.known(first, data, i)
            }
    }

    /// Whether `after` is what becomes of the reassembler by a fragment once the
    /// output takes no more bytes: a fragment that follows directly on the
    /// output is lost, any other waits.
    pub open spec fn only_keeps(self, first: u64, data: Seq<u8>, after: ReassemblerView) -> bool {
        &&& after.output == (StreamView { closed: after.output.closed, ..self.output })
        &&& forall|i: int| #[trigger]
            after.pending(i) == if self.clip_start(first) == self.output.pushed() {
                self.pending(i)
            } else {
                self.known(first, data, i)
            }
    }
}

/// Some bytes of the stream that wait for those in front of them.
#[derive(Debug)]
struct Fragment {
    start: u64,
    data: Bytes,
}

impl View for Fragment {
    type V = FragmentView;

    closed spec fn view(&self) -> FragmentView {
        FragmentView { start: self.start as int, data: contents(self.data) }
    }
}

spec fn views(fragments: Seq<Fragment>) -> Seq<FragmentView> {
    Seq::new(fragments.len(), |i: int| fragments[i]@)
}

/// Puts the fragments of a byte stream together.
#[derive(Debug)]
pub struct Reassembler {
    output: ByteStream,
    pending: VecDeque<Fragment>,
    eof_index: Option<u64>,
}

impl View for Reassembler {
    type V = ReassemblerView;

    closed spec fn view(&self) -> ReassemblerView {
        ReassemblerView {
            output: self.output@,
            fragments: views(self.pending@),
            eof: self.eof_index,
        }
    }
}

impl Reassembler {
    /// The output is well-formed.
    pub closed spec fn stream_wf(&self) -> bool {
        self.output.wf()
    }

    pub open spec fn wf(&self) -> bool {
        &&& self.stream_wf()
        &&& self@.valid()
    }

    pub fn new(capacity: usize) -> (reassembler: Self)
        ensures
            reassembler.wf(),
            reassembler@ == ReassemblerView::fresh(capacity as nat),
    {
        let reassembler = Self {
            output: ByteStream::new(capacity),
            pending: VecDeque::new(),
            eof_index: None,
        };
        assert(views(reassembler.pending@) =~= Seq::empty());
        reassembler
    }

    /// Takes in a fragment that is known to belong to the stream.
    pub fn insert(&mut self, first_index: u64, data: &[u8], is_last_substring: bool)
        requires
            old(self).wf(),
            old(self)@.rejection(first_index, data@.len(), is_last_substring) is None,
        ensures
            final(self).wf(),
            final(self)@ == old(self)@.after_insert(first_index, data@, is_last_substring),
            if old(self)@.output.is_open() {
                old(self)@.grows_to(first_index, data@, final(self)@)
            } else {
                old(self)@.only_keeps(first_index, data@, final(self)@)
            },
    {
        let result = self.try_insert(first_index, data, is_last_substring);
        assert(result is Ok);
    }

    /// Takes in a fragment, or says why it does not belong to the stream.
    pub fn try_insert(
        &mut self,
        first_index: u64,
        data: &[u8],
        is_last_substring: bool,
    ) -> (result: Result<(), ReassemblerError>)
        requires
            old(self).wf(),
        ensures
            final(self).wf(),
            match result {
                Ok(_) => {
                    &&& old(self)@.rejection(first_index, data@.len(), is_last_substring) is None
                    &&& final(self)@ == old(self)@.after_insert(
                        first_index,
                        data@,
                        is_last_substring,
                    )
                    &&& if old(self)@.output.is_open() {
                        old(self)@.grows_to(first_index, data@, final(self)@)
                    } else {
                        old(self)@.only_keeps(first_index, data@, final(self)@)
                    }
                },
                Err(error) => {
                    &&& old(self)@.rejection(first_index, data@.len(), is_last_substring) == Some(
                        error,
                    )
                    &&& final(self)@ == old(self)@
                },
            },
    {
        let original_end: u64 = match first_index.checked_add(data.len() as u64) {
            Some(end) => end,
            None => {
                return Err(ReassemblerError::IndexOverflow);
            },
        };
        if let Err(error) = self.record_and_validate_eof(original_end, is_last_substring) {
            return Err(error);
        }
        if let Some(eof_index) = self.eof_index {
            if original_end > eof_index {
                return Err(
                    ReassemblerError::SegmentBeyondEof {
                        eof: eof_index,
                        segment_start: first_index,
                        segment_end: original_end,
                    },
                );
            }
        }
        let first_unassembled: u64 = self.output.bytes_pushed();
        let first_unacceptable: u64 = self.output.bytes_popped().saturating_add(
            self.output.capacity() as u64,
        );
        let clipped_start: u64 = if first_index >= first_unassembled {
            first_index
        } else {
            first_unassembled
        };
        let clipped_end: u64 = if original_end <= first_unacceptable {
            original_end
        } else {
            first_unacceptable
        };
        proof {
            self.output.lemma_bounds();
        }
        if clipped_start < clipped_end {
            let clipped_data = vstd::slice::slice_subrange(
                data,
                (clipped_start - first_index) as usize,
                (clipped_end - first_index) as usize,
            );
            if clipped_start == first_unassembled {
                self.output.push(Bytes::copy_from_slice(clipped_data));
            } else {
                proof {
                    lemma_filled(
                        self@.fragments,
                        clipped_start as int,
                        clipped_data@,
                        first_unassembled as int,
                        self@.window_end(),
                    );
                }
                self.insert_missing_gaps(clipped_start, clipped_data);
            }
            self.flush_contiguous();
        }
        self.close_if_complete();
        proof {
            lemma_insert(old(self)@, first_index, data@, is_last_substring);
        }
        Ok(())
    }

    /// How many bytes wait for others in front of them.
    pub fn bytes_pending(&self) -> (count: usize)
        requires
            self.wf(),
        ensures
            count == total_len(self@.fragments),
    {
        let mut count: usize = 0;
        let mut index: usize = 0;
        let ghost fragments = self@.fragments;
        proof {
            self.output.lemma_bounds();
            assert(fragments.take(0).len() == 0);
        }
        while index < self.pending.len()
            invariant
                index <= self.pending@.len(),
                fragments == views(self.pending@),
                self@.valid(),
                fragments == self@.fragments,
                self@.output.capacity <= usize::MAX,
                count == total_len(fragments.take(index as int)),
            decreases self.pending@.len() - index,
        {
            proof {
                lemma_total_len_take(fragments, index as int);
                lemma_total_len_bound(
                    fragments,
                    index + 1,
                    self@.output.pushed() as int,
                    self@.window_end(),
                );
            }
            count = count + self.pending[index].data.len();
            index = index + 1;
        }
        assert(fragments.take(index as int) =~= fragments);
        count
    }

    pub fn output(&self) -> (output: &ByteStream)
        ensures
            output@ == self@.output,
            self.wf() ==> output.wf(),
    {
        &self.output
    }

    /// The output, to be read from. As long as nothing is written to it the
    /// reassembler stays well-formed.
    pub fn output_mut(&mut self) -> (output: &mut ByteStream)
        ensures
            output@ == old(self)@.output,
            old(self).wf() ==> output.wf(),
            final(self)@ == (ReassemblerView { output: final(output)@, ..old(self)@ }),
            final(output).wf() ==> final(self).stream_wf(),
            old(self).wf() && final(output).wf() && final(output)@.only_read_since(
                old(self)@.output,
            ) ==> final(self).wf(),
    {
        &mut self.output
    }

    /// Keeps those bytes of `data` that no waiting fragment holds.
    fn insert_missing_gaps(&mut self, start: u64, data: &[u8])
        requires
            old(self).output.wf(),
            in_order(old(self)@.fragments),
            within(old(self)@.fragments, 0, u64::MAX as int),
            start + data@.len() <= u64::MAX,
        ensures
            final(self).output == old(self).output,
            final(self).eof_index == old(self).eof_index,
            final(self)@.fragments == filled(old(self)@.fragments, start as int, data@),
    {
        let end: u64 = start + data.len() as u64;
        let mut cursor: u64 = start;
        let mut index: usize = 0;
        let ghost all = filled(self@.fragments, start as int, data@);
        proof {
            assert(views(self.pending@).take(0) =~= Seq::empty());
            assert(views(self.pending@).skip(0) =~= views(self.pending@));
            assert(data@.skip(0) =~= data@);
            assert(all =~= views(self.pending@).take(0) + filled(
                views(self.pending@).skip(0),
                cursor as int,
                data@.skip(0),
            ));
        }
        while index < self.pending.len() && cursor < end
            invariant
                self.output == old(self).output,
                self.eof_index == old(self).eof_index,
                index <= self.pending@.len(),
                start <= cursor <= end,
                end == start + data@.len(),
                within(views(self.pending@), 0, u64::MAX as int),
                all == views(self.pending@).take(index as int) + filled(
                    views(self.pending@).skip(index as int),
                    cursor as int,
                    data@.skip(cursor - start),
                ),
            decreases self.pending@.len() - index, end - cursor,
        {
            let ghost before = views(self.pending@);
            let ghost left = before.skip(index as int);
            let ghost rest = before.skip(index + 1);
            let ghost done = before.take(index as int);
            let ghost new = data@.skip(cursor - start);
            assert(left.drop_first() =~= rest);
            assert(left[0] == before[index as int]);
            let next_start: u64 = self.pending[index].start;
            let next_end: u64 = next_start + self.pending[index].data.len() as u64;
            if end <= next_start {
                self.insert_gap(index, start, data, cursor, end);
                assert(data@.subrange(cursor - start, end - start) =~= new);
                assert(views(self.pending@).take(index + 1) =~= done.push(
                    FragmentView { start: cursor as int, data: new },
                ));
                assert(views(self.pending@).skip(index + 1) =~= left);
                assert(data@.skip(end - start).len() == 0);
                assert(filled(left, cursor as int, new) =~= seq![
                    FragmentView { start: cursor as int, data: new },
                ] + left);
                assert(all =~= views(self.pending@).take(index + 1) + left);
                index = index + 1;
                cursor = end;
            } else if next_end <= cursor {
                assert(before.take(index + 1) =~= done.push(before[index as int]));
                assert(all =~= before.take(index + 1) + filled(rest, cursor as int, new));
                index = index + 1;
            } else if cursor < next_start {
                self.insert_gap(index, start, data, cursor, next_start);
                let ghost gap = FragmentView {
                    start: cursor as int,
                    data: new.take(next_start - cursor),
                };
                assert(data@.subrange(cursor - start, next_start - start) =~= gap.data);
                assert(views(self.pending@).take(index + 1) =~= done.push(gap));
                assert(views(self.pending@).skip(index + 1) =~= left);
                proof {
                    lemma_filled_gap(left, cursor as int, new);
                    assert(new.skip(next_start - cursor) =~= data@.skip(next_start - start));
                }
                assert(all =~= views(self.pending@).take(index + 1) + filled(
                    left,
                    next_start as int,
                    data@.skip(next_start - start),
                ));
                index = index + 1;
                cursor = next_start;
            } else {
                let behind: u64 = if next_end < end {
                    next_end
                } else {
                    end
                };
                assert(new.skip(behind - cursor) =~= data@.skip(behind - start));
                assert(before.take(index + 1) =~= done.push(before[index as int]));
                assert(all =~= before.take(index + 1) + filled(
                    rest,
                    behind as int,
                    data@.skip(behind - start),
                ));
                index = index + 1;
                cursor = behind;
            }
        }
        let ghost before = views(self.pending@);
        if cursor < end {
            self.insert_gap(index, start, data, cursor, end);
            assert(data@.subrange(cursor - start, end - start) =~= data@.skip(cursor - start));
            assert(before.skip(index as int).len() == 0);
            assert(all =~= views(self.pending@));
        } else {
            assert(all =~= before);
        }
    }

    /// Keeps the bytes of `data`, which starts at `original_start`, from
    /// `gap_start` to `gap_end`, as the fragment at the place `index`.
    fn insert_gap(
        &mut self,
        index: usize,
        original_start: u64,
        original_data: &[u8],
        gap_start: u64,
        gap_end: u64,
    )
        requires
            index <= old(self).pending@.len(),
            original_start <= gap_start < gap_end <= original_start + original_data@.len(),
        ensures
            final(self).output == old(self).output,
            final(self).eof_index == old(self).eof_index,
            final(self).pending@.len() == old(self).pending@.len() + 1,
            final(self)@.fragments == old(self)@.fragments.insert(
                index as int,
                FragmentView {
                    start: gap_start as int,
                    data: original_data@.subrange(
                        gap_start - original_start,
                        gap_end - original_start,
                    ),
                },
            ),
    {
        assert(original_data.len() <= usize::MAX);
        let gap = Bytes::copy_from_slice(
            vstd::slice::slice_subrange(
                original_data,
                (gap_start - original_start) as usize,
                (gap_end - original_start) as usize,
            ),
        );
        let ghost before = self@.fragments;
        let fragment = Fragment { start: gap_start, data: gap };
        let ghost added = fragment@;
        self.pending.insert(index, fragment);
        assert(views(self.pending@) =~= before.insert(index as int, added));
    }

    /// Writes what follows on the output without a gap.
    fn flush_contiguous(&mut self)
        requires
            old(self).output.wf(),
            in_order(old(self)@.fragments),
            within(old(self)@.fragments, 0, u64::MAX as int),
        ensures
            final(self).output.wf(),
            final(self).eof_index == old(self).eof_index,
            (final(self)@.fragments, final(self)@.output) == flushed(
                old(self)@.fragments,
                old(self)@.output,
            ),
    {
        let mut stuck: bool = false;
        let ghost result = flushed(self@.fragments, self@.output);
        while !stuck && self.pending.len() > 0 && self.pending[0].start
            <= self.output.bytes_pushed()
            invariant
                self.output.wf(),
                self.eof_index == old(self).eof_index,
                within(views(self.pending@), 0, u64::MAX as int),
                stuck ==> result == (views(self.pending@), self.output@),
                !stuck ==> result == flushed(views(self.pending@), self.output@),
            decreases self.pending@.len() + if stuck {
                0int
            } else {
                1
            },
        {
            let ghost before = views(self.pending@);
            let next_required: u64 = self.output.bytes_pushed();
            let fragment = self.pending.pop_front().unwrap();
            assert(views(self.pending@) =~= before.drop_first());
            assert(fragment@ == before[0]);
            proof {
                self.output.lemma_bounds();
            }
            if let Some(data) = trim_stale_prefix(&fragment, next_required) {
                let len: usize = data.len();
                let ghost stream = self.output@;
                let accepted: usize = self.output.push(data.clone());
                if accepted < len {
                    let left = Fragment {
                        start: next_required + accepted as u64,
                        data: slice(&data, accepted, len),
                    };
                    let ghost rest = views(self.pending@);
                    let ghost kept = left@;
                    self.pending.push_front(left);
                    assert(views(self.pending@) =~= seq![kept] + rest);
                    assert(kept.data =~= contents(data).skip(accepted as int));
                    stuck = true;
                }
            }
        }
    }

    /// Learns where the stream ends, unless that contradicts what is known.
    fn record_and_validate_eof(&mut self, received_eof: u64, is_last_substring: bool) -> (result:
        Result<(), ReassemblerError>)
        requires
            old(self).wf(),
        ensures
            final(self).output == old(self).output,
            final(self).pending == old(self).pending,
            match result {
                Ok(_) => final(self).eof_index == if is_last_substring {
                    Some(received_eof)
                } else {
                    old(self).eof_index
                },
                Err(error) => final(self).eof_index == old(self).eof_index,
            },
            match (is_last_substring, old(self)@.eof) {
                (false, _) => result is Ok,
                (true, Some(existing)) => result == if existing == received_eof {
                    Ok::<(), ReassemblerError>(())
                } else {
                    Err(ReassemblerError::InconsistentEof { existing, received: received_eof })
                },
                (true, None) => {
                    let buffered_end = if old(self)@.output.pushed() > received_eof {
                        Some(old(self)@.output.pushed() as int)
                    } else {
                        end_beyond(old(self)@.fragments, received_eof as int)
                    };
                    result == match buffered_end {
                        None => Ok::<(), ReassemblerError>(()),
                        Some(end) => Err(
                            ReassemblerError::BufferedDataBeyondEof {
                                eof: received_eof,
                                buffered_end: end as u64,
                            },
                        ),
                    }
                },
            },
    {
        if !is_last_substring {
            return Ok(());
        }
        if let Some(existing) = self.eof_index {
            if existing != received_eof {
                return Err(
                    ReassemblerError::InconsistentEof { existing, received: received_eof },
                );
            }
            return Ok(());
        }
        if self.output.bytes_pushed() > received_eof {
            return Err(
                ReassemblerError::BufferedDataBeyondEof {
                    eof: received_eof,
                    buffered_end: self.output.bytes_pushed(),
                },
            );
        }
        let mut index: usize = 0;
        let ghost fragments = self@.fragments;
        assert(fragments.skip(0) =~= fragments);
        while index < self.pending.len()
            invariant
                *self == *old(self),
                old(self).wf(),
                old(self)@.output.pushed() <= received_eof,
                old(self)@.eof is None,
                is_last_substring,
                index <= self.pending@.len(),
                fragments == views(self.pending@),
                fragments == self@.fragments,
                end_beyond(fragments, received_eof as int) == end_beyond(
                    fragments.skip(index as int),
                    received_eof as int,
                ),
            decreases self.pending@.len() - index,
        {
            let ghost left = fragments.skip(index as int);
            assert(left[0] == fragments[index as int]);
            assert(left.drop_first() =~= fragments.skip(index + 1));
            let end: u64 = self.pending[index].start + self.pending[index].data.len() as u64;
            if end > received_eof {
                return Err(
                    ReassemblerError::BufferedDataBeyondEof {
                        eof: received_eof,
                        buffered_end: end,
                    },
                );
            }
            index = index + 1;
        }
        self.eof_index = Some(received_eof);
        Ok(())
    }

    /// Closes the output once the whole stream was written to it.
    fn close_if_complete(&mut self)
        requires
            old(self).output.wf(),
        ensures
            final(self).output.wf(),
            final(self)@ == (ReassemblerView {
                output: StreamView {
                    closed: old(self)@.output.closed || old(self)@.eof == Some(
                        old(self)@.output.pushed() as u64,
                    ),
                    ..old(self)@.output
                },
                ..old(self)@
            }),
    {
        proof {
            self.output.lemma_bounds();
        }
        if let Some(eof_index) = self.eof_index {
            if self.output.bytes_pushed() == eof_index {
                self.output.close();
            }
        }
    }
}

/// What a fragment holds from the index `next_required` on, if anything.
fn trim_stale_prefix(fragment: &Fragment, next_required: u64) -> (data: Option<Bytes>)
    requires
        fragment@.start <= next_required,
        fragment@.end() <= u64::MAX,
    ensures
        match data {
            Some(data) => fragment@.end() > next_required && contents(data)
                == fragment@.data.skip(next_required - fragment@.start),
            None => fragment@.end() <= next_required,
        },
{
    let len: usize = fragment.data.len();
    let end: u64 = fragment.start + len as u64;
    if end <= next_required {
        return None;
    }
    let data = slice(&fragment.data, (next_required - fragment.start) as usize, len);
    assert(contents(data) =~= fragment@.data.skip(next_required - fragment@.start));
    Some(data)
}

proof fn lemma_outside(fragments: Seq<FragmentView>, low: int, high: int, index: int)
    requires
        within(fragments, low, high),
        index < low || high <= index,
    ensures
        byte_at(fragments, index) is None,
    decreases fragments.len(),
{
    if fragments.len() > 0 {
        assert(low <= fragments[0].start && fragments[0].end() <= high);
        assert forall|i: int| 0 <= i < fragments.drop_first().len() implies low <= (
        #[trigger] fragments.drop_first()[i]).start && fragments.drop_first()[i].end() <= high by {
            assert(fragments.drop_first()[i] == fragments[i + 1]);
        }
        lemma_outside(fragments.drop_first(), low, high, index);
    }
}

/// One more fragment in front of others.
proof fn lemma_prepend(
    next: FragmentView,
    fragments: Seq<FragmentView>,
    low: int,
    high: int,
)
    requires
        in_order(fragments),
        within(fragments, next.end(), high),
        next.data.len() > 0,
        low <= next.start,
        next.end() <= high,
    ensures
        in_order(seq![next] + fragments),
        within(seq![next] + fragments, low, high),
        forall|i: int| #[trigger]
            byte_at(seq![next] + fragments, i) == if next.start <= i < next.end() {
                Some(next.data[i - next.start])
            } else {
                byte_at(fragments, i)
            },
{
    let all = seq![next] + fragments;
    assert(all.drop_first() =~= fragments);
    assert forall|i: int| 0 <= i < all.len() implies low <= (#[trigger] all[i]).start
        && all[i].end() <= high by {
        if i > 0 {
            assert(all[i] == fragments[i - 1]);
        }
    }
    assert forall|i: int, j: int| 0 <= i < j < all.len() implies (#[trigger] all[i]).end() <= (
    #[trigger] all[j]).start by {
        assert(all[j] == fragments[j - 1]);
        if i > 0 {
            assert(all[i] == fragments[i - 1]);
        }
    }
}

/// The fragments behind the first one.
proof fn lemma_rest(fragments: Seq<FragmentView>, low: int, high: int)
    requires
        fragments.len() > 0,
        in_order(fragments),
        within(fragments, low, high),
    ensures
        in_order(fragments.drop_first()),
        within(fragments.drop_first(), fragments[0].end(), high),
{
    let rest = fragments.drop_first();
    assert forall|i: int| 0 <= i < rest.len() implies fragments[0].end() <= (
    #[trigger] rest[i]).start && rest[i].end() <= high by {
        assert(rest[i] == fragments[i + 1]);
    }
    assert forall|i: int| 0 <= i < rest.len() implies (#[trigger] rest[i]).data.len() > 0 by {
        assert(rest[i] == fragments[i + 1]);
    }
    assert forall|i: int, j: int| 0 <= i < j < rest.len() implies (#[trigger] rest[i]).end() <= (
    #[trigger] rest[j]).start by {
        assert(rest[i] == fragments[i + 1]);
        assert(rest[j] == fragments[j + 1]);
    }
}

/// A gap in front of the first fragment is filled by a fragment of its own.
proof fn lemma_filled_gap(fragments: Seq<FragmentView>, start: int, data: Seq<u8>)
    requires
        fragments.len() > 0,
        start < fragments[0].start < start + data.len(),
    ensures
        ({
            let gap = fragments[0].start - start;
            filled(fragments, start, data) == seq![FragmentView { start, data: data.take(gap) }]
                + filled(fragments, fragments[0].start, data.skip(gap))
        }),
{
    let next = fragments[0];
    let gap = next.start - start;
    let end = start + data.len();
    let behind = if next.end() < end {
        next.end()
    } else {
        end
    };
    assert(data.skip(gap).skip(behind - next.start) =~= data.skip(behind - start));
    assert(filled(fragments, start, data) =~= seq![FragmentView { start, data: data.take(gap) }]
        + filled(fragments, next.start, data.skip(gap)));
}

/// Filling the gaps adds the bytes that were missing and no others.
proof fn lemma_filled(
    fragments: Seq<FragmentView>,
    start: int,
    data: Seq<u8>,
    low: int,
    high: int,
)
    requires
        in_order(fragments),
        within(fragments, low, high),
        low <= start,
        start + data.len() <= high,
    ensures
        in_order(filled(fragments, start, data)),
        within(filled(fragments, start, data), low, high),
        forall|i: int| #[trigger]
            byte_at(filled(fragments, start, data), i) == if byte_at(fragments, i) is Some {
                byte_at(fragments, i)
            } else if start <= i < start + data.len() {
                Some(data[i - start])
            } else {
                None
            },
    decreases fragments.len(),
{
    let end = start + data.len();
    let result = filled(fragments, start, data);
    if data.len() == 0 {
    } else if fragments.len() == 0 {
        let added = FragmentView { start, data };
        lemma_prepend(added, Seq::empty(), low, high);
        assert(seq![added] + Seq::<FragmentView>::empty() =~= result);
    } else {
        let next = fragments[0];
        let rest = fragments.drop_first();
        assert(fragments =~= seq![next] + rest);
        lemma_rest(fragments, low, high);
        if end <= next.start {
            let added = FragmentView { start, data };
            assert(within(fragments, end, high)) by {
                assert forall|i: int| 0 <= i < fragments.len() implies end <= (
                #[trigger] fragments[i]).start by {
                    if i > 0 {
                        assert(fragments[0].end() <= fragments[i].start);
                    }
                }
            }
            lemma_prepend(added, fragments, low, high);
            assert forall|i: int| start <= i < end implies byte_at(fragments, i) is None by {
                lemma_outside(fragments, end, high, i);
            }
        } else if next.end() <= start {
            lemma_filled(rest, start, data, next.end(), high);
            lemma_prepend(next, filled(rest, start, data), low, high);
        } else {
            let behind = if next.end() < end {
                next.end()
            } else {
                end
            };
            let tail = filled(rest, behind, data.skip(behind - start));
            if behind == end {
                assert(data.skip(behind - start).len() == 0);
                assert(tail == rest);
            } else {
                lemma_filled(rest, behind, data.skip(behind - start), next.end(), high);
            }
            lemma_prepend(next, tail, next.start, high);
            if start < next.start {
                let gap = FragmentView { start, data: data.take(next.start - start) };
                lemma_prepend(gap, seq![next] + tail, low, high);
                assert(result =~= seq![gap] + (seq![next] + tail));
                assert forall|i: int| start <= i < next.start implies byte_at(fragments, i) is None
                    by {
                    lemma_outside(fragments, next.start, high, i);
                }
            } else {
                assert(within(seq![next] + tail, low, high));
                assert(result =~= seq![next] + tail);
            }
        }
    }
}

/// Flushing moves the bytes from the end of the output up to the first gap.
proof fn lemma_flushed(fragments: Seq<FragmentView>, output: StreamView, low: int, high: int)
    requires
        in_order(fragments),
        within(fragments, low, high),
        output.is_open(),
        output.buffered.len() <= output.capacity,
        high <= output.popped + output.capacity,
    ensures
        ({
            let (left, after) = flushed(fragments, output);
            &&& after == (StreamView {
                buffered: after.buffered,
                chunks: after.chunks,
                ..output
            })
            &&& output.pushed() <= after.pushed()
            &&& after.pushed() <= output.pushed() || after.pushed() <= high
            &&& after.buffered.len() <= output.capacity
            &&& after.buffered.take(output.buffered.len() as int) == output.buffered
            &&& forall|i: int|
                output.pushed() <= i < after.pushed() ==> #[trigger] byte_at(fragments, i) == Some(
                    after.buffered[i - output.popped],
                )
            &&& byte_at(fragments, after.pushed() as int) is None
            &&& forall|i: int| #[trigger]
                byte_at(left, i) == if i < after.pushed() {
                    None
                } else {
                    byte_at(fragments, i)
                }
            &&& in_order(left)
            &&& within(left, (after.pushed() + 1) as int, high)
        }),
    decreases fragments.len(),
{
    let (left, after) = flushed(fragments, output);
    if fragments.len() == 0 {
        assert(after.buffered.take(output.buffered.len() as int) =~= output.buffered);
    } else if fragments[0].start > output.pushed() {
        assert(after.buffered.take(output.buffered.len() as int) =~= output.buffered);
        assert(within(fragments, (output.pushed() + 1) as int, high)) by {
            assert forall|i: int| 0 <= i < fragments.len() implies output.pushed() + 1 <= (
            #[trigger] fragments[i]).start by {
                if i > 0 {
                    assert(fragments[0].end() <= fragments[i].start);
                    assert(fragments[0].data.len() > 0);
                }
            }
        }
        assert forall|i: int| i < after.pushed() + 1 implies byte_at(fragments, i) is None by {
            lemma_outside(fragments, (output.pushed() + 1) as int, high, i);
        }
    } else {
        let next = fragments[0];
        let rest = fragments.drop_first();
        lemma_rest(fragments, low, high);
        if next.end() <= output.pushed() {
            lemma_flushed(rest, output, next.end(), high);
            assert forall|i: int| output.pushed() <= i < after.pushed() implies #[trigger] byte_at(
                fragments,
                i,
            ) == Some(after.buffered[i - output.popped]) by {
                assert(byte_at(rest, i) == Some(after.buffered[i - output.popped]));
            }
        } else {
            let data = next.data.skip(output.pushed() - next.start);
            let grown = output.after_push(data);
            assert(data.take(data.len() as int) =~= data);
            assert(output.accepted(data.len()) == data.len());
            assert(grown.pushed() == next.end());
            lemma_flushed(rest, grown, next.end(), high);
            assert(after.buffered.take(output.buffered.len() as int) =~= output.buffered) by {
                assert(after.buffered.take(grown.buffered.len() as int) == grown.buffered);
                assert forall|i: int| 0 <= i < output.buffered.len() implies after.buffered[i]
                    == output.buffered[i] by {
                    assert(after.buffered[i] == after.buffered.take(
                        grown.buffered.len() as int,
                    )[i]);
                }
            }
            assert forall|i: int| output.pushed() <= i < after.pushed() implies #[trigger] byte_at(
                fragments,
                i,
            ) == Some(after.buffered[i - output.popped]) by {
                if i < grown.pushed() {
                    assert(after.buffered[i - output.popped] == after.buffered.take(
                        grown.buffered.len() as int,
                    )[i - output.popped]);
                    assert(grown.buffered[i - output.popped] == data[i - output.pushed()]);
                } else {
                    assert(byte_at(rest, i) == Some(after.buffered[i - output.popped]));
                }
            }
        }
    }
}

/// An output that takes no bytes leaves the fragments as they are.
proof fn lemma_flushed_shut(fragments: Seq<FragmentView>, output: StreamView, high: int)
    requires
        in_order(fragments),
        within(fragments, output.pushed() as int, high),
        !output.is_open(),
    ensures
        flushed(fragments, output) == (fragments, output),
{
    if fragments.len() > 0 && fragments[0].start <= output.pushed() {
        let next = fragments[0];
        let data = next.data.skip(output.pushed() - next.start);
        assert(next.start == output.pushed());
        assert(data =~= next.data);
        assert(data.skip(0) =~= data);
        assert(output.after_push(data) =~= output);
        assert(seq![next] + fragments.drop_first() =~= fragments);
    }
}

/// What becomes of a reassembler by a fragment: it stays valid, and its bytes
/// are the ones known.
spec fn insert_is_sound(before: ReassemblerView, first: u64, data: Seq<u8>, last: bool) -> bool {
    let after = before.after_insert(first, data, last);
    &&& after.valid()
    &&& after.output.closed == (before.output.closed || after.eof == Some(
        after.output.pushed() as u64,
    ))
    &&& if before.output.is_open() {
        before.grows_to(first, data, after)
    } else {
        before.only_keeps(first, data, after)
    }
}

/// An index that neither the fragments nor what comes in may reach.
spec fn limit(before: ReassemblerView, first: u64, len: nat, last: bool) -> int {
    match before.eof_after(first, len, last) {
        Some(eof) if eof < before.window_end() => eof as int,
        _ => before.window_end(),
    }
}

proof fn lemma_limit(before: ReassemblerView, first: u64, data: Seq<u8>, last: bool)
    requires
        before.valid(),
        before.rejection(first, data.len(), last) is None,
    ensures
        within(
            before.fragments,
            before.output.pushed() as int,
            limit(before, first, data.len(), last),
        ),
        before.clip_end(first, data.len()) <= limit(before, first, data.len(), last),
{
    if last && before.eof is None {
        lemma_end_beyond(before.fragments, first + data.len());
    }
}

/// The case that nothing of the fragment is of use.
proof fn lemma_insert_nothing(before: ReassemblerView, first: u64, data: Seq<u8>, last: bool)
    requires
        before.valid(),
        before.rejection(first, data.len(), last) is None,
        before.clip_start(first) >= before.clip_end(first, data.len()),
    ensures
        insert_is_sound(before, first, data, last),
{
    lemma_limit(before, first, data, last);
    let begin = before.output.pushed() as int;
    let high = limit(before, first, data.len(), last);
    let after = before.after_insert(first, data, last);
    assert(before.output.buffered.take(before.output.buffered.len() as int)
        =~= before.output.buffered);
    assert forall|i: int| #[trigger] before.known(first, data, i) == before.pending(i) by {}
    if before.output.is_open() {
        assert(within(before.fragments, begin + 1, high)) by {
            assert forall|i: int| 0 <= i < before.fragments.len() implies begin + 1 <= (
            #[trigger] before.fragments[i]).start by {
                if i > 0 {
                    assert(before.fragments[0].end() <= before.fragments[i].start);
                    assert(before.fragments[0].data.len() > 0);
                }
            }
        }
        assert forall|i: int| i <= begin implies #[trigger] before.pending(i) is None by {
            lemma_outside(before.fragments, begin + 1, high, i);
        }
        assert forall|i: int| #[trigger]
            after.pending(i) == if i < begin {
                None
            } else {
                before.known(first, data, i)
            } by {
            assert(before.pending(i) == after.pending(i));
        }
    } else {
        assert forall|i: int| #[trigger]
            after.pending(i) == if before.clip_start(first) == before.output.pushed() {
                before.pending(i)
            } else {
                before.known(first, data, i)
            } by {
            assert(before.pending(i) == after.pending(i));
        }
    }
}

/// The case that the fragment follows directly on the output.
proof fn lemma_insert_next(before: ReassemblerView, first: u64, data: Seq<u8>, last: bool)
    requires
        before.valid(),
        before.rejection(first, data.len(), last) is None,
        before.clip_start(first) == before.output.pushed(),
        before.clip_start(first) < before.clip_end(first, data.len()),
    ensures
        insert_is_sound(before, first, data, last),
{
    lemma_limit(before, first, data, last);
    let begin = before.output.pushed() as int;
    let end = before.clip_end(first, data.len());
    let high = limit(before, first, data.len(), last);
    let after = before.after_insert(first, data, last);
    let clipped = data.subrange(begin - first, end - first);
    let grown = before.output.after_push(clipped);
    if before.output.is_open() {
        assert(clipped.take(clipped.len() as int) =~= clipped);
        assert(before.output.accepted(clipped.len()) == clipped.len());
        assert(grown.pushed() == end);
        lemma_flushed(before.fragments, grown, begin, high);
        assert(after.output.buffered.take(grown.buffered.len() as int) == grown.buffered);
        assert forall|i: int| 0 <= i < grown.buffered.len() implies after.output.buffered[i]
            == grown.buffered[i] by {
            assert(after.output.buffered[i] == after.output.buffered.take(
                grown.buffered.len() as int,
            )[i]);
        }
        assert(after.output.buffered.take(before.output.buffered.len() as int)
            =~= before.output.buffered);
        assert forall|i: int| begin <= i < after.output.pushed() implies #[trigger] before.known(
            first,
            data,
            i,
        ) == Some(after.output.buffered[i - before.output.popped]) by {
            if i < end {
                assert(grown.buffered[i - before.output.popped] == clipped[i - begin]);
            } else {
                assert(byte_at(before.fragments, i) == Some(
                    after.output.buffered[i - before.output.popped],
                ));
            }
        }
        assert forall|i: int| end <= i implies #[trigger] before.known(first, data, i) == byte_at(
            before.fragments,
            i,
        ) by {}
        assert(before.known(first, data, after.output.pushed() as int) is None);
        assert forall|i: int| #[trigger]
            after.pending(i) == if i < after.output.pushed() {
                None
            } else {
                before.known(first, data, i)
            } by {
            assert(after.pending(i) == byte_at(after.fragments, i));
        }
        assert(after.valid());
    } else {
        assert(grown =~= before.output);
        lemma_flushed_shut(before.fragments, before.output, high);
    }
}

/// The case that the fragment leaves a gap behind the output.
proof fn lemma_insert_apart(before: ReassemblerView, first: u64, data: Seq<u8>, last: bool)
    requires
        before.valid(),
        before.rejection(first, data.len(), last) is None,
        before.clip_start(first) != before.output.pushed(),
        before.clip_start(first) < before.clip_end(first, data.len()),
    ensures
        insert_is_sound(before, first, data, last),
{
    lemma_limit(before, first, data, last);
    let begin = before.output.pushed() as int;
    let start = before.clip_start(first);
    let end = before.clip_end(first, data.len());
    let high = limit(before, first, data.len(), last);
    let after = before.after_insert(first, data, last);
    let clipped = data.subrange(start - first, end - first);
    lemma_filled(before.fragments, start, clipped, begin, high);
    let kept = filled(before.fragments, start, clipped);
    assert forall|i: int| #[trigger] before.known(first, data, i) == byte_at(kept, i) by {
        assert(before.pending(i) == byte_at(before.fragments, i));
        if start <= i < end {
            assert(clipped[i - start] == data[i - first]);
        }
    }
    if before.output.is_open() {
        lemma_flushed(kept, before.output, begin, high);
        assert forall|i: int| begin <= i < after.output.pushed() implies #[trigger] before.known(
            first,
            data,
            i,
        ) == Some(after.output.buffered[i - before.output.popped]) by {
            assert(byte_at(kept, i) == Some(after.output.buffered[i - before.output.popped]));
        }
        assert forall|i: int| #[trigger]
            after.pending(i) == if i < after.output.pushed() {
                None
            } else {
                before.known(first, data, i)
            } by {
            assert(after.pending(i) == byte_at(after.fragments, i));
        }
        assert(before.known(first, data, after.output.pushed() as int) is None);
        assert(after.valid());
    } else {
        lemma_flushed_shut(kept, before.output, high);
        assert(after.valid());
    }
}

proof fn lemma_insert(before: ReassemblerView, first: u64, data: Seq<u8>, last: bool)
    requires
        before.valid(),
        before.rejection(first, data.len(), last) is None,
    ensures
        insert_is_sound(before, first, data, last),
{
    if before.clip_start(first) >= before.clip_end(first, data.len()) {
        lemma_insert_nothing(before, first, data, last);
    } else if before.clip_start(first) == before.output.pushed() {
        lemma_insert_next(before, first, data, last);
    } else {
        lemma_insert_apart(before, first, data, last);
    }
}

/// Where no fragment reaches beyond an index, all end before it.
proof fn lemma_end_beyond(fragments: Seq<FragmentView>, eof: int)
    ensures
        end_beyond(fragments, eof) is None ==> forall|i: int|
            0 <= i < fragments.len() ==> (#[trigger] fragments[i]).end() <= eof,
        end_beyond(fragments, eof) matches Some(end) ==> eof < end && exists|i: int|
            0 <= i < fragments.len() && end == (#[trigger] fragments[i]).end(),
    decreases fragments.len(),
{
    if fragments.len() > 0 {
        let rest = fragments.drop_first();
        lemma_end_beyond(rest, eof);
        if fragments[0].end() <= eof {
            if let Some(end) = end_beyond(rest, eof) {
                let i = choose|i: int| 0 <= i < rest.len() && end == (#[trigger] rest[i]).end();
                assert(fragments[i + 1] == rest[i]);
            } else {
                assert forall|i: int| 0 <= i < fragments.len() implies (
                #[trigger] fragments[i]).end() <= eof by {
                    if i > 0 {
                        assert(fragments[i] == rest[i - 1]);
                    }
                }
            }
        }
    }
}

proof fn lemma_total_len_take(fragments: Seq<FragmentView>, index: int)
    requires
        0 <= index < fragments.len(),
    ensures
        total_len(fragments.take(index + 1)) == total_len(fragments.take(index))
            + fragments[index].data.len(),
    decreases index,
{
    let rest = fragments.drop_first();
    if index == 0 {
        assert(fragments.take(1).drop_first() =~= fragments.take(0));
    } else {
        assert(fragments.take(index + 1).drop_first() =~= rest.take(index));
        assert(fragments.take(index).drop_first() =~= rest.take(index - 1));
        lemma_total_len_take(rest, index - 1);
    }
}

/// The first fragments hold no more bytes than there are indices up to the end
/// of the last of them.
proof fn lemma_total_len_bound(fragments: Seq<FragmentView>, count: int, low: int, high: int)
    requires
        in_order(fragments),
        within(fragments, low, high),
        0 <= count <= fragments.len(),
    ensures
        count == 0 ==> total_len(fragments.take(count)) == 0,
        count > 0 ==> total_len(fragments.take(count)) <= fragments[count - 1].end() - low,
    decreases count,
{
    if count > 0 {
        lemma_total_len_bound(fragments, count - 1, low, high);
        lemma_total_len_take(fragments, count - 1);
        if count > 1 {
            assert(fragments[count - 2].end() <= fragments[count - 1].start);
        }
    }
}

/// The stream put together and the fragments that wait share the capacity.
pub proof fn law_joint_capacity(state: ReassemblerView)
    requires
        state.valid(),
    ensures
        state.output.buffered.len() + total_len(state.fragments) <= state.output.capacity,
{
    let count = state.fragments.len() as int;
    lemma_total_len_bound(
        state.fragments,
        count,
        state.output.pushed() as int,
        state.window_end(),
    );
    assert(state.fragments.take(count) =~= state.fragments);
}

/// Reading from the output, closing it or marking it as failed keeps the
/// reassembler valid.
pub proof fn law_reading_keeps_valid(state: ReassemblerView, output: StreamView)
    requires
        state.valid(),
        output.only_read_since(state.output),
    ensures
        (ReassemblerView { output, ..state }).valid(),
{
}

/// Whether the bytes written and waiting are those of the stream `source`.
pub open spec fn agrees_with(state: ReassemblerView, source: spec_fn(int) -> u8) -> bool {
    &&& forall|i: int|
        0 <= i < state.output.buffered.len() ==> (#[trigger] state.output.buffered[i]) == source(
            state.output.popped + i,
        )
    &&& forall|i: int| (#[trigger] state.pending(i)) is Some ==> state.pending(i) == Some(source(i))
}

/// In whatever order the fragments of a stream come, the output holds bytes of
/// that stream alone, each at its place.
pub proof fn law_output_is_the_stream(
    state: ReassemblerView,
    first: u64,
    data: Seq<u8>,
    last: bool,
    source: spec_fn(int) -> u8,
)
    requires
        state.valid(),
        state.rejection(first, data.len(), last) is None,
        agrees_with(state, source),
        forall|i: int| 0 <= i < data.len() ==> (#[trigger] data[i]) == source(first + i),
    ensures
        agrees_with(state.after_insert(first, data, last), source),
{
    lemma_insert(state, first, data, last);
    let after = state.after_insert(first, data, last);
    assert forall|i: int| (#[trigger] state.known(first, data, i)) is Some implies state.known(
        first,
        data,
        i,
    ) == Some(source(i)) by {
        assert(state.pending(i) is Some ==> state.pending(i) == Some(source(i)));
        if state.clip_start(first) <= i < state.clip_end(first, data.len()) {
            assert(data[i - first] == source(first + (i - first)));
        }
    }
    assert forall|i: int| (#[trigger] after.pending(i)) is Some implies after.pending(i) == Some(
        source(i),
    ) by {
        assert(state.known(first, data, i) is Some ==> state.known(first, data, i) == Some(
            source(i),
        ));
        assert(state.pending(i) is Some ==> state.pending(i) == Some(source(i)));
    }
    assert forall|i: int| 0 <= i < after.output.buffered.len() implies (
    #[trigger] after.output.buffered[i]) == source(after.output.popped + i) by {
        let index = after.output.popped + i;
        if i < state.output.buffered.len() {
            if state.output.is_open() {
                assert(after.output.buffered[i] == after.output.buffered.take(
                    state.output.buffered.len() as int,
                )[i]);
            }
            assert(state.output.buffered[i] == source(state.output.popped + i));
        } else {
            assert(state.known(first, data, index) == Some(after.output.buffered[i]));
        }
    }
}

/// No byte gets lost: while the output takes bytes, each byte of a fragment for
/// which there is room is written or waits afterwards, and so does each byte
/// that waited.
pub proof fn law_nothing_is_lost(
    state: ReassemblerView,
    first: u64,
    data: Seq<u8>,
    last: bool,
    index: int,
)
    requires
        state.valid(),
        state.rejection(first, data.len(), last) is None,
        state.output.is_open(),
        state.output.pushed() <= index,
        first <= index < first + data.len() && index < state.window_end() || state.pending(
            index,
        ) is Some,
    ensures
        index < state.after_insert(first, data, last).output.pushed() || state.after_insert(
            first,
            data,
            last,
        ).pending(index) is Some,
{
    lemma_insert(state, first, data, last);
    let after = state.after_insert(first, data, last);
    assert(state.known(first, data, index) is Some);
    assert(after.pending(index) == if index < after.output.pushed() {
        None
    } else {
        state.known(first, data, index)
    });
}

/// The same fragment once more changes nothing, while the output takes bytes
/// and the fragment did not complete the stream.
pub proof fn law_duplicate_changes_nothing(
    state: ReassemblerView,
    first: u64,
    data: Seq<u8>,
    last: bool,
)
    requires
        state.valid(),
        state.rejection(first, data.len(), last) is None,
        state.after_insert(first, data, last).output.is_open(),
    ensures
        ({
            let once = state.after_insert(first, data, last);
            let twice = once.after_insert(first, data, last);
            &&& once.rejection(first, data.len(), last) is None
            &&& twice.output == once.output
            &&& twice.eof == once.eof
            &&& forall|i: int| #[trigger] twice.pending(i) == once.pending(i)
        }),
{
    lemma_insert(state, first, data, last);
    let once = state.after_insert(first, data, last);
    assert(once.rejection(first, data.len(), last) is None);
    lemma_insert(once, first, data, last);
    let twice = once.after_insert(first, data, last);
    let end = once.output.pushed() as int;
    assert(state.output.is_open());
    assert(once.window_end() == state.window_end());
    assert forall|i: int| end <= i implies #[trigger] once.known(first, data, i) == once.pending(
        i,
    ) by {
        let fresh = once.clip_start(first) <= i < once.clip_end(first, data.len());
        assert(once.pending(i) == state.known(first, data, i));
        if fresh {
            assert(state.known(first, data, i) is Some);
            assert(state.known(first, data, end) is None);
            assert(once.clip_start(first) != end);
        }
    }
    assert(once.pending(end) == state.known(first, data, end));
    assert(once.known(first, data, end) is None);
    if twice.output.pushed() > end {
        assert(once.known(first, data, end) == Some(
            twice.output.buffered[end - once.output.popped],
        ));
    }
    assert(twice.output.buffered.len() == once.output.buffered.len());
    assert(twice.output.buffered.take(once.output.buffered.len() as int)
        =~= twice.output.buffered);
    assert(twice.output =~= once.output);
    assert forall|i: int| #[trigger] twice.pending(i) == once.pending(i) by {
        assert(once.pending(i) == if i < end {
            None
        } else {
            state.known(first, data, i)
        });
    }
}

/// The output is closed by a fragment exactly when the stream is complete then.
pub proof fn law_closed_when_complete(state: ReassemblerView, first: u64, data: Seq<u8>, last: bool)
    requires
        state.valid(),
        state.rejection(first, data.len(), last) is None,
        !state.output.closed,
    ensures
        state.after_insert(first, data, last).output.closed <==> state.after_insert(
            first,
            data,
            last,
        ).eof == Some(state.after_insert(first, data, last).output.pushed() as u64),
{
    lemma_insert(state, first, data, last);
}

/// Bytes that follow directly on the output, and for which there is room, are
/// written as they are, as one more chunk.
pub proof fn law_fitting_data_is_written(state: ReassemblerView, data: Seq<u8>, last: bool)
    requires
        state.valid(),
        state.output.is_open(),
        state.rejection(state.output.pushed() as u64, data.len(), last) is None,
        data.len() <= state.output.available(),
    ensures
        ({
            let after = state.after_insert(state.output.pushed() as u64, data, last).output;
            let before = state.output.buffered.len() as int;
            &&& after.buffered.len() >= before + data.len()
            &&& after.popped == state.output.popped
            &&& after.buffered.subrange(before, before + data.len()) == data
            &&& data.len() > 0 ==> {
                &&& after.chunks.len() > state.output.chunks.len()
                &&& after.chunks[state.output.chunks.len() as int] == data
            }
        }),
{
    let first = state.output.pushed() as u64;
    lemma_insert(state, first, data, last);
    let after = state.after_insert(first, data, last);
    let before = state.output.buffered.len() as int;
    assert forall|i: int| first <= i < first + data.len() implies #[trigger] state.known(
        first,
        data,
        i,
    ) == Some(data[i - first]) by {}
    if after.output.pushed() < first + data.len() {
        assert(state.known(first, data, after.output.pushed() as int) is Some);
    }
    assert forall|i: int| 0 <= i < data.len() implies after.output.buffered[before + i]
        == data[i] by {
        assert(state.known(first, data, first + i) == Some(
            after.output.buffered[first + i - state.output.popped],
        ));
    }
    assert(after.output.buffered.subrange(before, before + data.len()) =~= data);
    lemma_insert_chunks(state, first, data, last);
    if data.len() > 0 {
        assert(state.clip_end(first, data.len()) == first + data.len());
        assert(data.subrange(0, data.len() as int).take(data.len() as int) =~= data);
    }
}

/// As many bytes wait as there are indices for which one waits.
pub proof fn law_pending_bytes_are_counted(state: ReassemblerView)
    requires
        state.valid(),
    ensures
        Set::new(|i: int| state.pending(i) is Some).finite(),
        Set::new(|i: int| state.pending(i) is Some).len() == total_len(state.fragments),
{
    lemma_counted(state.fragments, state.output.pushed() as int, state.window_end());
    assert(Set::new(|i: int| state.pending(i) is Some) =~= Set::new(
        |i: int| byte_at(state.fragments, i) is Some,
    ));
}

proof fn lemma_counted(fragments: Seq<FragmentView>, low: int, high: int)
    requires
        in_order(fragments),
        within(fragments, low, high),
    ensures
        Set::new(|i: int| byte_at(fragments, i) is Some).finite(),
        Set::new(|i: int| byte_at(fragments, i) is Some).len() == total_len(fragments),
    decreases fragments.len(),
{
    let all = Set::new(|i: int| byte_at(fragments, i) is Some);
    if fragments.len() == 0 {
        assert(all =~= Set::empty());
    } else {
        let next = fragments[0];
        let rest = fragments.drop_first();
        let mine = set_int_range(next.start, next.end());
        let others = Set::new(|i: int| byte_at(rest, i) is Some);
        lemma_rest(fragments, low, high);
        lemma_counted(rest, next.end(), high);
        lemma_int_range(next.start, next.end());
        assert(mine.disjoint(others)) by {
            assert forall|i: int| mine.contains(i) implies !others.contains(i) by {
                lemma_outside(rest, next.end(), high, i);
            }
        }
        lemma_set_disjoint_lens(mine, others);
        assert(all =~= mine + others);
    }
}

/// Flushing leaves the chunks of the output as they are and adds others behind.
proof fn lemma_flushed_chunks(fragments: Seq<FragmentView>, output: StreamView)
    ensures
        flushed(fragments, output).1.chunks.len() >= output.chunks.len(),
        flushed(fragments, output).1.chunks.take(output.chunks.len() as int) == output.chunks,
    decreases fragments.len(),
{
    let after = flushed(fragments, output).1;
    if fragments.len() > 0 && fragments[0].start <= output.pushed() {
        let next = fragments[0];
        if next.end() <= output.pushed() {
            lemma_flushed_chunks(fragments.drop_first(), output);
        } else {
            let data = next.data.skip(output.pushed() - next.start);
            let grown = output.after_push(data);
            assert(grown.chunks.take(output.chunks.len() as int) =~= output.chunks);
            if output.accepted(data.len()) == data.len() {
                lemma_flushed_chunks(fragments.drop_first(), grown);
                assert(after.chunks.take(output.chunks.len() as int) =~= after.chunks.take(
                    grown.chunks.len() as int,
                ).take(output.chunks.len() as int));
            }
        }
    } else {
        assert(after.chunks.take(output.chunks.len() as int) =~= output.chunks);
    }
}

/// The chunks of the output stay, and what follows directly on them is the next
/// one.
proof fn lemma_insert_chunks(state: ReassemblerView, first: u64, data: Seq<u8>, last: bool)
    ensures
        ({
            let after = state.after_insert(first, data, last).output.chunks;
            let before = state.output.chunks;
            let start = state.clip_start(first);
            let end = state.clip_end(first, data.len());
            let clipped = data.subrange(start - first, end - first);
            &&& after.len() >= before.len()
            &&& after.take(before.len() as int) == before
            &&& start < end && start == state.output.pushed() && state.output.accepted(
                clipped.len(),
            ) > 0 ==> after.len() > before.len() && after[before.len() as int] == clipped.take(
                state.output.accepted(clipped.len()) as int,
            )
        }),
{
    let after = state.after_insert(first, data, last).output.chunks;
    let before = state.output.chunks;
    let start = state.clip_start(first);
    let end = state.clip_end(first, data.len());
    let clipped = data.subrange(start - first, end - first);
    if start >= end {
        assert(after.take(before.len() as int) =~= before);
    } else if start == state.output.pushed() {
        let grown = state.output.after_push(clipped);
        lemma_flushed_chunks(state.fragments, grown);
        assert(grown.chunks.take(before.len() as int) =~= before);
        assert(after.take(before.len() as int) =~= after.take(grown.chunks.len() as int).take(
            before.len() as int,
        ));
        if state.output.accepted(clipped.len()) > 0 {
            assert(after[before.len() as int] == after.take(
                grown.chunks.len() as int,
            )[before.len() as int]);
        }
    } else {
        lemma_flushed_chunks(filled(state.fragments, start, clipped), state.output);
    }
}

/// What was put together stays put together, in the same chunks, and a closed
/// output stays closed.
pub proof fn law_output_only_grows(state: ReassemblerView, first: u64, data: Seq<u8>, last: bool)
    requires
        state.valid(),
        state.rejection(first, data.len(), last) is None,
    ensures
        ({
            let after = state.after_insert(first, data, last).output;
            &&& after.popped == state.output.popped
            &&& after.buffered.len() >= state.output.buffered.len()
            &&& after.buffered.take(state.output.buffered.len() as int) == state.output.buffered
            &&& after.chunks.len() >= state.output.chunks.len()
            &&& after.chunks.take(state.output.chunks.len() as int) == state.output.chunks
            &&& state.output.closed ==> after.closed
            &&& after.error == state.output.error
        }),
{
    lemma_insert(state, first, data, last);
    lemma_insert_chunks(state, first, data, last);
    let after = state.after_insert(first, data, last).output;
    assert(after.buffered.take(state.output.buffered.len() as int) =~= state.output.buffered);
}

/// What can happen to a reassembler: a fragment of the stream comes, from the
/// index `first` up to the index `end`, or at most so many bytes are read from
/// the output.
pub enum ReassemblerAction {
    Insert { first: u64, end: u64, last: bool },
    Read(nat),
}

impl ReassemblerAction {
    /// Whether the action brings a fragment of a stream, marked as the last one
    /// only where the stream ends with it.
    pub open spec fn belongs_to(self, stream: Seq<u8>) -> bool {
        match self {
            ReassemblerAction::Insert { first, end, last } => {
                &&& first <= end <= stream.len()
                &&& last ==> end == stream.len()
            },
            ReassemblerAction::Read(len) => true,
        }
    }

    /// Whether the action brings the end of the stream.
    pub open spec fn is_last(self) -> bool {
        match self {
            ReassemblerAction::Insert { first, end, last } => last,
            ReassemblerAction::Read(len) => false,
        }
    }
}

/// Whether some action brings the end of the stream.
pub open spec fn brings_end(actions: Seq<ReassemblerAction>) -> bool {
    exists|i: int| 0 <= i < actions.len() && (#[trigger] actions[i]).is_last()
}

impl ReassemblerView {
    /// The reassembler after an action, where the bytes are those of a stream.
    pub open spec fn after(self, stream: Seq<u8>, action: ReassemblerAction) -> ReassemblerView {
        match action {
            ReassemblerAction::Insert { first, end, last } => self.after_insert(
                first,
                stream.subrange(first as int, end as int),
                last,
            ),
            ReassemblerAction::Read(len) => ReassemblerView {
                output: self.output.after_pop(len),
                ..self
            },
        }
    }

    /// The reassembler after all of these, one by one.
    pub open spec fn after_all(
        self,
        stream: Seq<u8>,
        actions: Seq<ReassemblerAction>,
    ) -> ReassemblerView
        decreases actions.len(),
    {
        if actions.len() == 0 {
            self
        } else {
            self.after_all(stream, actions.drop_last()).after(stream, actions.last())
        }
    }

    /// All bytes that are read from the output in the course of these.
    pub open spec fn all_read(self, stream: Seq<u8>, actions: Seq<ReassemblerAction>) -> Seq<u8>
        decreases actions.len(),
    {
        if actions.len() == 0 {
            Seq::empty()
        } else {
            let state = self.after_all(stream, actions.drop_last());
            self.all_read(stream, actions.drop_last()) + match actions.last() {
                ReassemblerAction::Read(len) => state.output.read(len),
                _ => Seq::empty(),
            }
        }
    }

    /// Whether one of these actions, the one at a place, brings a byte for an
    /// index at a time when there is room for it.
    pub open spec fn accepts_at(
        self,
        stream: Seq<u8>,
        actions: Seq<ReassemblerAction>,
        place: int,
        index: int,
    ) -> bool {
        let output = self.after_all(stream, actions.take(place)).output;
        match actions[place] {
            ReassemblerAction::Insert { first, end, last } => first <= index < end && index
                < output.popped + output.capacity,
            ReassemblerAction::Read(len) => false,
        }
    }

    /// Whether some of these actions brings a byte for an index at a time when
    /// there is room for it.
    pub open spec fn accepts(
        self,
        stream: Seq<u8>,
        actions: Seq<ReassemblerAction>,
        index: int,
    ) -> bool {
        exists|place: int|
            0 <= place < actions.len() && #[trigger] self.accepts_at(stream, actions, place, index)
    }
}

/// What holds of a reassembler after some actions that belong to one stream.
spec fn tells_stream(capacity: nat, stream: Seq<u8>, actions: Seq<ReassemblerAction>) -> bool {
    let fresh = ReassemblerView::fresh(capacity);
    let state = fresh.after_all(stream, actions);
    &&& state.valid()
    &&& state.output.capacity == capacity
    &&& !state.output.error
    &&& state.output.pushed() <= stream.len()
    &&& fresh.all_read(stream, actions).len() == state.output.popped
    &&& fresh.all_read(stream, actions) + state.output.buffered == stream.take(
        state.output.pushed() as int,
    )
    &&& forall|i: int| #[trigger]
        fresh.accepts(stream, actions, i) <==> 0 <= i < state.output.pushed() || state.pending(
            i,
        ) is Some
    &&& forall|i: int| (#[trigger] state.pending(i)) is Some ==> state.output.pushed() <= i
        < stream.len() && state.pending(i) == Some(stream[i])
    &&& state.eof == if brings_end(actions) {
        Some(stream.len() as u64)
    } else {
        None
    }
    &&& state.output.closed <==> brings_end(actions) && state.output.pushed() == stream.len()
}

/// A byte is accepted by the actions before the last one, or by the last one.
proof fn lemma_accepts_step(
    state: ReassemblerView,
    stream: Seq<u8>,
    actions: Seq<ReassemblerAction>,
    index: int,
)
    requires
        actions.len() > 0,
    ensures
        state.accepts(stream, actions, index) <==> state.accepts(
            stream,
            actions.drop_last(),
            index,
        ) || state.accepts_at(stream, actions, actions.len() - 1, index),
{
    let before = actions.drop_last();
    assert forall|place: int| 0 <= place < before.len() implies #[trigger] state.accepts_at(
        stream,
        before,
        place,
        index,
    ) == state.accepts_at(stream, actions, place, index) by {
        assert(before.take(place) =~= actions.take(place));
    }
    if state.accepts(stream, actions, index) {
        let place = choose|place: int|
            0 <= place < actions.len() && #[trigger] state.accepts_at(
                stream,
                actions,
                place,
                index,
            );
        if place < before.len() {
            assert(state.accepts_at(stream, before, place, index));
        }
    }
    if state.accepts(stream, before, index) {
        let place = choose|place: int|
            0 <= place < before.len() && #[trigger] state.accepts_at(stream, before, place, index);
        assert(state.accepts_at(stream, actions, place, index));
    }
}

proof fn lemma_brings_end_step(actions: Seq<ReassemblerAction>)
    requires
        actions.len() > 0,
    ensures
        brings_end(actions) <==> brings_end(actions.drop_last()) || actions.last().is_last(),
{
    let before = actions.drop_last();
    if brings_end(actions) {
        let i = choose|i: int| 0 <= i < actions.len() && (#[trigger] actions[i]).is_last();
        if i < before.len() {
            assert(before[i].is_last());
        }
    }
    if brings_end(before) {
        let i = choose|i: int| 0 <= i < before.len() && (#[trigger] before[i]).is_last();
        assert(actions[i].is_last());
    }
}

/// Where no byte waits at an index or beyond, all fragments end before it.
proof fn lemma_pending_ends(fragments: Seq<FragmentView>, end: int)
    requires
        in_order(fragments),
        forall|i: int| (#[trigger] byte_at(fragments, i)) is Some ==> i < end,
    ensures
        forall|i: int| 0 <= i < fragments.len() ==> (#[trigger] fragments[i]).end() <= end,
    decreases fragments.len(),
{
    if fragments.len() > 0 {
        let next = fragments[0];
        let rest = fragments.drop_first();
        assert(byte_at(fragments, next.end() - 1) is Some);
        assert forall|i: int| 0 <= i < rest.len() implies (#[trigger] rest[i]).data.len() > 0 by {
            assert(rest[i] == fragments[i + 1]);
        }
        assert forall|i: int, j: int| 0 <= i < j < rest.len() implies (#[trigger] rest[i]).end()
            <= (#[trigger] rest[j]).start by {
            assert(rest[i] == fragments[i + 1]);
            assert(rest[j] == fragments[j + 1]);
        }
        assert forall|i: int| (#[trigger] byte_at(rest, i)) is Some implies i < end by {
            assert(byte_at(fragments, i) is Some);
        }
        lemma_pending_ends(rest, end);
        assert forall|i: int| 0 <= i < fragments.len() implies (#[trigger] fragments[i]).end()
            <= end by {
            if i > 0 {
                assert(fragments[i] == rest[i - 1]);
            }
        }
    }
}

/// One more fragment of the stream.
#[verifier::rlimit(30)]
proof fn lemma_tells_insert(capacity: nat, stream: Seq<u8>, actions: Seq<ReassemblerAction>)
    requires
        actions.len() > 0,
        stream.len() <= u64::MAX,
        actions.last() is Insert,
        actions.last().belongs_to(stream),
        tells_stream(capacity, stream, actions.drop_last()),
    ensures
        tells_stream(capacity, stream, actions),
        ({
            let state = ReassemblerView::fresh(capacity).after_all(stream, actions.drop_last());
            actions.last() matches ReassemblerAction::Insert { first, end, last }
                && state.rejection(first, (end - first) as nat, last) is None
        }),
{
    let fresh = ReassemblerView::fresh(capacity);
    let state = fresh.after_all(stream, actions.drop_last());
    let after = fresh.after_all(stream, actions);
    if let ReassemblerAction::Insert { first, end, last } = actions.last() {
        let data = stream.subrange(first as int, end as int);
        lemma_brings_end_step(actions);
        assert forall|i: int| (#[trigger] byte_at(state.fragments, i)) is Some implies i
            < stream.len() by {
            assert(state.pending(i) is Some);
        }
        lemma_pending_ends(state.fragments, stream.len() as int);
        lemma_end_beyond(state.fragments, end as int);
        assert(state.rejection(first, data.len(), last) is None);
        lemma_insert(state, first, data, last);
        assert(actions.take(actions.len() - 1) =~= actions.drop_last());
        let begin = state.output.pushed() as int;
        let done = after.output.pushed() as int;
        assert forall|i: int| begin <= i implies ((#[trigger] state.known(first, data, i)) is Some
            <==> fresh.accepts(stream, actions, i)) && (state.known(first, data, i) is Some
            ==> i < stream.len() && state.known(first, data, i) == Some(stream[i])) by {
            lemma_accepts_step(fresh, stream, actions, i);
            assert(fresh.accepts(stream, actions.drop_last(), i) <==> 0 <= i < begin
                || state.pending(i) is Some);
            assert(state.pending(i) is Some ==> i < stream.len() && state.pending(i) == Some(
                stream[i],
            ));
        }
        assert forall|i: int| i < begin implies state.pending(i) is None by {
            assert(state.pending(i) is Some ==> begin <= i);
        }
        assert forall|i: int| i < begin implies (#[trigger] fresh.accepts(stream, actions, i)
            <==> 0 <= i) by {
            lemma_accepts_step(fresh, stream, actions, i);
            assert(fresh.accepts(stream, actions.drop_last(), i) <==> 0 <= i < begin
                || state.pending(i) is Some);
        }
        if state.output.is_open() {
            assert forall|i: int| #[trigger] fresh.accepts(stream, actions, i) <==> 0 <= i < done
                || after.pending(i) is Some by {
                if begin <= i {
                    assert(state.known(first, data, i) is Some <==> fresh.accepts(
                        stream,
                        actions,
                        i,
                    ));
                }
                assert(after.pending(i) == if i < done {
                    None
                } else {
                    state.known(first, data, i)
                });
            }
            assert forall|i: int| (#[trigger] after.pending(i)) is Some implies done <= i
                < stream.len() && after.pending(i) == Some(stream[i]) by {
                assert(state.known(first, data, i) is Some);
            }
            if done > begin {
                assert(state.known(first, data, done - 1) is Some);
            }
            let read = fresh.all_read(stream, actions);
            assert(read =~= fresh.all_read(stream, actions.drop_last()));
            assert forall|i: int| 0 <= i < done implies (read + after.output.buffered)[i]
                == stream[i] by {
                if i < begin {
                    assert((read + state.output.buffered)[i] == stream.take(begin)[i]);
                    if i >= read.len() {
                        assert(after.output.buffered[i - read.len()] == after.output.buffered.take(
                            state.output.buffered.len() as int,
                        )[i - read.len()]);
                    }
                } else {
                    assert(state.known(first, data, i) == Some(
                        after.output.buffered[i - state.output.popped],
                    ));
                }
            }
            assert(read + after.output.buffered =~= stream.take(done));
        } else {
            assert(begin == stream.len());
            assert forall|i: int| #[trigger] after.pending(i) == state.pending(i) by {}
            assert forall|i: int| #[trigger] fresh.accepts(stream, actions, i) <==> 0 <= i < done
                || after.pending(i) is Some by {
                if begin <= i {
                    assert(state.known(first, data, i) is Some <==> fresh.accepts(
                        stream,
                        actions,
                        i,
                    ));
                }
            }
            assert(fresh.all_read(stream, actions) =~= fresh.all_read(
                stream,
                actions.drop_last(),
            ));
        }
    }
}

/// One more read.
proof fn lemma_tells_read(capacity: nat, stream: Seq<u8>, actions: Seq<ReassemblerAction>)
    requires
        actions.len() > 0,
        stream.len() <= u64::MAX,
        actions.last() is Read,
        tells_stream(capacity, stream, actions.drop_last()),
    ensures
        tells_stream(capacity, stream, actions),
{
    let fresh = ReassemblerView::fresh(capacity);
    let state = fresh.after_all(stream, actions.drop_last());
    let after = fresh.after_all(stream, actions);
    if let ReassemblerAction::Read(len) = actions.last() {
        lemma_brings_end_step(actions);
        law_reading_keeps_valid(state, after.output);
        assert forall|i: int| #[trigger] after.pending(i) == state.pending(i) by {}
        assert forall|i: int| #[trigger] fresh.accepts(stream, actions, i) <==> 0 <= i
            < after.output.pushed() || after.pending(i) is Some by {
            lemma_accepts_step(fresh, stream, actions, i);
            assert(fresh.accepts(stream, actions.drop_last(), i) <==> 0 <= i
                < state.output.pushed() || state.pending(i) is Some);
        }
        let read = fresh.all_read(stream, actions);
        assert(read + after.output.buffered =~= fresh.all_read(stream, actions.drop_last())
            + state.output.buffered);
    }
}

proof fn lemma_tells(capacity: nat, stream: Seq<u8>, actions: Seq<ReassemblerAction>)
    requires
        stream.len() <= u64::MAX,
        forall|i: int| 0 <= i < actions.len() ==> (#[trigger] actions[i]).belongs_to(stream),
    ensures
        tells_stream(capacity, stream, actions),
    decreases actions.len(),
{
    let fresh = ReassemblerView::fresh(capacity);
    if actions.len() == 0 {
        assert(fresh.all_read(stream, actions) + fresh.output.buffered =~= stream.take(0));
        assert forall|i: int| (#[trigger] fresh.pending(i)) is None by {}
    } else {
        assert forall|i: int| 0 <= i < actions.drop_last().len() implies (
        #[trigger] actions.drop_last()[i]).belongs_to(stream) by {
            assert(actions[i].belongs_to(stream));
        }
        lemma_tells(capacity, stream, actions.drop_last());
        assert(actions[actions.len() - 1].belongs_to(stream));
        if actions.last() is Insert {
            lemma_tells_insert(capacity, stream, actions);
        } else {
            lemma_tells_read(capacity, stream, actions);
        }
    }
}

/// In whatever order, however often and with whatever overlaps the fragments of
/// one stream come, and however the output is read in between: what was read and
/// what the output holds are the beginning of the stream, up to the first index
/// for which no byte was accepted. The bytes accepted beyond it wait. The output
/// is closed exactly when the end of the stream was brought and reached.
pub proof fn law_every_history_tells_the_stream(
    capacity: nat,
    stream: Seq<u8>,
    actions: Seq<ReassemblerAction>,
)
    requires
        stream.len() <= u64::MAX,
        forall|i: int| 0 <= i < actions.len() ==> (#[trigger] actions[i]).belongs_to(stream),
    ensures
        ({
            let fresh = ReassemblerView::fresh(capacity);
            let state = fresh.after_all(stream, actions);
            let pushed = state.output.pushed() as int;
            let waiting = Set::new(|i: int| pushed <= i && fresh.accepts(stream, actions, i));
            &&& state.valid()
            &&& state.output.capacity == capacity
            &&& state.output.popped == fresh.all_read(stream, actions).len()
            &&& pushed <= stream.len()
            &&& fresh.all_read(stream, actions) + state.output.buffered == stream.take(pushed)
            &&& forall|i: int| 0 <= i < pushed ==> #[trigger] fresh.accepts(stream, actions, i)
            &&& !fresh.accepts(stream, actions, pushed)
            &&& forall|i: int| #[trigger]
                state.pending(i) == if pushed <= i && fresh.accepts(stream, actions, i) {
                    Some(stream[i])
                } else {
                    None
                }
            &&& waiting.finite()
            &&& waiting.len() == total_len(state.fragments)
            &&& state.eof == if brings_end(actions) {
                Some(stream.len() as u64)
            } else {
                None
            }
            &&& state.output.closed <==> brings_end(actions) && pushed == stream.len()
        }),
{
    let fresh = ReassemblerView::fresh(capacity);
    let state = fresh.after_all(stream, actions);
    let pushed = state.output.pushed() as int;
    let waiting = Set::new(|i: int| pushed <= i && fresh.accepts(stream, actions, i));
    lemma_tells(capacity, stream, actions);
    assert forall|i: int| #[trigger]
        state.pending(i) == if pushed <= i && fresh.accepts(stream, actions, i) {
            Some(stream[i])
        } else {
            None
        } by {
        assert(fresh.accepts(stream, actions, i) <==> 0 <= i < pushed || state.pending(i) is Some);
    }
    if state.output.is_open() {
        if state.pending(pushed) is Some {
            assert(within(state.fragments, pushed + 1, state.window_end())) by {
                assert forall|i: int| 0 <= i < state.fragments.len() implies pushed + 1 <= (
                #[trigger] state.fragments[i]).start by {
                    if i > 0 {
                        assert(state.fragments[0].end() <= state.fragments[i].start);
                    }
                }
            }
            lemma_outside(state.fragments, pushed + 1, state.window_end(), pushed);
        }
    }
    law_pending_bytes_are_counted(state);
    assert(waiting =~= Set::new(|i: int| state.pending(i) is Some));
}

/// No fragment of the stream is refused, whatever came before it.
pub proof fn law_fragments_of_one_stream_are_taken(
    capacity: nat,
    stream: Seq<u8>,
    actions: Seq<ReassemblerAction>,
    first: u64,
    end: u64,
    last: bool,
)
    requires
        stream.len() <= u64::MAX,
        forall|i: int| 0 <= i < actions.len() ==> (#[trigger] actions[i]).belongs_to(stream),
        (ReassemblerAction::Insert { first, end, last }).belongs_to(stream),
    ensures
        ReassemblerView::fresh(capacity).after_all(stream, actions).rejection(
            first,
            (end - first) as nat,
            last,
        ) is None,
{
    let more = actions.push(ReassemblerAction::Insert { first, end, last });
    lemma_tells(capacity, stream, actions);
    assert(more.drop_last() =~= actions);
    lemma_tells_insert(capacity, stream, more);
}

/// A byte waits for an index exactly if a fragment holds one for it.
pub proof fn law_waiting_bytes_lie_in_fragments(state: ReassemblerView, index: int)
    requires
        state.valid(),
    ensures
        state.pending(index) is Some <==> exists|k: int|
            0 <= k < state.fragments.len() && (#[trigger] state.fragments[k]).start <= index
                < state.fragments[k].start + state.fragments[k].data.len(),
        forall|k: int|
            0 <= k < state.fragments.len() && (#[trigger] state.fragments[k]).start <= index
                < state.fragments[k].start + state.fragments[k].data.len() ==> state.pending(index)
                == Some(state.fragments[k].data[index - state.fragments[k].start]),
{
    lemma_byte_at(state.fragments, state.output.pushed() as int, state.window_end(), index);
}

proof fn lemma_byte_at(fragments: Seq<FragmentView>, low: int, high: int, index: int)
    requires
        in_order(fragments),
        within(fragments, low, high),
    ensures
        byte_at(fragments, index) is Some ==> exists|k: int|
            0 <= k < fragments.len() && (#[trigger] fragments[k]).start <= index
                < fragments[k].start + fragments[k].data.len(),
        forall|k: int|
            0 <= k < fragments.len() && (#[trigger] fragments[k]).start <= index
                < fragments[k].start + fragments[k].data.len() ==> byte_at(fragments, index)
                == Some(fragments[k].data[index - fragments[k].start]),
    decreases fragments.len(),
{
    if fragments.len() > 0 {
        let next = fragments[0];
        let rest = fragments.drop_first();
        lemma_rest(fragments, low, high);
        lemma_byte_at(rest, next.end(), high, index);
        if next.start <= index < next.end() {
            assert(fragments[0].start <= index < fragments[0].start + fragments[0].data.len());
        } else if byte_at(rest, index) is Some {
            let k = choose|k: int|
                0 <= k < rest.len() && (#[trigger] rest[k]).start <= index < rest[k].start
                    + rest[k].data.len();
            assert(fragments[k + 1] == rest[k]);
        }
        assert forall|k: int|
            0 <= k < fragments.len() && (#[trigger] fragments[k]).start <= index
                < fragments[k].start + fragments[k].data.len() implies byte_at(fragments, index)
            == Some(fragments[k].data[index - fragments[k].start]) by {
            if k > 0 {
                assert(fragments[k] == rest[k - 1]);
                assert(fragments[0].end() <= fragments[k].start);
            }
        }
    }
}

/// What a fragment does while the output takes bytes. Each of its bytes that was
/// not written before, and for which there is room, is written or waits
/// afterwards, and so is every byte that waited; no other byte is. Where a byte
/// waited for the same index, that one stays, unless the fragment follows
/// directly on the output or overlaps its end: then those of the fragment count.
/// What is read and what is written before stays.
pub proof fn law_each_byte_gets_its_place(
    state: ReassemblerView,
    first: u64,
    data: Seq<u8>,
    last: bool,
    index: int,
)
    requires
        state.valid(),
        !state.output.closed,
        !state.output.error,
        state.rejection(first, data.len(), last) is None,
        state.output.popped + state.output.buffered.len() <= index,
    ensures
        ({
            let after = state.after_insert(first, data, last);
            let begin = state.output.popped + state.output.buffered.len();
            let end = after.output.popped + after.output.buffered.len();
            let brought = first <= index < first + data.len() && index < state.output.popped
                + state.output.capacity && index < u64::MAX;
            let there = if index < end {
                Some(after.output.buffered[index - after.output.popped])
            } else {
                after.pending(index)
            };
            let next = first <= begin;
            &&& there is Some <==> brought || state.pending(index) is Some
            &&& brought && (next || state.pending(index) is None) ==> there == Some(
                data[index - first],
            )
            &&& state.pending(index) is Some && !(brought && next) ==> there == state.pending(index)
            &&& after.output.popped == state.output.popped
            &&& after.output.capacity == state.output.capacity
            &&& after.output.error == state.output.error
            &&& begin <= end
            &&& after.output.buffered.take(state.output.buffered.len() as int)
                == state.output.buffered
            &&& index < end ==> after.pending(index) is None
            &&& after.pending(end as int) is None
        }),
{
    lemma_insert(state, first, data, last);
    let after = state.after_insert(first, data, last);
    let end = after.output.pushed() as int;
    assert(state.known(first, data, end) is None);
    assert(after.pending(end) == state.known(first, data, end));
    assert(after.pending(index) == if index < end {
        None
    } else {
        state.known(first, data, index)
    });
    if index < end {
        assert(state.known(first, data, index) == Some(
            after.output.buffered[index - state.output.popped],
        ));
    }
}

/// What a fragment does once the output is closed or failed: where it follows
/// directly on the output or overlaps its end, nothing; otherwise those of its
/// bytes for which there is room wait, behind those that waited.
pub proof fn law_shut_output_takes_nothing(
    state: ReassemblerView,
    first: u64,
    data: Seq<u8>,
    last: bool,
    index: int,
)
    requires
        state.valid(),
        state.output.closed || state.output.error,
        state.rejection(first, data.len(), last) is None,
    ensures
        ({
            let after = state.after_insert(first, data, last);
            let begin = state.output.popped + state.output.buffered.len();
            let brought = first <= index < first + data.len() && index < state.output.popped
                + state.output.capacity && index < u64::MAX;
            &&& after.output.buffered == state.output.buffered
            &&& after.output.chunks == state.output.chunks
            &&& after.output.popped == state.output.popped
            &&& after.output.capacity == state.output.capacity
            &&& after.output.error == state.output.error
            &&& state.pending(index) is Some ==> after.pending(index) == state.pending(index)
            &&& state.pending(index) is None ==> after.pending(index) == if brought && first
                > begin {
                Some(data[index - first])
            } else {
                None
            }
        }),
{
    lemma_insert(state, first, data, last);
    let after = state.after_insert(first, data, last);
    assert(after.pending(index) == if state.clip_start(first) == state.output.pushed() {
        state.pending(index)
    } else {
        state.known(first, data, index)
    });
}

/// The end of the stream is learned from a last fragment and otherwise stays; the
/// output is closed once it is reached.
pub proof fn law_end_is_learned(state: ReassemblerView, first: u64, data: Seq<u8>, last: bool)
    requires
        state.valid(),
        state.rejection(first, data.len(), last) is None,
    ensures
        ({
            let after = state.after_insert(first, data, last);
            let end = after.output.popped + after.output.buffered.len();
            &&& last ==> after.eof == Some((first + data.len()) as u64)
            &&& !last ==> after.eof == state.eof
            &&& after.output.closed <==> state.output.closed || after.eof == Some(end as u64)
        }),
{
    lemma_insert(state, first, data, last);
}

/// Which fragments are refused, and why: those that end beyond 64 bits; last ones
/// that end elsewhere than an earlier last one; others that go beyond the known
/// end; and a first last one that ends before what was written, or before what
/// waits, with the end of the first fragment that does.
pub proof fn law_which_fragments_are_refused(
    state: ReassemblerView,
    first: u64,
    len: nat,
    last: bool,
)
    requires
        state.valid(),
    ensures
        ({
            let told = state.rejection(first, len, last);
            let end = first + len;
            let written = state.output.popped + state.output.buffered.len();
            &&& told == Some(ReassemblerError::IndexOverflow) <==> end > u64::MAX
            &&& end <= u64::MAX && last ==> match state.eof {
                Some(eof) => told == if eof == end {
                    None
                } else {
                    Some(ReassemblerError::InconsistentEof { existing: eof, received: end as u64 })
                },
                None => {
                    &&& written > end ==> told == Some(
                        ReassemblerError::BufferedDataBeyondEof {
                            eof: end as u64,
                            buffered_end: written as u64,
                        },
                    )
                    &&& written <= end ==> (told is None <==> forall|k: int|
                        0 <= k < state.fragments.len() ==> (#[trigger] state.fragments[k]).start
                            + state.fragments[k].data.len() <= end)
                    &&& written <= end && told is Some ==> exists|k: int|
                        0 <= k < state.fragments.len() && told == Some(
                            ReassemblerError::BufferedDataBeyondEof {
                                eof: end as u64,
                                buffered_end: ((#[trigger] state.fragments[k]).start
                                    + state.fragments[k].data.len()) as u64,
                            },
                        ) && state.fragments[k].start + state.fragments[k].data.len() > end
                            && forall|j: int|
                            0 <= j < k ==> (#[trigger] state.fragments[j]).start
                                + state.fragments[j].data.len() <= end
                },
            }
            &&& end <= u64::MAX && !last ==> match state.eof {
                Some(eof) => told == if end <= eof {
                    None
                } else {
                    Some(
                        ReassemblerError::SegmentBeyondEof {
                            eof,
                            segment_start: first,
                            segment_end: end as u64,
                        },
                    )
                },
                None => told is None,
            }
        }),
{
    let end = first + len;
    lemma_end_beyond(state.fragments, end as int);
    if let Some(found) = end_beyond(state.fragments, end as int) {
        let k = lemma_first_beyond(state.fragments, end as int);
        assert(state.fragments[k].start + state.fragments[k].data.len() == found);
    } else {
        assert forall|k: int| 0 <= k < state.fragments.len() implies (
        #[trigger] state.fragments[k]).start + state.fragments[k].data.len() <= end by {
            assert(state.fragments[k].end() <= end);
        }
    }
}

proof fn lemma_first_beyond(fragments: Seq<FragmentView>, eof: int) -> (k: int)
    requires
        end_beyond(fragments, eof) is Some,
    ensures
        0 <= k < fragments.len(),
        end_beyond(fragments, eof) == Some(fragments[k].end()),
        fragments[k].end() > eof,
        forall|j: int| 0 <= j < k ==> (#[trigger] fragments[j]).end() <= eof,
    decreases fragments.len(),
{
    if fragments[0].end() > eof {
        0
    } else {
        let k = lemma_first_beyond(fragments.drop_first(), eof);
        assert forall|j: int| 0 <= j < k + 1 implies (#[trigger] fragments[j]).end() <= eof by {
            if j > 0 {
                assert(fragments[j] == fragments.drop_first()[j - 1]);
            }
        }
        k + 1
    }
}

/// A new reassembler has an open, empty output of the given capacity; nothing
/// waits, and no end is known.
pub proof fn law_new_reassembler_is_empty(capacity: nat)
    ensures
        ({
            let state = ReassemblerView::fresh(capacity);
            &&& state.output.capacity == capacity
            &&& state.output.buffered.len() == 0
            &&& state.output.popped == 0
            &&& !state.output.closed
            &&& !state.output.error
            &&& state.fragments.len() == 0
            &&& state.eof is None
        }),
{
}

/// What is told of a fragment that is refused, with the numbers that disagree.
pub proof fn law_what_is_told_of_refusals(a: u64, b: u64, c: u64)
    ensures
        ReassemblerError::IndexOverflow.text() == "reassembler index calculation overflowed"@,
        (ReassemblerError::InconsistentEof { existing: a, received: b }).text()
            == "inconsistent EOF indices: existing="@ + decimal(a as nat) + ", received="@
            + decimal(b as nat),
        (ReassemblerError::SegmentBeyondEof { eof: a, segment_start: b, segment_end: c }).text()
            == "segment ["@ + decimal(b as nat) + ", "@ + decimal(c as nat)
            + ") extends beyond EOF "@ + decimal(a as nat),
        (ReassemblerError::BufferedDataBeyondEof { eof: a, buffered_end: b }).text()
            == "buffered data ends at "@ + decimal(b as nat) + ", beyond EOF "@ + decimal(a as nat),
{
}

/// Where a fragment reaches from the end of the output into the first one that
/// waits, it is one more chunk, and what that one holds beyond it is the next.
pub proof fn law_waiting_fragment_is_a_chunk(
    state: ReassemblerView,
    data: Seq<u8>,
    last: bool,
)
    requires
        state.valid(),
        state.output.is_open(),
        state.fragments.len() > 0,
        state.rejection(state.output.pushed() as u64, data.len(), last) is None,
        state.fragments[0].start <= state.output.pushed() + data.len()
            < state.fragments[0].start + state.fragments[0].data.len(),
    ensures
        ({
            let before = state.output.chunks;
            let next = state.fragments[0];
            let after = state.after_insert(state.output.pushed() as u64, data, last).output.chunks;
            &&& after.len() >= before.len() + 2
            &&& after.take(before.len() as int) == before
            &&& after[before.len() as int] == data
            &&& after[(before.len() + 1) as int] == next.data.skip(
                state.output.pushed() + data.len() - next.start,
            )
        }),
{
    let first = state.output.pushed() as u64;
    let next = state.fragments[0];
    let end = (first + data.len()) as int;
    let before = state.output.chunks;
    let after = state.after_insert(first, data, last).output.chunks;
    assert(next.end() <= state.window_end());
    assert(data.len() > 0);
    assert(data.subrange(0, data.len() as int) =~= data);
    assert(data.take(data.len() as int) =~= data);
    let grown = state.output.after_push(data);
    assert(grown.pushed() == end);
    assert(grown.chunks =~= before.push(data));
    let more = next.data.skip(end - next.start);
    assert(more.take(more.len() as int) =~= more);
    assert(grown.accepted(more.len()) == more.len());
    let further = grown.after_push(more);
    assert(further.chunks =~= before.push(data).push(more));
    lemma_flushed_chunks(state.fragments.drop_first(), further);
    assert(after == flushed(state.fragments.drop_first(), further).1.chunks);
    assert(after.take(further.chunks.len() as int) == further.chunks);
    assert(after[before.len() as int] == after.take(further.chunks.len() as int)[before.len()
        as int]);
    assert(after[(before.len() + 1) as int] == after.take(further.chunks.len() as int)[(before.len()
        + 1) as int]);
    assert(after.take(before.len() as int) =~= before) by {
        assert forall|i: int| 0 <= i < before.len() implies after[i] == before[i] by {
            assert(after[i] == after.take(further.chunks.len() as int)[i]);
        }
    }
}

/// How many bytes wait is how many the fragments hold.
pub proof fn law_fragments_are_counted(first: FragmentView, rest: Seq<FragmentView>)
    ensures
        total_len(Seq::empty()) == 0,
        total_len(seq![first] + rest) == first.data.len() + total_len(rest),
{
    assert((seq![first] + rest).drop_first() =~= rest);
}

} // verus!
