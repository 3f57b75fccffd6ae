//! A byte stream with a writing end and a reading end, and a bound on how many
//! bytes may wait in between.
use crate::buffer::{contents, limit, slice, written};
use bytes::{Bytes, BytesMut};
use std::collections::vec_deque::Iter;
use std::collections::VecDeque;
use std::ops::Deref;
use vstd::prelude::*;
use vstd::std_specs::iter::IteratorSpec;

verus! {

/// What a byte stream is: how many bytes it may hold, the bytes that it holds,
/// the chunks in which they lie, how many were read from it before those, and
/// whether it was closed or failed.
#[verifier::ext_equal]
pub struct StreamView {
    pub capacity: nat,
    pub buffered: Seq<u8>,
    pub chunks: Seq<Seq<u8>>,
    pub popped: nat,
    pub closed: bool,
    pub error: bool,
}

impl StreamView {
    /// A stream to which nothing was written.
    pub open spec fn fresh(capacity: nat) -> StreamView {
        StreamView {
            capacity,
            buffered: Seq::empty(),
            chunks: Seq::empty(),
            popped: 0,
            closed: false,
            error: false,
        }
    }

    /// The stream holds no more than it may, and the chunks, none of which is
    /// empty, are what it holds.
    pub open spec fn valid(self) -> bool {
        &&& self.buffered.len() <= self.capacity
        &&& self.buffered == self.chunks.flatten()
        &&& forall|i: int| 0 <= i < self.chunks.len() ==> (#[trigger] self.chunks[i]).len() > 0
    }

    /// How many bytes were ever written.
    pub open spec fn pushed(self) -> nat {
        self.popped + self.buffered.len()
    }

    /// How many more bytes fit.
    pub open spec fn available(self) -> int {
        self.capacity - self.buffered.len()
    }

    /// Whether the stream takes any bytes.
    pub open spec fn is_open(self) -> bool {
        !self.closed && !self.error
    }

    /// How many bytes of a write of `len` bytes the stream takes: as many as
    /// fit, and none once it was closed or failed.
    pub open spec fn accepted(self, len: nat) -> nat {
        if !self.is_open() {
            0
        } else if len <= self.available() {
            len
        } else {
            self.available() as nat
        }
    }

    /// The stream after a write: what it takes is one more chunk.
    pub open spec fn after_push(self, data: Seq<u8>) -> StreamView {
        let taken = data.take(self.accepted(data.len()) as int);
        StreamView {
            buffered: self.buffered + taken,
            chunks: if taken.len() > 0 {
                self.chunks.push(taken)
            } else {
                self.chunks
            },
            ..self
        }
    }

    /// How many bytes a read of at most `len` bytes gives.
    pub open spec fn readable(self, len: nat) -> nat {
        if len <= self.buffered.len() {
            len
        } else {
            self.buffered.len()
        }
    }

    /// The stream after a read of at most `len` bytes.
    pub open spec fn after_pop(self, len: nat) -> StreamView {
        StreamView {
            buffered: self.buffered.skip(self.readable(len) as int),
            chunks: chunks_after(self.chunks, self.readable(len)),
            popped: self.popped + self.readable(len),
            ..self
        }
    }

    /// Whether `self` comes from `before` by reads, closing and failing alone:
    /// nothing was written in between.
    pub open spec fn only_read_since(self, before: StreamView) -> bool {
        &&& self.capacity == before.capacity
        &&& self.pushed() == before.pushed()
        &&& self.popped >= before.popped
        &&& self.buffered == before.buffered.skip(self.popped - before.popped)
        &&& before.closed ==> self.closed
        &&& before.error ==> self.error
    }
}

/// What can be done to a stream.
pub enum StreamAction {
    Push(Seq<u8>),
    Pop(nat),
    Close,
    SetError,
}

impl StreamView {
    /// What a read of at most `len` bytes gives.
    pub open spec fn read(self, len: nat) -> Seq<u8> {
        self.buffered.take(self.readable(len) as int)
    }

    /// The stream after something was done to it.
    pub open spec fn after(self, action: StreamAction) -> StreamView {
        match action {
            StreamAction::Push(data) => self.after_push(data),
            StreamAction::Pop(len) => self.after_pop(len),
            StreamAction::Close => StreamView { closed: true, ..self },
            StreamAction::SetError => StreamView { error: true, ..self },
        }
    }

    /// The stream after all of these, one by one.
    pub open spec fn after_all(self, actions: Seq<StreamAction>) -> StreamView
        decreases actions.len(),
    {
        if actions.len() == 0 {
            self
        } else {
            self.after_all(actions.drop_last()).after(actions.last())
        }
    }

    /// All bytes that the stream takes in the course of these.
    pub open spec fn all_taken(self, actions: Seq<StreamAction>) -> Seq<u8>
        decreases actions.len(),
    {
        if actions.len() == 0 {
            Seq::empty()
        } else {
            let stream = self.after_all(actions.drop_last());
            self.all_taken(actions.drop_last()) + match actions.last() {
                StreamAction::Push(data) => data.take(stream.accepted(data.len()) as int),
                _ => Seq::empty(),
            }
        }
    }

    /// All bytes that are read from the stream in the course of these.
    pub open spec fn all_read(self, actions: Seq<StreamAction>) -> Seq<u8>
        decreases actions.len(),
    {
        if actions.len() == 0 {
            Seq::empty()
        } else {
            let stream = self.after_all(actions.drop_last());
            self.all_read(actions.drop_last()) + match actions.last() {
                StreamAction::Pop(len) => stream.read(len),
                _ => Seq::empty(),
            }
        }
    }
}

/// What is left of a row of chunks without its first `len` bytes: the chunks
/// that lie behind them, the first of these cut where the bytes end inside it.
pub open spec fn chunks_after(chunks: Seq<Seq<u8>>, len: nat) -> Seq<Seq<u8>>
    decreases chunks.len(),
{
    if len == 0 || chunks.len() == 0 {
        chunks
    } else if len < chunks[0].len() {
        seq![chunks[0].skip(len as int)] + chunks.drop_first()
    } else {
        chunks_after(chunks.drop_first(), (len - chunks[0].len()) as nat)
    }
}

/// A bounded stream of bytes, held as the chunks in which they were written.
#[derive(Debug)]
pub struct ByteStream {
    capacity: usize,
    chunks: VecDeque<Bytes>,
    bytes_buffered: usize,
    closed: bool,
    error: bool,
    bytes_pushed: u64,
    bytes_popped: u64,
}

impl View for ByteStream {
    type V = StreamView;

    closed spec fn view(&self) -> StreamView {
        StreamView {
            capacity: self.capacity as nat,
            buffered: held(self.chunks@).flatten(),
            chunks: held(self.chunks@),
            popped: self.bytes_popped as nat,
            closed: self.closed,
            error: self.error,
        }
    }
}

impl ByteStream {
    /// The counts agree with the chunks, no more is buffered than the capacity
    /// allows, and no chunk is empty.
    pub closed spec fn wf(&self) -> bool {
        &&& self.bytes_buffered == self@.buffered.len()
        &&& self.bytes_buffered <= self.capacity
        &&& self.bytes_pushed == self.bytes_popped + self.bytes_buffered
        &&& forall|i: int|
            0 <= i < self.chunks@.len() ==> contents(#[trigger] self.chunks@[i]).len() > 0
    }

    /// The counts of a stream fit their types, and it holds no more than its
    /// capacity.
    pub proof fn lemma_bounds(&self)
        requires
            self.wf(),
        ensures
            self@.capacity <= usize::MAX,
            self@.pushed() <= u64::MAX,
            self@.valid(),
    {
    }

    pub fn new(capacity: usize) -> (stream: Self)
        ensures
            stream.wf(),
            stream@ == StreamView::fresh(capacity as nat),
    {
        let stream = Self {
            capacity,
            chunks: VecDeque::new(),
            bytes_buffered: 0,
            closed: false,
            error: false,
            bytes_pushed: 0,
            bytes_popped: 0,
        };
        assert(held(stream.chunks@) =~= Seq::empty());
        stream
    }

    /// Writes as much of `data` as the stream takes, as one more chunk, and
    /// tells how many bytes that was.
    pub fn push(&mut self, data: Bytes) -> (accepted: usize)
        requires
            old(self).wf(),
            old(self)@.pushed() + old(self)@.accepted(contents(data).len()) <= u64::MAX,
        ensures
            final(self).wf(),
            accepted == old(self)@.accepted(contents(data).len()),
            final(self)@ == old(self)@.after_push(contents(data)),
    {
        if self.closed || self.error {
            assert(self@.buffered =~= self@.buffered + contents(data).take(0));
            return 0;
        }
        let len: usize = data.len();
        let room: usize = self.available_capacity();
        let accepted: usize = if len <= room {
            len
        } else {
            room
        };
        if accepted > 0 {
            let chunk = if accepted == len {
                assert(contents(data).take(accepted as int) =~= contents(data));
                data
            } else {
                slice(&data, 0, accepted)
            };
            proof {
                lemma_held_push(self.chunks@, chunk);
                self@.chunks.lemma_flatten_push(contents(chunk));
            }
            self.chunks.push_back(chunk);
            self.bytes_buffered = self.bytes_buffered + accepted;
            self.bytes_pushed = self.bytes_pushed + accepted as u64;
        } else {
            assert(self@.buffered =~= self@.buffered + contents(data).take(0));
        }
        accepted
    }

    pub fn close(&mut self)
        requires
            old(self).wf(),
        ensures
            final(self).wf(),
            final(self)@ == old(self)@.after(StreamAction::Close),
    {
        self.closed = true;
    }

    pub fn is_closed(&self) -> (closed: bool)
        ensures
            closed == self@.closed,
    {
        self.closed
    }

    pub fn set_error(&mut self)
        requires
            old(self).wf(),
        ensures
            final(self).wf(),
            final(self)@ == old(self)@.after(StreamAction::SetError),
    {
        self.error = true;
    }

    pub fn has_error(&self) -> (error: bool)
        ensures
            error == self@.error,
    {
        self.error
    }

    pub fn capacity(&self) -> (capacity: usize)
        ensures
            capacity == self@.capacity,
    {
        self.capacity
    }

    pub fn available_capacity(&self) -> (available: usize)
        requires
            self.wf(),
        ensures
            available == self@.available(),
    {
        self.capacity - self.bytes_buffered
    }

    /// All bytes that wait to be read.
    pub fn peek(&self) -> (data: Bytes)
        requires
            self.wf(),
            self@.buffered.len() <= isize::MAX,
        ensures
            contents(data) == self@.buffered,
    {
        let count: usize = self.chunks.len();
        let ghost parts = self@.chunks;
        if count == 0 {
            assert(parts.flatten() =~= Seq::empty());
            return Bytes::new();
        }
        if count == 1 {
            proof {
                parts.lemma_flatten_one_element();
            }
            return self.chunks[0].clone();
        }
        let mut data = BytesMut::with_capacity(self.bytes_buffered);
        let mut index: usize = 0;
        assert(parts.take(0).flatten() =~= Seq::empty());
        while index < count
            invariant
                self.wf(),
                self@.buffered.len() <= isize::MAX,
                count == self.chunks@.len(),
                index <= count,
                parts == held(self.chunks@),
                parts.flatten() == self@.buffered,
                limit(data) == self@.buffered.len(),
                written(data) == parts.take(index as int).flatten(),
            decreases count - index,
        {
            proof {
                lemma_flatten_take(parts, index as int);
                lemma_flatten_split(parts, index + 1);
            }
            data.extend_from_slice(self.chunks[index].deref());
            index = index + 1;
        }
        assert(parts.take(count as int) =~= parts);
        data.freeze()
    }

    /// The chunks that wait to be read, in order.
    pub fn chunks(&self) -> (chunks: Iter<'_, Bytes>)
        ensures
            chunks.remaining().len() == self@.chunks.len(),
            forall|i: int|
                0 <= i < chunks.remaining().len() ==> contents(*#[trigger] chunks.remaining()[i])
                    == self@.chunks[i],
    {
        self.chunks.iter()
    }

    /// Takes the next `len` bytes out of the stream, or all where fewer wait.
    pub fn pop(&mut self, len: usize) -> (data: Bytes)
        requires
            old(self).wf(),
            old(self)@.readable(len as nat) <= isize::MAX,
        ensures
            final(self).wf(),
            contents(data) == old(self)@.read(len as nat),
            final(self)@ == old(self)@.after_pop(len as nat),
    {
        let total: usize = if len <= self.bytes_buffered {
            len
        } else {
            self.bytes_buffered
        };
        if total == 0 {
            return Bytes::new();
        }
        let ghost all = self@.buffered;
        let ghost parts = self@.chunks;
        proof {
            lemma_flatten_nonempty(parts);
            lemma_held_drop_first(self.chunks@);
        }
        let front = self.chunks.pop_front().unwrap();
        let front_len: usize = front.len();
        self.bytes_buffered = self.bytes_buffered - total;
        self.bytes_popped = self.bytes_popped + total as u64;
        if total < front_len {
            let suffix = slice(&front, total, front_len);
            proof {
                lemma_held_push_front(self.chunks@, suffix);
                lemma_flatten_push_front(held(self.chunks@), contents(suffix));
            }
            self.chunks.push_front(suffix);
            assert(contents(front).take(total as int) =~= all.take(total as int));
            assert(self@.buffered =~= all.skip(total as int));
            assert(self@.chunks =~= chunks_after(parts, total as nat));
            return slice(&front, 0, total);
        }
        assert(chunks_after(parts, total as nat) == chunks_after(
            parts.drop_first(),
            (total - front_len) as nat,
        ));
        if total == front_len {
            assert(contents(front) =~= all.take(total as int));
            assert(self@.buffered =~= all.skip(total as int));
            assert(chunks_after(parts, total as nat) == parts.drop_first());
            return front;
        }
        let mut data = BytesMut::with_capacity(total);
        data.extend_from_slice(front.deref());
        let mut rest: usize = total - front_len;
        assert(held(self.chunks@).flatten() =~= all.skip(total - rest));
        assert(written(data) =~= all.take(total - rest));
        while rest > 0
            invariant
                0 <= rest <= total <= isize::MAX,
                limit(data) == total,
                total <= all.len(),
                self.capacity == old(self).capacity,
                self.closed == old(self).closed,
                self.error == old(self).error,
                self.bytes_pushed == old(self).bytes_pushed,
                self.bytes_popped == old(self).bytes_popped + total,
                self.bytes_buffered == old(self).bytes_buffered - total,
                forall|i: int|
                    0 <= i < self.chunks@.len() ==> contents(#[trigger] self.chunks@[i]).len() > 0,
                held(self.chunks@).flatten() == all.skip(total - rest),
                written(data) == all.take(total - rest),
                chunks_after(parts, total as nat) == chunks_after(held(self.chunks@), rest as nat),
            decreases rest,
        {
            let ghost before = held(self.chunks@);
            proof {
                lemma_flatten_nonempty(before);
                lemma_held_drop_first(self.chunks@);
            }
            let chunk = self.chunks.pop_front().unwrap();
            let chunk_len: usize = chunk.len();
            assert(before.flatten() == contents(chunk) + held(self.chunks@).flatten());
            if rest < chunk_len {
                let prefix = slice(&chunk, 0, rest);
                let suffix = slice(&chunk, rest, chunk_len);
                data.extend_from_slice(prefix.deref());
                proof {
                    lemma_held_push_front(self.chunks@, suffix);
                    lemma_flatten_push_front(held(self.chunks@), contents(suffix));
                }
                self.chunks.push_front(suffix);
                assert(contents(prefix) =~= all.subrange(total - rest, total as int)) by {
                    assert forall|i: int| 0 <= i < rest implies contents(chunk)[i] == all[total
                        - rest + i] by {
                        assert(before.flatten()[i] == all.skip(total - rest)[i]);
                    }
                }
                assert(held(self.chunks@).flatten() =~= all.skip(total as int)) by {
                    assert(before.flatten().skip(rest as int) =~= all.skip(total as int));
                    assert(held(self.chunks@).flatten() =~= before.flatten().skip(rest as int));
                }
                assert(written(data) =~= all.take(total as int));
                assert(held(self.chunks@) =~= chunks_after(before, rest as nat));
                rest = 0;
            } else {
                data.extend_from_slice(chunk.deref());
                assert(contents(chunk) =~= all.subrange(
                    total - rest,
                    total - rest + chunk_len,
                )) by {
                    assert forall|i: int| 0 <= i < chunk_len implies contents(chunk)[i]
                        == all[total - rest + i] by {
                        assert(before.flatten()[i] == all.skip(total - rest)[i]);
                    }
                }
                assert(held(self.chunks@).flatten() =~= all.skip(total - rest + chunk_len)) by {
                    assert(before.flatten().skip(chunk_len as int) =~= all.skip(
                        total - rest + chunk_len,
                    ));
                    assert(held(self.chunks@).flatten() =~= before.flatten().skip(
                        chunk_len as int,
                    ));
                }
                rest = rest - chunk_len;
                assert(written(data) =~= all.take(total - rest));
            }
        }
        assert(chunks_after(parts, total as nat) == held(self.chunks@));
        data.freeze()
    }

    pub fn bytes_buffered(&self) -> (count: usize)
        requires
            self.wf(),
        ensures
            count == self@.buffered.len(),
    {
        self.bytes_buffered
    }

    pub fn bytes_pushed(&self) -> (count: u64)
        requires
            self.wf(),
        ensures
            count == self@.pushed(),
    {
        self.bytes_pushed
    }

    pub fn bytes_popped(&self) -> (count: u64)
        ensures
            count == self@.popped,
    {
        self.bytes_popped
    }

    /// Whether the stream was closed and everything was read.
    pub fn is_finished(&self) -> (finished: bool)
        requires
            self.wf(),
        ensures
            finished == (self@.closed && self@.buffered.len() == 0),
    {
        self.closed && self.bytes_buffered == 0
    }
}

/// What each of these buffers holds.
spec fn held(chunks: Seq<Bytes>) -> Seq<Seq<u8>> {
    Seq::new(chunks.len(), |i: int| contents(chunks[i]))
}

proof fn lemma_held_push(chunks: Seq<Bytes>, chunk: Bytes)
    ensures
        held(chunks.push(chunk)) == held(chunks).push(contents(chunk)),
{
    assert(held(chunks.push(chunk)) =~= held(chunks).push(contents(chunk)));
}

proof fn lemma_held_push_front(chunks: Seq<Bytes>, chunk: Bytes)
    ensures
        held(seq![chunk] + chunks) == seq![contents(chunk)] + held(chunks),
{
    assert(held(seq![chunk] + chunks) =~= seq![contents(chunk)] + held(chunks));
}

proof fn lemma_held_drop_first(chunks: Seq<Bytes>)
    requires
        chunks.len() > 0,
    ensures
        held(chunks.drop_first()) == held(chunks).drop_first(),
        held(chunks).flatten() == contents(chunks[0]) + held(chunks).drop_first().flatten(),
{
    assert(held(chunks.drop_first()) =~= held(chunks).drop_first());
}

proof fn lemma_flatten_push_front(parts: Seq<Seq<u8>>, part: Seq<u8>)
    ensures
        (seq![part] + parts).flatten() == part + parts.flatten(),
{
    assert((seq![part] + parts).drop_first() =~= parts);
}

/// Where bytes are left, a chunk is left.
proof fn lemma_flatten_nonempty(parts: Seq<Seq<u8>>)
    ensures
        parts.flatten().len() > 0 ==> parts.len() > 0,
{
}

/// One more chunk adds its bytes.
proof fn lemma_flatten_take(parts: Seq<Seq<u8>>, index: int)
    requires
        0 <= index < parts.len(),
    ensures
        parts.take(index + 1).flatten() == parts.take(index).flatten() + parts[index],
{
    assert(parts.take(index + 1) =~= parts.take(index).push(parts[index]));
    parts.take(index).lemma_flatten_push(parts[index]);
}

/// The first chunks hold no more than all of them.
proof fn lemma_flatten_split(parts: Seq<Seq<u8>>, index: int)
    requires
        0 <= index <= parts.len(),
    ensures
        parts.flatten().len() >= parts.take(index).flatten().len(),
{
    vstd::seq_lib::lemma_flatten_concat(parts.take(index), parts.skip(index));
    assert(parts.take(index) + parts.skip(index) =~= parts);
}

/// Chunks may be taken off in pieces.
proof fn lemma_chunks_after_twice(chunks: Seq<Seq<u8>>, first: nat, second: nat)
    ensures
        chunks_after(chunks_after(chunks, first), second) == chunks_after(chunks, first + second),
    decreases chunks.len(),
{
    if first > 0 && chunks.len() > 0 {
        let rest = chunks.drop_first();
        if first < chunks[0].len() {
            let cut = seq![chunks[0].skip(first as int)] + rest;
            assert(cut.drop_first() =~= rest);
            if first + second < chunks[0].len() {
                assert(cut[0].skip(second as int) =~= chunks[0].skip((first + second) as int));
            }
        } else {
            lemma_chunks_after_twice(rest, (first - chunks[0].len()) as nat, second);
        }
    }
}

/// What is read comes out in the order in which it was written: two reads give
/// what one read of both lengths gives.
pub proof fn law_reads_compose(stream: StreamView, first: nat, second: nat)
    ensures
        stream.after_pop(first).after_pop(second) == stream.after_pop(first + second),
        stream.read(first) + stream.after_pop(first).read(second) == stream.read(first + second),
{
    lemma_chunks_after_twice(
        stream.chunks,
        stream.readable(first),
        stream.after_pop(first).readable(second),
    );
    assert(stream.after_pop(first).after_pop(second) =~= stream.after_pop(first + second));
}

/// A read gives no more bytes than asked for, and none exactly if none were
/// asked for or none wait. It gives and leaves the same whether or not the
/// stream was closed or failed.
pub proof fn law_read_gives_what_waits(stream: StreamView, len: nat, closed: bool, error: bool)
    ensures
        stream.read(len).len() <= len,
        stream.read(len).len() == 0 <==> len == 0 || stream.buffered.len() == 0,
        stream.buffered == stream.read(len) + stream.after_pop(len).buffered,
        (StreamView { closed, error, ..stream }).read(len) == stream.read(len),
        (StreamView { closed, error, ..stream }).after_pop(len) == (StreamView {
            closed,
            error,
            ..stream.after_pop(len)
        }),
{
    assert(stream.buffered =~= stream.read(len) + stream.after_pop(len).buffered);
}

/// Whatever is done to a stream keeps it valid: it holds no more than it may,
/// and its chunks are what it holds.
pub proof fn law_every_action_keeps_valid(stream: StreamView, action: StreamAction)
    requires
        stream.valid(),
    ensures
        stream.after(action).valid(),
        stream.after(action).capacity == stream.capacity,
{
    match action {
        StreamAction::Push(data) => {
            let taken = data.take(stream.accepted(data.len()) as int);
            stream.chunks.lemma_flatten_push(taken);
            assert(stream.buffered + Seq::<u8>::empty() =~= stream.buffered);
        },
        StreamAction::Pop(len) => {
            lemma_chunks_after(stream.chunks, stream.readable(len));
        },
        _ => {},
    }
}

/// Taking off the first bytes of a row of chunks leaves the bytes behind them,
/// and no empty chunk.
proof fn lemma_chunks_after(chunks: Seq<Seq<u8>>, len: nat)
    requires
        len <= chunks.flatten().len(),
        forall|i: int| 0 <= i < chunks.len() ==> (#[trigger] chunks[i]).len() > 0,
    ensures
        chunks_after(chunks, len).flatten() == chunks.flatten().skip(len as int),
        forall|i: int|
            0 <= i < chunks_after(chunks, len).len() ==> (#[trigger] chunks_after(
                chunks,
                len,
            )[i]).len() > 0,
    decreases chunks.len(),
{
    let all = chunks.flatten();
    if len == 0 || chunks.len() == 0 {
        assert(all.skip(len as int) =~= all);
    } else {
        let rest = chunks.drop_first();
        if len < chunks[0].len() {
            let cut = chunks[0].skip(len as int);
            lemma_flatten_push_front(rest, cut);
            assert(cut + rest.flatten() =~= all.skip(len as int));
        } else {
            lemma_chunks_after(rest, (len - chunks[0].len()) as nat);
            assert(rest.flatten().skip(len - chunks[0].len()) =~= all.skip(len as int));
        }
    }
}

/// Whatever is done to a new stream, and in whatever order: the bytes that it
/// took are, in order, those that were read from it and those that it holds. The
/// counts say how many, and it never holds more than its capacity.
pub proof fn law_every_byte_is_read_or_buffered(capacity: nat, actions: Seq<StreamAction>)
    ensures
        ({
            let fresh = StreamView::fresh(capacity);
            let stream = fresh.after_all(actions);
            &&& fresh.all_taken(actions) == fresh.all_read(actions) + stream.buffered
            &&& stream.pushed() == fresh.all_taken(actions).len()
            &&& stream.popped == fresh.all_read(actions).len()
            &&& stream.pushed() - stream.popped == stream.buffered.len()
            &&& stream.buffered.len() <= capacity
            &&& stream.capacity == capacity
            &&& stream.valid()
        }),
    decreases actions.len(),
{
    let fresh = StreamView::fresh(capacity);
    if actions.len() == 0 {
        assert(fresh.chunks.flatten() =~= Seq::empty());
        assert(fresh.all_taken(actions) =~= fresh.all_read(actions) + fresh.buffered);
    } else {
        let stream = fresh.after_all(actions.drop_last());
        let after = fresh.after_all(actions);
        law_every_byte_is_read_or_buffered(capacity, actions.drop_last());
        law_every_action_keeps_valid(stream, actions.last());
        if let StreamAction::Pop(len) = actions.last() {
            law_read_gives_what_waits(stream, len, stream.closed, stream.error);
        }
        assert(fresh.all_taken(actions) =~= fresh.all_read(actions) + after.buffered);
    }
}

/// First in, first out: a write that fits into an open stream is read back
/// right behind the bytes that waited before it.
pub proof fn law_written_bytes_are_read_back(stream: StreamView, data: Seq<u8>)
    requires
        stream.is_open(),
        stream.buffered.len() + data.len() <= stream.capacity,
    ensures
        stream.after_push(data).after_pop(stream.buffered.len()).buffered == data,
        stream.after_push(data).buffered.take(stream.buffered.len() as int) == stream.buffered,
{
    assert(data.take(data.len() as int) =~= data);
}

/// Writing and reading never bring more bytes into the stream than its capacity,
/// and every byte written is either still buffered or was read.
pub proof fn law_capacity_and_counts(stream: StreamView, data: Seq<u8>, len: nat)
    requires
        stream.buffered.len() <= stream.capacity,
    ensures
        stream.after_push(data).buffered.len() <= stream.capacity,
        stream.after_pop(len).buffered.len() <= stream.capacity,
        stream.after_push(data).pushed() == stream.pushed() + stream.accepted(data.len()),
        stream.after_pop(len).pushed() == stream.pushed(),
        stream.after_pop(len).available() == stream.available() + stream.readable(len),
{
}

/// A stream that was closed or failed never takes another byte.
pub proof fn law_closed_rejects_data(stream: StreamView, data: Seq<u8>)
    requires
        stream.closed || stream.error,
    ensures
        stream.accepted(data.len()) == 0,
        stream.after_push(data) == stream,
{
    assert(stream.after_push(data) =~= stream);
}

/// What a write does. It adds a beginning of the data behind what waits: all of
/// it, or as much as fills the stream up. To a stream that was closed or failed it
/// adds nothing. What is added is one more chunk, and nothing else changes.
pub proof fn law_write_adds_what_fits(stream: StreamView, data: Seq<u8>)
    requires
        stream.buffered.len() <= stream.capacity,
    ensures
        ({
            let after = stream.after_push(data);
            let grown = after.buffered.len() - stream.buffered.len();
            &&& grown == stream.accepted(data.len())
            &&& 0 <= grown <= data.len()
            &&& after.buffered == stream.buffered + data.take(grown)
            &&& stream.closed || stream.error ==> grown == 0
            &&& !stream.closed && !stream.error ==> grown == data.len() || after.buffered.len()
                == stream.capacity
            &&& after.buffered.len() <= stream.capacity
            &&& grown == 0 ==> after.chunks == stream.chunks
            &&& grown > 0 ==> after.chunks == stream.chunks.push(data.take(grown))
            &&& after.capacity == stream.capacity
            &&& after.popped == stream.popped
            &&& after.closed == stream.closed
            &&& after.error == stream.error
        }),
{
}

/// What a read does. It takes bytes off the front: as many as asked for, or all.
/// It counts them, and changes nothing else.
pub proof fn law_read_takes_from_the_front(stream: StreamView, len: nat)
    ensures
        ({
            let data = stream.read(len);
            let after = stream.after_pop(len);
            &&& data + after.buffered == stream.buffered
            &&& data.len() <= len
            &&& data.len() == len || after.buffered.len() == 0
            &&& after.popped == stream.popped + data.len()
            &&& after.capacity == stream.capacity
            &&& after.closed == stream.closed
            &&& after.error == stream.error
        }),
{
    assert(stream.read(len) + stream.after_pop(len).buffered =~= stream.buffered);
}

/// What a read leaves are the last chunks, of which the first may have lost bytes
/// at its front.
pub proof fn law_read_leaves_the_last_chunks(stream: StreamView, len: nat, i: int)
    requires
        stream.valid(),
        0 <= i < stream.after_pop(len).chunks.len(),
    ensures
        ({
            let after = stream.after_pop(len).chunks;
            let gone = stream.chunks.len() - after.len();
            &&& gone >= 0
            &&& after[i].len() > 0
            &&& i > 0 ==> after[i] == stream.chunks[gone + i]
            &&& after[i].len() <= stream.chunks[gone + i].len()
            &&& after[i] == stream.chunks[gone + i].skip(
                stream.chunks[gone + i].len() - after[i].len(),
            )
            &&& after.flatten() == stream.after_pop(len).buffered
        }),
{
    law_every_action_keeps_valid(stream, StreamAction::Pop(len));
    lemma_last_chunks(stream.chunks, stream.readable(len), i);
}

proof fn lemma_last_chunks(chunks: Seq<Seq<u8>>, len: nat, i: int)
    requires
        0 <= i < chunks_after(chunks, len).len(),
    ensures
        ({
            let after = chunks_after(chunks, len);
            let gone = chunks.len() - after.len();
            &&& gone >= 0
            &&& i > 0 ==> after[i] == chunks[gone + i]
            &&& after[i].len() <= chunks[gone + i].len()
            &&& after[i] == chunks[gone + i].skip(chunks[gone + i].len() - after[i].len())
        }),
    decreases chunks.len(),
{
    let after = chunks_after(chunks, len);
    if len == 0 || chunks.len() == 0 {
        assert(chunks[i].skip(0) =~= chunks[i]);
    } else if len < chunks[0].len() {
        if i > 0 {
            assert(after[i] == chunks[i]);
            assert(chunks[i].skip(0) =~= chunks[i]);
        }
    } else {
        lemma_last_chunks(chunks.drop_first(), (len - chunks[0].len()) as nat, i);
    }
}

/// A new stream is open and empty, and all of its capacity is free.
pub proof fn law_new_stream_is_empty(capacity: nat)
    ensures
        ({
            let stream = StreamView::fresh(capacity);
            &&& stream.capacity == capacity
            &&& stream.buffered.len() == 0
            &&& stream.chunks.len() == 0
            &&& stream.popped == 0
            &&& stream.pushed() == 0
            &&& stream.available() == capacity
            &&& !stream.closed
            &&& !stream.error
        }),
{
}

/// Closing a stream, or failing it, changes nothing but that. How many bytes were
/// written is how many were read and how many wait; what is free is what does not
/// wait.
pub proof fn law_marks_and_counts(stream: StreamView)
    ensures
        stream.after(StreamAction::Close) == (StreamView { closed: true, ..stream }),
        stream.after(StreamAction::SetError) == (StreamView { error: true, ..stream }),
        stream.pushed() == stream.popped + stream.buffered.len(),
        stream.available() == stream.capacity - stream.buffered.len(),
{
}

/// Reading from a stream, closing it or failing it counts as only reading it;
/// taking in bytes does not.
pub proof fn law_what_only_reading_is(stream: StreamView, len: nat, data: Seq<u8>)
    requires
        stream.valid(),
    ensures
        stream.after(StreamAction::Pop(len)).only_read_since(stream),
        stream.after(StreamAction::Close).only_read_since(stream),
        stream.after(StreamAction::SetError).only_read_since(stream),
        stream.accepted(data.len()) > 0 ==> !stream.after(StreamAction::Push(data)).only_read_since(
            stream,
        ),
{
    assert(stream.buffered.skip(0) =~= stream.buffered);
}

} // verus!
