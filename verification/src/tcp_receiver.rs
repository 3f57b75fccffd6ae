//! The receiving end of a TCP byte stream.
use crate::byte_stream::{ByteStream, StreamView};
use crate::reassembler::{
    agrees_with, brings_end, law_every_history_tells_the_stream,
    law_fragments_of_one_stream_are_taken, law_output_is_the_stream, law_output_only_grows,
    Reassembler, ReassemblerAction, ReassemblerError, ReassemblerView,
};
use crate::tcp_message::{flag, SenderMessageView, TcpReceiverMessage, TcpSenderMessage};
use crate::tcp_sender::tells;
use crate::wrapping_integers::{distance, law_unwrap_of_wrap, unwrapped, wrapped, Wrap32};
use std::ops::Deref;
use vstd::prelude::*;

verus! {

/// What a receiver is: the stream that it puts together, and the sequence number
/// of the SYN, once it came.
#[verifier::ext_equal]
pub struct ReceiverView {
    pub reassembler: ReassemblerView,
    pub isn: Option<Wrap32>,
}

/// The sum of two numbers, or the largest 64-bit number where that is less.
pub open spec fn saturated(a: int, b: int) -> u64 {
    if a + b <= u64::MAX {
        (a + b) as u64
    } else {
        u64::MAX
    }
}

impl ReceiverView {
    /// The absolute sequence number of the first byte not yet put together: that
    /// of the SYN is zero.
    pub open spec fn next_seqno(self) -> u64 {
        saturated(self.reassembler.output.pushed() as int, 1)
    }

    /// The sequence number of the SYN by which a message is read: that of an
    /// earlier SYN, or its own. There is none where the message comes before any
    /// SYN or is a second, different SYN.
    pub open spec fn isn_for(self, message: SenderMessageView) -> Option<Wrap32> {
        match self.isn {
            Some(isn) => if message.syn && message.seqno != isn {
                None
            } else {
                Some(isn)
            },
            None => if message.syn {
                Some(message.seqno)
            } else {
                None
            },
        }
    }

    /// The index in the stream of the first byte of a message. A message at the
    /// sequence number of the SYN that is not a SYN has none.
    pub open spec fn index_of(self, message: SenderMessageView, isn: Wrap32) -> Option<u64> {
        let absolute = unwrapped(message.seqno, isn, self.next_seqno());
        if message.syn {
            Some(absolute)
        } else if absolute > 0 {
            Some((absolute - 1) as u64)
        } else {
            None
        }
    }

    /// Where the payload of a message goes in the stream, if it goes anywhere.
    pub open spec fn place_of(self, message: SenderMessageView) -> Option<u64> {
        if message.rst {
            None
        } else {
            match self.isn_for(message) {
                Some(isn) => self.index_of(message, isn),
                None => None,
            }
        }
    }

    /// Why the payload of a message is refused, if it is.
    pub open spec fn rejection(self, message: SenderMessageView) -> Option<ReassemblerError> {
        match self.place_of(message) {
            Some(index) => self.reassembler.rejection(index, message.payload.len(), message.fin),
            None => None,
        }
    }

    /// The receiver once it has seen a message.
    pub open spec fn after_receive(self, message: SenderMessageView) -> ReceiverView {
        if message.rst {
            ReceiverView {
                reassembler: ReassemblerView {
                    output: StreamView { error: true, ..self.reassembler.output },
                    ..self.reassembler
                },
                ..self
            }
        } else {
            ReceiverView {
                isn: match self.isn_for(message) {
                    Some(isn) => Some(isn),
                    None => self.isn,
                },
                reassembler: match self.place_of(message) {
                    Some(index) if self.rejection(message) is None => self.reassembler.after_insert(
                        index,
                        message.payload,
                        message.fin,
                    ),
                    _ => self.reassembler,
                },
            }
        }
    }

    /// The absolute sequence number that the receiver needs next: behind the
    /// SYN, the bytes put together, and the FIN where the stream is complete.
    pub open spec fn needed(self) -> u64 {
        saturated(self.next_seqno() as int, flag(self.reassembler.output.closed) as int)
    }

    /// What the receiver tells the sender.
    pub open spec fn feedback(self) -> TcpReceiverMessage {
        let available = self.reassembler.output.available();
        TcpReceiverMessage {
            ackno: match self.isn {
                Some(isn) => Some(wrapped(self.needed() as int, isn)),
                None => None,
            },
            window_size: if available <= u16::MAX {
                available as u16
            } else {
                u16::MAX
            },
            rst: self.reassembler.output.error,
        }
    }
}

/// The receiving end of a TCP byte stream.
#[derive(Debug)]
pub struct TcpReceiver {
    reassembler: Reassembler,
    isn: Option<Wrap32>,
}

impl View for TcpReceiver {
    type V = ReceiverView;

    closed spec fn view(&self) -> ReceiverView {
        ReceiverView { reassembler: self.reassembler@, isn: self.isn }
    }
}

impl TcpReceiver {
    pub closed spec fn wf(&self) -> bool {
        self.reassembler.wf()
    }

    pub proof fn lemma_wf(&self)
        requires
            self.wf(),
        ensures
            self@.reassembler.valid(),
    {
    }

    pub fn new(capacity: usize) -> (receiver: Self)
        ensures
            receiver.wf(),
            receiver@ == ReceiverView::fresh(capacity as nat),
    {
        Self { reassembler: Reassembler::new(capacity), isn: None }
    }

    /// Whether a SYN came.
    pub fn has_isn(&self) -> (known: bool)
        ensures
            known == (self@.isn is Some),
    {
        self.isn.is_some()
    }

    pub fn reassembler(&self) -> (reassembler: &Reassembler)
        ensures
            reassembler@ == self@.reassembler,
            self.wf() ==> reassembler.wf(),
    {
        &self.reassembler
    }

    pub fn reassembler_mut(&mut self) -> (reassembler: &mut Reassembler)
        ensures
            reassembler@ == old(self)@.reassembler,
            old(self).wf() ==> reassembler.wf(),
            final(self)@ == (ReceiverView { reassembler: final(reassembler)@, ..old(self)@ }),
            final(reassembler).wf() ==> final(self).wf(),
    {
        &mut self.reassembler
    }

    pub fn output(&self) -> (output: &ByteStream)
        ensures
            output@ == self@.reassembler.output,
            self.wf() ==> output.wf(),
    {
        self.reassembler.output()
    }

    /// The output, to be read from. As long as nothing is written to it the
    /// receiver stays well-formed.
    pub fn output_mut(&mut self) -> (output: &mut ByteStream)
        ensures
            output@ == old(self)@.reassembler.output,
            old(self).wf() ==> output.wf(),
            final(self)@ == (ReceiverView {
                reassembler: ReassemblerView {
                    output: final(output)@,
                    ..old(self)@.reassembler
                },
                ..old(self)@
            }),
            old(self).wf() && final(output).wf() && final(output)@.only_read_since(
                old(self)@.reassembler.output,
            ) ==> final(self).wf(),
    {
        self.reassembler.output_mut()
    }

    /// Takes in a segment of the other side.
    pub fn receive(&mut self, message: TcpSenderMessage) -> (result: Result<(), ReassemblerError>)
        requires
            old(self).wf(),
        ensures
            final(self).wf(),
            final(self)@ == old(self)@.after_receive(message@),
            match result {
                Ok(_) => old(self)@.rejection(message@) is None,
                Err(error) => old(self)@.rejection(message@) == Some(error),
            },
    {
        if message.rst {
            let output = self.reassembler.output_mut();
            output.set_error();
            proof {
                assert(self@.reassembler.output.buffered =~= old(
                    self,
                )@.reassembler.output.buffered.skip(0));
            }
            return Ok(());
        }
        let isn = match self.isn {
            Some(isn) => {
                if message.syn && message.seqno != isn {
                    return Ok(());
                }
                isn
            },
            None => {
                if !message.syn {
                    return Ok(());
                }
                self.isn = Some(message.seqno);
                message.seqno
            },
        };
        let checkpoint: u64 = self.reassembler.output().bytes_pushed().saturating_add(1);
        let absolute_seqno: u64 = message.seqno.unwrap(isn, checkpoint);
        let stream_index: u64 = if message.syn {
            absolute_seqno
        } else {
            if absolute_seqno == 0 {
                return Ok(());
            }
            absolute_seqno - 1
        };
        self.reassembler.try_insert(stream_index, message.payload.deref(), message.fin)
    }

    /// What to tell the sender of the other side.
    pub fn send(&self) -> (message: TcpReceiverMessage)
        requires
            self.wf(),
        ensures
            message == self@.feedback(),
    {
        let output = self.reassembler.output();
        let ackno = match self.isn {
            Some(isn) => {
                let mut absolute_ackno: u64 = output.bytes_pushed().saturating_add(1);
                if output.is_closed() {
                    absolute_ackno = absolute_ackno.saturating_add(1);
                }
                Some(Wrap32::wrap(absolute_ackno, isn))
            },
            None => None,
        };
        let available: usize = output.available_capacity();
        let window_size: u16 = if available <= u16::MAX as usize {
            available as u16
        } else {
            u16::MAX
        };
        TcpReceiverMessage { ackno, window_size, rst: output.has_error() }
    }
}

/// Before a SYN nothing is acknowledged, and nothing is taken in.
pub proof fn law_nothing_before_syn(receiver: ReceiverView, message: SenderMessageView)
    requires
        receiver.isn is None,
        !message.syn,
        !message.rst,
    ensures
        receiver.feedback().ackno is None,
        receiver.after_receive(message) == receiver,
        receiver.rejection(message) is None,
{
}

/// A SYN of another sequence number does not disturb a stream that has begun.
pub proof fn law_conflicting_syn_is_ignored(receiver: ReceiverView, message: SenderMessageView)
    requires
        receiver.isn is Some,
        message.syn,
        !message.rst,
        Some(message.seqno) != receiver.isn,
    ensures
        receiver.after_receive(message) == receiver,
        receiver.rejection(message) is None,
{
}

/// A segment that begins where the receiver asked it to goes right behind the
/// bytes put together so far.
pub proof fn law_acknowledged_is_next(receiver: ReceiverView, message: SenderMessageView)
    requires
        receiver.isn is Some,
        !receiver.reassembler.output.closed,
        receiver.reassembler.output.pushed() < u64::MAX,
        receiver.feedback().ackno == Some(message.seqno),
        !message.syn,
        !message.rst,
    ensures
        receiver.place_of(message) == Some(receiver.reassembler.output.pushed() as u64),
{
    law_unwrap_of_wrap(
        receiver.next_seqno(),
        receiver.isn->Some_0,
        receiver.next_seqno(),
    );
}

/// A segment that begins where the receiver asked it to, and fits, is put
/// together whole: the bytes of the stream grow by its payload at least.
pub proof fn law_next_segment_advances(receiver: ReceiverView, message: SenderMessageView)
    requires
        receiver.reassembler.valid(),
        receiver.isn is Some,
        receiver.reassembler.output.is_open(),
        receiver.reassembler.output.pushed() < u64::MAX,
        receiver.feedback().ackno == Some(message.seqno),
        message.payload.len() <= receiver.feedback().window_size,
        !message.syn,
        !message.rst,
        receiver.rejection(message) is None,
    ensures
        receiver.after_receive(message).reassembler.output.pushed()
            >= receiver.reassembler.output.pushed() + message.payload.len(),
        receiver.after_receive(message).reassembler.output.buffered.subrange(
            receiver.reassembler.output.buffered.len() as int,
            (receiver.reassembler.output.buffered.len() + message.payload.len()) as int,
        ) == message.payload,
{
    law_acknowledged_is_next(receiver, message);
    crate::reassembler::law_fitting_data_is_written(
        receiver.reassembler,
        message.payload,
        message.fin,
    );
}

/// The receiver puts together the stream that the sender sends: whatever comes
/// of it, in whatever order and however often, the output holds the bytes of
/// that stream, each at its place. A message counts that is less than 2^31
/// sequence numbers away from what the receiver needs next.
pub proof fn law_receiver_keeps_to_the_stream(
    receiver: ReceiverView,
    message: SenderMessageView,
    start: u64,
    isn: Wrap32,
    source: spec_fn(int) -> u8,
)
    requires
        receiver.reassembler.valid(),
        agrees_with(receiver.reassembler, source),
        receiver.isn is None || receiver.isn == Some(isn),
        tells(message, start as int, isn, source),
        distance(start as int, receiver.next_seqno() as int) < 0x8000_0000,
    ensures
        agrees_with(receiver.after_receive(message).reassembler, source),
        receiver.after_receive(message).isn is None || receiver.after_receive(message).isn == Some(
            isn,
        ) || message.rst,
{
    let after = receiver.after_receive(message);
    if message.rst {
        assert forall|i: int| (#[trigger] after.reassembler.pending(i)) is Some implies
            after.reassembler.pending(i) == Some(source(i)) by {
            assert(receiver.reassembler.pending(i) == after.reassembler.pending(i));
        }
    } else {
        law_unwrap_of_wrap(start, isn, receiver.next_seqno());
        assert(wrapped(0, isn) == isn);
        match receiver.place_of(message) {
            Some(index) => {
                if receiver.rejection(message) is None {
                    assert forall|i: int| 0 <= i < message.payload.len() implies (
                    #[trigger] message.payload[i]) == source(index + i) by {}
                    law_output_is_the_stream(
                        receiver.reassembler,
                        index,
                        message.payload,
                        message.fin,
                        source,
                    );
                }
            },
            None => {},
        }
    }
}

/// What the receiver acknowledges never goes back.
pub proof fn law_acknowledgement_never_goes_back(
    receiver: ReceiverView,
    message: SenderMessageView,
)
    requires
        receiver.reassembler.valid(),
    ensures
        receiver.after_receive(message).needed() >= receiver.needed(),
        receiver.isn is Some ==> receiver.after_receive(message).isn == receiver.isn,
{
    match receiver.place_of(message) {
        Some(index) => {
            if receiver.rejection(message) is None {
                law_output_only_grows(
                    receiver.reassembler,
                    index,
                    message.payload,
                    message.fin,
                );
            }
        },
        None => {},
    }
}

/// What can happen to a receiver: a segment of the sender's stream comes, with
/// the bytes from the index `first` up to the index `end`, or at most so many
/// bytes are read from the output.
pub enum ReceiverAction {
    Receive { first: u64, end: u64, syn: bool, fin: bool },
    Read(nat),
}

impl ReceiverAction {
    pub open spec fn is_syn(self) -> bool {
        match self {
            ReceiverAction::Receive { first, end, syn, fin } => syn,
            ReceiverAction::Read(len) => false,
        }
    }

    /// The absolute sequence number of the segment: that of the SYN is zero.
    pub open spec fn start(self) -> int {
        match self {
            ReceiverAction::Receive { first, end, syn, fin } => if syn {
                0
            } else {
                first + 1
            },
            ReceiverAction::Read(len) => 0,
        }
    }

    /// Whether the action brings a segment of a stream: with the SYN where the
    /// stream begins only, and with the FIN where it ends only.
    pub open spec fn belongs_to(self, stream: Seq<u8>) -> bool {
        match self {
            ReceiverAction::Receive { first, end, syn, fin } => {
                &&& first <= end <= stream.len()
                &&& syn ==> first == 0
                &&& fin ==> end == stream.len()
            },
            ReceiverAction::Read(len) => true,
        }
    }

    /// What the action does to the reassembler once the SYN came.
    pub open spec fn inserting(self) -> ReassemblerAction {
        match self {
            ReceiverAction::Receive { first, end, syn, fin } => ReassemblerAction::Insert {
                first,
                end,
                last: fin,
            },
            ReceiverAction::Read(len) => ReassemblerAction::Read(len),
        }
    }
}

/// Whether a SYN is among these.
pub open spec fn syn_came(actions: Seq<ReceiverAction>) -> bool {
    exists|i: int| 0 <= i < actions.len() && (#[trigger] actions[i]).is_syn()
}

/// What these do to the reassembler: segments before the first SYN do nothing.
pub open spec fn insertions(actions: Seq<ReceiverAction>) -> Seq<ReassemblerAction>
    decreases actions.len(),
{
    if actions.len() == 0 {
        Seq::empty()
    } else if syn_came(actions) || actions.last() is Read {
        insertions(actions.drop_last()).push(actions.last().inserting())
    } else {
        insertions(actions.drop_last())
    }
}

impl ReceiverView {
    /// A receiver to which nothing came.
    pub open spec fn fresh(capacity: nat) -> ReceiverView {
        ReceiverView { reassembler: ReassemblerView::fresh(capacity), isn: None }
    }

    /// The receiver after an action, where the bytes are those of a stream whose
    /// SYN has the sequence number `isn`.
    pub open spec fn after(
        self,
        stream: Seq<u8>,
        isn: Wrap32,
        action: ReceiverAction,
    ) -> ReceiverView {
        match action {
            ReceiverAction::Receive { first, end, syn, fin } => self.after_receive(
                SenderMessageView {
                    seqno: wrapped(action.start(), isn),
                    syn,
                    payload: stream.subrange(first as int, end as int),
                    fin,
                    rst: false,
                },
            ),
            ReceiverAction::Read(len) => ReceiverView {
                reassembler: self.reassembler.after(stream, ReassemblerAction::Read(len)),
                ..self
            },
        }
    }

    /// The receiver after all of these, one by one.
    pub open spec fn after_all(
        self,
        stream: Seq<u8>,
        isn: Wrap32,
        actions: Seq<ReceiverAction>,
    ) -> ReceiverView
        decreases actions.len(),
    {
        if actions.len() == 0 {
            self
        } else {
            self.after_all(stream, isn, actions.drop_last()).after(stream, isn, actions.last())
        }
    }

    /// Whether the segment at a place comes when the receiver needs a sequence
    /// number less than 2^31 away.
    pub open spec fn in_time(
        self,
        stream: Seq<u8>,
        isn: Wrap32,
        actions: Seq<ReceiverAction>,
        place: int,
    ) -> bool {
        actions[place] is Receive ==> distance(
            actions[place].start(),
            self.after_all(stream, isn, actions.take(place)).next_seqno() as int,
        ) < 0x8000_0000
    }
}

proof fn lemma_syn_step(actions: Seq<ReceiverAction>)
    requires
        actions.len() > 0,
    ensures
        syn_came(actions) <==> syn_came(actions.drop_last()) || actions.last().is_syn(),
{
    let before = actions.drop_last();
    if syn_came(actions) {
        let i = choose|i: int| 0 <= i < actions.len() && (#[trigger] actions[i]).is_syn();
        if i < before.len() {
            assert(before[i].is_syn());
        }
    }
    if syn_came(before) {
        let i = choose|i: int| 0 <= i < before.len() && (#[trigger] before[i]).is_syn();
        assert(actions[i].is_syn());
    }
}

/// A segment that comes in time goes where it belongs in the stream.
proof fn lemma_segment_is_inserted(
    receiver: ReceiverView,
    stream: Seq<u8>,
    isn: Wrap32,
    action: ReceiverAction,
)
    requires
        stream.len() < u64::MAX,
        action is Receive,
        action.belongs_to(stream),
        receiver.isn is None || receiver.isn == Some(isn),
        distance(action.start(), receiver.next_seqno() as int) < 0x8000_0000,
        action matches ReceiverAction::Receive { first, end, syn, fin } ==> (receiver.isn is Some
            || syn) ==> receiver.reassembler.rejection(first, (end - first) as nat, fin) is None,
    ensures
        receiver.after(stream, isn, action) == if receiver.isn is Some || action.is_syn() {
            ReceiverView {
                reassembler: receiver.reassembler.after(stream, action.inserting()),
                isn: Some(isn),
            }
        } else {
            receiver
        },
{
    law_unwrap_of_wrap(action.start() as u64, isn, receiver.next_seqno());
    assert(wrapped(0, isn) == isn);
}

/// What becomes of a receiver by these.
spec fn is_reassembled(
    capacity: nat,
    stream: Seq<u8>,
    isn: Wrap32,
    actions: Seq<ReceiverAction>,
) -> bool {
    let inserted = insertions(actions);
    &&& ReceiverView::fresh(capacity).after_all(stream, isn, actions) == (ReceiverView {
        reassembler: ReassemblerView::fresh(capacity).after_all(stream, inserted),
        isn: if syn_came(actions) {
            Some(isn)
        } else {
            None
        },
    })
    &&& forall|i: int| 0 <= i < inserted.len() ==> (#[trigger] inserted[i]).belongs_to(stream)
}

proof fn lemma_reassembled_step(
    capacity: nat,
    stream: Seq<u8>,
    isn: Wrap32,
    actions: Seq<ReceiverAction>,
)
    requires
        stream.len() < u64::MAX,
        actions.len() > 0,
        actions.last().belongs_to(stream),
        ReceiverView::fresh(capacity).in_time(stream, isn, actions, actions.len() - 1),
        is_reassembled(capacity, stream, isn, actions.drop_last()),
    ensures
        is_reassembled(capacity, stream, isn, actions),
{
    let before = actions.drop_last();
    let action = actions.last();
    let inserted = insertions(actions);
    let receiver = ReceiverView::fresh(capacity).after_all(stream, isn, before);
    lemma_syn_step(actions);
    assert(actions.take(actions.len() - 1) =~= before);
    if let ReceiverAction::Receive { first, end, syn, fin } = action {
        law_fragments_of_one_stream_are_taken(
            capacity,
            stream,
            insertions(before),
            first,
            end,
            fin,
        );
        lemma_segment_is_inserted(receiver, stream, isn, action);
    }
    if syn_came(actions) || action is Read {
        assert(inserted.drop_last() =~= insertions(before));
        assert(inserted.last() == action.inserting());
        assert forall|i: int| 0 <= i < inserted.len() implies (#[trigger] inserted[i]).belongs_to(
            stream,
        ) by {
            if i < insertions(before).len() {
                assert(insertions(before)[i].belongs_to(stream));
            }
        }
    }
}

proof fn lemma_reassembled(
    capacity: nat,
    stream: Seq<u8>,
    isn: Wrap32,
    actions: Seq<ReceiverAction>,
)
    requires
        stream.len() < u64::MAX,
        forall|i: int| 0 <= i < actions.len() ==> (#[trigger] actions[i]).belongs_to(stream),
        forall|i: int|
            0 <= i < actions.len() ==> #[trigger] ReceiverView::fresh(capacity).in_time(
                stream,
                isn,
                actions,
                i,
            ),
    ensures
        is_reassembled(capacity, stream, isn, actions),
    decreases actions.len(),
{
    let fresh = ReceiverView::fresh(capacity);
    if actions.len() > 0 {
        let before = actions.drop_last();
        assert forall|i: int| 0 <= i < before.len() implies (#[trigger] before[i]).belongs_to(
            stream,
        ) by {
            assert(actions[i].belongs_to(stream));
        }
        assert forall|i: int| 0 <= i < before.len() implies #[trigger] fresh.in_time(
            stream,
            isn,
            before,
            i,
        ) by {
            assert(fresh.in_time(stream, isn, actions, i));
            assert(before.take(i) =~= actions.take(i));
        }
        lemma_reassembled(capacity, stream, isn, before);
        assert(actions[actions.len() - 1].belongs_to(stream));
        assert(fresh.in_time(stream, isn, actions, actions.len() - 1));
        lemma_reassembled_step(capacity, stream, isn, actions);
    }
}

/// From the SYN on a receiver is a reassembler: whatever segments of one stream
/// come, and however the output is read in between, each goes where it belongs
/// in the stream. Segments before the SYN do nothing. So what was read and what
/// the output holds are the beginning of the stream, the output is closed exactly
/// when the FIN came and all bytes before it, and the acknowledgement is the next
/// sequence number behind. Each segment comes less than 2^31 sequence numbers
/// away from what the receiver needs then.
pub proof fn law_every_history_is_reassembled(
    capacity: nat,
    stream: Seq<u8>,
    isn: Wrap32,
    actions: Seq<ReceiverAction>,
)
    requires
        stream.len() < u64::MAX,
        forall|i: int| 0 <= i < actions.len() ==> (#[trigger] actions[i]).belongs_to(stream),
        forall|i: int|
            0 <= i < actions.len() ==> #[trigger] ReceiverView::fresh(capacity).in_time(
                stream,
                isn,
                actions,
                i,
            ),
    ensures
        ({
            let receiver = ReceiverView::fresh(capacity).after_all(stream, isn, actions);
            let inserted = insertions(actions);
            let fresh = ReassemblerView::fresh(capacity);
            let pushed = receiver.reassembler.output.pushed() as int;
            &&& receiver.reassembler == fresh.after_all(stream, inserted)
            &&& forall|i: int|
                0 <= i < inserted.len() ==> (#[trigger] inserted[i]).belongs_to(stream)
            &&& receiver.isn == if syn_came(actions) {
                Some(isn)
            } else {
                None
            }
            &&& fresh.all_read(stream, inserted) + receiver.reassembler.output.buffered
                == stream.take(pushed)
            &&& receiver.reassembler.output.closed <==> brings_end(inserted) && pushed
                == stream.len()
            &&& receiver.feedback().ackno == if syn_came(actions) {
                Some(wrapped(receiver.needed() as int, isn))
            } else {
                None
            }
            &&& receiver.next_seqno() == pushed + 1
        }),
{
    lemma_reassembled(capacity, stream, isn, actions);
    law_every_history_tells_the_stream(capacity, stream, insertions(actions));
}

/// What the receiver tells the sender: once the SYN came, the sequence number
/// behind everything put together, which counts one for the SYN, one for each
/// byte and one for the end of the stream once it is reached, as far as 64 bits
/// go; how many more bytes fit, up to 65535; and whether the stream failed.
pub proof fn law_feedback(receiver: ReceiverView)
    requires
        receiver.reassembler.valid(),
    ensures
        ({
            let output = receiver.reassembler.output;
            let told = receiver.feedback();
            let free = output.capacity - output.buffered.len();
            let behind = output.popped + output.buffered.len() + if output.closed {
                2int
            } else {
                1
            };
            &&& receiver.isn is None ==> told.ackno is None
            &&& receiver.isn matches Some(isn) ==> told.ackno == Some(
                wrapped(
                    if behind <= u64::MAX {
                        behind
                    } else {
                        u64::MAX as int
                    },
                    isn,
                ),
            )
            &&& free <= 65535 ==> told.window_size == free
            &&& free > 65535 ==> told.window_size == 65535
            &&& told.rst == output.error
        }),
{
}

/// Where the payload of a segment goes. The SYN has the absolute sequence number
/// zero, and the byte with the index `i` in the stream the number `i + 1`. So the
/// payload of a segment with the SYN goes to the index zero, that of one without
/// it to the index before its absolute number, which is the nearest to what the
/// receiver needs next. Nothing else of the receiver changes, but that it knows
/// the number of the SYN then. A segment whose bytes do not belong to the stream,
/// or one without SYN at the number of the SYN, is passed over.
pub proof fn law_payload_goes_to_its_index(
    receiver: ReceiverView,
    message: SenderMessageView,
    isn: Wrap32,
    absolute: u64,
)
    requires
        receiver.reassembler.valid(),
        !message.rst,
        receiver.isn == Some(isn) || receiver.isn is None && message.syn,
        message.seqno == wrapped(absolute as int, isn),
        message.syn ==> absolute == 0,
        -0x8000_0000 < absolute - (receiver.reassembler.output.popped
            + receiver.reassembler.output.buffered.len() + 1) < 0x8000_0000,
        receiver.reassembler.output.popped + receiver.reassembler.output.buffered.len() < u64::MAX,
    ensures
        ({
            let before = receiver.reassembler;
            let after = receiver.after_receive(message);
            let index = if message.syn {
                0u64
            } else {
                (absolute - 1) as u64
            };
            let told = before.rejection(index, message.payload.len(), message.fin);
            &&& after.isn == Some(isn)
            &&& !message.syn && absolute == 0 ==> after.reassembler == before
                && receiver.rejection(message) is None
            &&& message.syn || absolute > 0 ==> receiver.rejection(message) == told
            &&& (message.syn || absolute > 0) && told is None ==> after.reassembler
                == before.after_insert(index, message.payload, message.fin)
            &&& (message.syn || absolute > 0) && told is Some ==> after.reassembler == before
        }),
{
    law_unwrap_of_wrap(absolute, isn, receiver.next_seqno());
    assert(wrapped(0, isn) == isn);
}

/// A reset fails the output and changes nothing else; it is never refused.
pub proof fn law_reset_fails_the_output(receiver: ReceiverView, message: SenderMessageView)
    requires
        message.rst,
    ensures
        ({
            let after = receiver.after_receive(message);
            &&& after.reassembler.output.error
            &&& after.reassembler.output.buffered == receiver.reassembler.output.buffered
            &&& after.reassembler.output.chunks == receiver.reassembler.output.chunks
            &&& after.reassembler.output.popped == receiver.reassembler.output.popped
            &&& after.reassembler.output.capacity == receiver.reassembler.output.capacity
            &&& after.reassembler.output.closed == receiver.reassembler.output.closed
            &&& after.reassembler.fragments == receiver.reassembler.fragments
            &&& after.reassembler.eof == receiver.reassembler.eof
            &&& after.isn == receiver.isn
            &&& receiver.rejection(message) is None
        }),
{
}

/// The first SYN is what the stream is counted from, whatever its number is.
pub proof fn law_first_syn_is_remembered(receiver: ReceiverView, message: SenderMessageView)
    requires
        receiver.isn is None,
        message.syn,
        !message.rst,
    ensures
        receiver.after_receive(message).isn == Some(message.seqno),
{
}

/// A new receiver knows no SYN and has put nothing together.
pub proof fn law_new_receiver_is_empty(capacity: nat)
    ensures
        ReceiverView::fresh(capacity).isn is None,
        ReceiverView::fresh(capacity).reassembler.output.capacity == capacity,
        ReceiverView::fresh(capacity).reassembler.output.buffered.len() == 0,
        ReceiverView::fresh(capacity).reassembler.output.popped == 0,
        !ReceiverView::fresh(capacity).reassembler.output.closed,
        !ReceiverView::fresh(capacity).reassembler.output.error,
        ReceiverView::fresh(capacity).reassembler.fragments.len() == 0,
        ReceiverView::fresh(capacity).reassembler.eof is None,
{
}

/// However far a segment is from what the receiver needs next, its payload goes to
/// the index that its sequence number stands for next to that, or is refused by
/// the reassembler there.
pub proof fn law_sequence_number_is_the_place(
    receiver: ReceiverView,
    message: SenderMessageView,
    isn: Wrap32,
)
    requires
        !message.rst,
        receiver.isn == Some(isn) && (message.syn ==> message.seqno == isn) || receiver.isn is None
            && message.syn && message.seqno == isn,
    ensures
        ({
            let before = receiver.reassembler;
            let after = receiver.after_receive(message);
            let behind = before.output.popped + before.output.buffered.len() + 1;
            let needed = if behind <= u64::MAX {
                behind as u64
            } else {
                u64::MAX
            };
            let absolute = unwrapped(message.seqno, isn, needed);
            let index = (if message.syn {
                absolute as int
            } else {
                absolute - 1
            }) as u64;
            let told = before.rejection(index, message.payload.len(), message.fin);
            &&& after.isn == Some(isn)
            &&& if message.syn || absolute > 0 {
                &&& receiver.rejection(message) == told
                &&& after.reassembler == if told is None {
                    before.after_insert(index, message.payload, message.fin)
                } else {
                    before
                }
            } else {
                &&& receiver.rejection(message) is None
                &&& after.reassembler == before
            }
        }),
{
}

} // verus!
