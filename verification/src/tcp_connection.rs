//! A TCP connection: a sender and a receiver that share their segments.
use crate::buffer::contents;
use crate::byte_stream::StreamView;
use crate::reassembler::agrees_with;
use crate::tcp_message::{flag, SenderMessageView, TcpSenderMessage};
use crate::tcp_receiver::{law_receiver_keeps_to_the_stream, ReceiverView, TcpReceiver};
use crate::tcp_segment::{segment_from, TcpSegment, TcpSegmentView};
use crate::tcp_sender::{
    accounted, joined_payloads, law_fill_sends_what_fits, law_finished_when_all_is_acknowledged,
    law_messages_carry_the_stream, law_receive, lemma_after_next_message, lemma_fill_step,
    message_views, sends_stream, tells, tells_between, unacknowledged, SenderView, TcpSender,
    TcpSenderConfig,
};
use crate::wrapping_integers::{distance, law_unwrap_of_wrap, wrapped, Wrap32};
use bytes::Bytes;
use vstd::prelude::*;

verus! {

/// The parameters of a connection.
#[derive(Debug, Clone, Copy, PartialEq, Eq)]
pub struct TcpConnectionConfig {
    pub local_port: u16,
    pub peer_port: u16,
    pub sender_capacity: usize,
    pub receiver_capacity: usize,
    pub isn: Wrap32,
    pub sender_config: TcpSenderConfig,
}

impl TcpConnectionConfig {
    pub fn new(
        local_port: u16,
        peer_port: u16,
        sender_capacity: usize,
        receiver_capacity: usize,
        isn: Wrap32,
        sender_config: TcpSenderConfig,
    ) -> (config: Self)
        ensures
            config == (TcpConnectionConfig {
                local_port,
                peer_port,
                sender_capacity,
                receiver_capacity,
                isn,
                sender_config,
            }),
    {
        Self { local_port, peer_port, sender_capacity, receiver_capacity, isn, sender_config }
    }
}

/// What a connection is.
#[verifier::ext_equal]
pub struct ConnectionView {
    pub local_port: u16,
    pub peer_port: u16,
    pub sender: SenderView,
    pub receiver: ReceiverView,
}

/// What each of these segments holds.
pub open spec fn segments_of(segments: Seq<TcpSegment>) -> Seq<TcpSegmentView> {
    Seq::new(segments.len(), |i: int| segments[i]@)
}

/// A connection on which nothing has happened.
pub open spec fn fresh_connection(config: TcpConnectionConfig) -> ConnectionView {
    ConnectionView {
        local_port: config.local_port,
        peer_port: config.peer_port,
        sender: SenderView::fresh(
            config.sender_capacity as nat,
            config.isn,
            config.sender_config,
        ),
        receiver: ReceiverView::fresh(config.receiver_capacity as nat),
    }
}

impl ConnectionView {
    /// Whether the sequence numbers suffice to fill the window.
    pub open spec fn can_fill(self) -> bool {
        self.sender.snd_nxt + self.sender.sendable() <= u64::MAX
    }

    /// The segments that carry messages of the sender, each with what the
    /// receiver has to say.
    pub open spec fn carrying(self, messages: Seq<SenderMessageView>) -> Seq<TcpSegmentView> {
        Seq::new(
            messages.len(),
            |i: int|
                segment_from(
                    self.local_port,
                    self.peer_port,
                    messages[i],
                    Some(self.receiver.feedback()),
                ),
        )
    }

    /// The segments that fill the window of the other side.
    pub open spec fn fill_segments(self) -> Seq<TcpSegmentView> {
        self.carrying(self.sender.fill().0)
    }

    /// The connection once the window is filled.
    pub open spec fn filled(self) -> ConnectionView {
        ConnectionView { sender: self.sender.fill().1, ..self }
    }

    /// The connection once the application has written to it, with nothing sent.
    pub open spec fn with_data(self, data: Seq<u8>) -> ConnectionView {
        ConnectionView {
            sender: SenderView { outbound: self.sender.outbound.after_push(data), ..self.sender },
            ..self
        }
    }

    /// The connection once the application has closed it, with nothing sent.
    pub open spec fn with_end(self) -> ConnectionView {
        ConnectionView {
            sender: SenderView {
                outbound: StreamView { closed: true, ..self.sender.outbound },
                ..self.sender
            },
            ..self
        }
    }

    /// The connection once it has taken in a segment, with nothing sent.
    pub open spec fn with_segment(self, segment: TcpSegmentView) -> ConnectionView {
        ConnectionView {
            sender: self.sender.after_receive(segment.receiver_message()),
            receiver: self.receiver.after_receive(segment.sender_message()),
            ..self
        }
    }

    /// The answer to a segment: whatever can be sent, and where that is nothing,
    /// an acknowledgement of what occupies sequence numbers. A reset is not
    /// answered.
    pub open spec fn answer(self, segment: TcpSegmentView) -> Seq<TcpSegmentView> {
        let heard = self.with_segment(segment);
        if segment.header.rst {
            Seq::empty()
        } else if heard.sender.fill().0.len() == 0 && segment.sender_message().sequence_length()
            > 0 {
            heard.carrying(seq![heard.sender.empty_message()])
        } else {
            heard.fill_segments()
        }
    }

    /// The connection once it has answered a segment.
    pub open spec fn after_segment(self, segment: TcpSegmentView) -> ConnectionView {
        if segment.header.rst {
            self.with_segment(segment)
        } else {
            self.with_segment(segment).filled()
        }
    }

    /// The segments that are sent once more when time passes.
    pub open spec fn tick_segments(self, ms: u64) -> Seq<TcpSegmentView> {
        match self.sender.retransmission(ms) {
            Some(message) => self.carrying(seq![message]),
            None => Seq::empty(),
        }
    }

    /// Whether both sides have sent their SYN and the other side has
    /// acknowledged ours.
    pub open spec fn established(self) -> bool {
        self.sender.syn_sent && self.sender.snd_una > 0 && self.receiver.isn is Some
    }
}

/// A TCP connection.
#[derive(Debug)]
pub struct TcpConnection {
    local_port: u16,
    peer_port: u16,
    sender: TcpSender,
    receiver: TcpReceiver,
}

impl View for TcpConnection {
    type V = ConnectionView;

    closed spec fn view(&self) -> ConnectionView {
        ConnectionView {
            local_port: self.local_port,
            peer_port: self.peer_port,
            sender: self.sender@,
            receiver: self.receiver@,
        }
    }
}

impl TcpConnection {
    pub closed spec fn wf(&self) -> bool {
        self.sender.wf() && self.receiver.wf()
    }

    pub proof fn lemma_wf(&self)
        requires
            self.wf(),
        ensures
            self@.sender.valid(),
            self@.receiver.reassembler.valid(),
    {
        self.receiver.lemma_wf();
    }

    pub fn new(config: TcpConnectionConfig) -> (connection: Self)
        requires
            config.sender_config.valid(),
        ensures
            connection.wf(),
            connection@ == fresh_connection(config),
    {
        Self {
            local_port: config.local_port,
            peer_port: config.peer_port,
            sender: TcpSender::new(config.sender_capacity, config.isn, config.sender_config),
            receiver: TcpReceiver::new(config.receiver_capacity),
        }
    }

    pub fn local_port(&self) -> (port: u16)
        ensures
            port == self@.local_port,
    {
        self.local_port
    }

    pub fn peer_port(&self) -> (port: u16)
        ensures
            port == self@.peer_port,
    {
        self.peer_port
    }

    pub fn sender(&self) -> (sender: &TcpSender)
        ensures
            sender@ == self@.sender,
            self.wf() ==> sender.wf(),
    {
        &self.sender
    }

    pub fn receiver(&self) -> (receiver: &TcpReceiver)
        ensures
            receiver@ == self@.receiver,
            self.wf() ==> receiver.wf(),
    {
        &self.receiver
    }

    /// Whether both sides have sent their SYN and the other side has
    /// acknowledged ours.
    pub fn is_established(&self) -> (established: bool)
        ensures
            established == self@.established(),
    {
        self.sender.syn_sent() && self.sender.snd_una() > 0 && self.receiver.has_isn()
    }

    /// Whether everything up to the FIN was sent and acknowledged.
    pub fn is_finished(&self) -> (finished: bool)
        ensures
            finished == (self@.sender.fin_sent && self@.sender.outstanding.len() == 0),
    {
        self.sender.is_finished()
    }

    /// Begins the connection and gives the segments to send.
    pub fn connect(&mut self) -> (segments: Vec<TcpSegment>)
        requires
            old(self).wf(),
            old(self)@.can_fill(),
        ensures
            final(self).wf(),
            segments_of(segments@) == old(self)@.fill_segments(),
            final(self)@ == old(self)@.filled(),
    {
        self.push()
    }

    /// Takes as much of the data as fits, and gives its length and the segments
    /// to send.
    pub fn write(&mut self, data: Bytes) -> (result: (usize, Vec<TcpSegment>))
        requires
            old(self).wf(),
            old(self)@.with_data(contents(data)).sender.outbound.pushed() <= u64::MAX,
            old(self)@.with_data(contents(data)).can_fill(),
        ensures
            final(self).wf(),
            result.0 == old(self)@.sender.outbound.accepted(contents(data).len()),
            segments_of(result.1@) == old(self)@.with_data(contents(data)).fill_segments(),
            final(self)@ == old(self)@.with_data(contents(data)).filled(),
    {
        proof {
            self.sender.outbound_bounds();
        }
        let outbound = self.sender.outbound_mut();
        let accepted: usize = outbound.push(data);
        assert(self@ =~= old(self)@.with_data(contents(data)));
        let segments = self.push();
        (accepted, segments)
    }

    /// Ends the stream of the application and gives the segments to send.
    pub fn close(&mut self) -> (segments: Vec<TcpSegment>)
        requires
            old(self).wf(),
            old(self)@.with_end().can_fill(),
        ensures
            final(self).wf(),
            segments_of(segments@) == old(self)@.with_end().fill_segments(),
            final(self)@ == old(self)@.with_end().filled(),
    {
        let outbound = self.sender.outbound_mut();
        outbound.close();
        assert(self@ =~= old(self)@.with_end());
        self.push()
    }

    /// Lets time pass and gives the segments to send once more.
    pub fn tick(&mut self, elapsed_ms: u64) -> (segments: Vec<TcpSegment>)
        requires
            old(self).wf(),
        ensures
            final(self).wf(),
            segments_of(segments@) == old(self)@.tick_segments(elapsed_ms),
            final(self)@ == (ConnectionView {
                sender: old(self)@.sender.after_tick(elapsed_ms),
                ..old(self)@
            }),
    {
        let mut messages: Vec<TcpSenderMessage> = Vec::new();
        match self.sender.tick(elapsed_ms) {
            Some(message) => {
                let ghost said = message@;
                messages.push(message);
                assert(message_views(messages@) =~= seq![said]);
            },
            None => {},
        }
        let segments = self.carry(messages);
        assert(segments_of(segments@) =~= old(self)@.tick_segments(elapsed_ms));
        segments
    }

    /// Takes in a segment of the other side and gives the answer.
    pub fn receive_segment(&mut self, segment: TcpSegment) -> (answer: Vec<TcpSegment>)
        requires
            old(self).wf(),
            segment@.header.rst || old(self)@.with_segment(segment@).can_fill(),
        ensures
            final(self).wf(),
            segments_of(answer@) == old(self)@.answer(segment@),
            final(self)@ == old(self)@.after_segment(segment@),
    {
        let message = segment.to_sender_message();
        let occupies = !message.is_empty_in_sequence_space();
        // A payload that contradicts the end of the stream is passed over.
        let _ = self.receiver.receive(message);
        self.sender.receive(segment.to_receiver_message());
        assert(self@ =~= old(self)@.with_segment(segment@));
        if segment.header.rst {
            let none: Vec<TcpSegment> = Vec::new();
            assert(segments_of(none@) =~= Seq::empty());
            return none;
        }
        let ghost heard = self@;
        let mut answer = self.push();
        if answer.len() == 0 && occupies {
            let mut messages: Vec<TcpSenderMessage> = Vec::new();
            proof {
                assert(heard.sender.fill().0.len() == segments_of(answer@).len());
                lemma_nothing_filled(heard.sender);
            }
            let message = self.sender.make_empty_message();
            let ghost said = message@;
            messages.push(message);
            assert(message_views(messages@) =~= seq![said]);
            answer = self.carry(messages);
        } else {
            assert(heard.sender.fill().0.len() == segments_of(answer@).len());
        }
        answer
    }

    /// Fills the window of the other side.
    fn push(&mut self) -> (segments: Vec<TcpSegment>)
        requires
            old(self).wf(),
            old(self)@.can_fill(),
        ensures
            final(self).wf(),
            segments_of(segments@) == old(self)@.fill_segments(),
            final(self)@ == old(self)@.filled(),
    {
        let messages = self.sender.push();
        self.carry(messages)
    }

    /// Puts messages of the sender into segments.
    fn carry(&self, messages: Vec<TcpSenderMessage>) -> (segments: Vec<TcpSegment>)
        requires
            self.wf(),
        ensures
            segments_of(segments@) == self@.carrying(message_views(messages@)),
    {
        let feedback = self.receiver.send();
        let mut segments: Vec<TcpSegment> = Vec::new();
        let mut index: usize = 0;
        while index < messages.len()
            invariant
                index <= messages@.len(),
                segments@.len() == index,
                feedback == self@.receiver.feedback(),
                forall|i: int|
                    0 <= i < index ==> (#[trigger] segments@[i])@ == segment_from(
                        self@.local_port,
                        self@.peer_port,
                        messages@[i]@,
                        Some(feedback),
                    ),
            decreases messages@.len() - index,
        {
            let segment = TcpSegment::from_messages(
                self.local_port,
                self.peer_port,
                &messages[index],
                Some(feedback),
            );
            segments.push(segment);
            index = index + 1;
        }
        assert(segments_of(segments@) =~= self@.carrying(message_views(messages@)));
        segments
    }
}

/// Where nothing fills the window the sender stays as it is.
proof fn lemma_nothing_filled(sender: SenderView)
    requires
        sender.fill().0.len() == 0,
    ensures
        sender.fill().1 == sender,
{
}

/// Opening a connection sends one segment, the SYN, and acknowledges nothing.
pub proof fn law_connect_sends_syn(config: TcpConnectionConfig)
    requires
        config.sender_config.valid(),
    ensures
        ({
            let fresh = fresh_connection(config);
            let segments = fresh.fill_segments();
            &&& fresh.can_fill()
            &&& segments.len() == 1
            &&& segments[0].header.syn
            &&& !segments[0].header.fin
            &&& segments[0].header.seqno == config.isn
            &&& segments[0].header.ackno is None
            &&& segments[0].header.src_port == config.local_port
            &&& segments[0].header.dst_port == config.peer_port
            &&& segments[0].payload.len() == 0
            &&& fresh.filled().sender.snd_nxt == 1
            &&& !fresh.filled().established()
        }),
{
    let fresh = fresh_connection(config);
    lemma_first_fill(config);
    assert(fresh.fill_segments()[0].payload =~= Seq::empty());
}

proof fn lemma_first_fill(config: TcpConnectionConfig)
    requires
        config.sender_config.valid(),
    ensures
        ({
            let sender = fresh_connection(config).sender;
            &&& sender.valid()
            &&& sender.fill().0.len() == 1
            &&& sender.fill().0[0] == sender.next_message()
            &&& sender.fill().1 == sender.after_next_message()
            &&& sender.next_message().syn
            &&& sender.next_message().payload == Seq::<u8>::empty()
            &&& !sender.next_message().fin
            &&& sender.next_message().seqno == config.isn
            &&& sender.snd_nxt + sender.sendable() <= u64::MAX
        }),
{
    let sender = fresh_connection(config).sender;
    assert(sender.next_message().payload =~= Seq::empty());
    let next = sender.after_next_message();
    assert(next.space() == 0);
    assert(next.fill() == (Seq::<SenderMessageView>::empty(), next));
    assert(sender.fill().0 =~= seq![sender.next_message()]);
}

/// The handshake: once the SYN that opened the connection is answered by a SYN
/// that acknowledges it, the connection is established, and the answer is one
/// empty segment that acknowledges the SYN of the other side.
pub proof fn law_handshake_establishes(config: TcpConnectionConfig, segment: TcpSegmentView)
    requires
        config.sender_config.valid(),
        segment.header.syn,
        !segment.header.fin,
        !segment.header.rst,
        segment.header.ackno == Some(wrapped(1, config.isn)),
        segment.payload.len() == 0,
    ensures
        ({
            let opened = fresh_connection(config).filled();
            let answer = opened.answer(segment);
            &&& opened.with_segment(segment).can_fill()
            &&& opened.after_segment(segment).established()
            &&& answer.len() == 1
            &&& answer[0].header.ackno == Some(wrapped(1, segment.header.seqno))
            &&& !answer[0].header.syn
            &&& !answer[0].header.fin
            &&& answer[0].payload.len() == 0
        }),
{
    let opened = fresh_connection(config).filled();
    lemma_first_fill(config);
    law_unwrap_of_wrap(1, config.isn, 1);
    law_unwrap_of_wrap(0, segment.header.seqno, 1);
    assert(wrapped(0, segment.header.seqno) == segment.header.seqno);
    let heard = opened.with_segment(segment);
    assert(segment.payload =~= Seq::empty());
    assert(opened.receiver.place_of(segment.sender_message()) == Some(0u64));
    assert(heard.receiver.isn == Some(segment.header.seqno));
    assert(heard.receiver.reassembler.output =~= opened.receiver.reassembler.output);
    let outstanding = opened.sender.outstanding;
    assert(outstanding.len() == 1);
    assert(outstanding[0].end() == 1);
    assert(unacknowledged(outstanding, 1, config.isn).len() == 0) by {
        reveal_with_fuel(unacknowledged, 2);
    }
    assert(heard.sender.snd_una == 1);
    assert(heard.sender.waiting() == 0);
    assert(heard.sender.next_message().payload =~= Seq::empty());
    assert(heard.sender.fill() == (Seq::<SenderMessageView>::empty(), heard.sender));
}

/// A reset ends both directions and is not answered.
pub proof fn law_reset_ends_both_directions(
    connection: ConnectionView,
    segment: TcpSegmentView,
)
    requires
        segment.header.rst,
    ensures
        connection.answer(segment).len() == 0,
        connection.after_segment(segment).sender.outbound.error,
        connection.after_segment(segment).receiver.reassembler.output.error,
        connection.after_segment(segment).sender.in_flight() == 0,
        connection.after_segment(segment).sender.outstanding.len() == 0,
{
}

/// A segment that occupies sequence numbers is answered, and every answer
/// acknowledges what the receiver has put together.
pub proof fn law_data_is_acknowledged(connection: ConnectionView, segment: TcpSegmentView, i: int)
    requires
        !segment.header.rst,
        segment.sender_message().sequence_length() > 0,
    ensures
        connection.answer(segment).len() > 0,
        0 <= i < connection.answer(segment).len() ==> connection.answer(segment)[i].header.ackno
            == connection.receiver.after_receive(segment.sender_message()).feedback().ackno,
{
}

/// A valid connection can fill the window while 65535 sequence numbers are left.
pub proof fn lemma_can_fill(connection: ConnectionView)
    requires
        connection.sender.valid(),
        connection.sender.snd_nxt + 0xffff <= u64::MAX,
    ensures
        connection.can_fill(),
{
}

/// A connection puts together the stream that the other side sends: the segment
/// that carries a message of that stream, whatever else it says, leaves the
/// output with the bytes of the stream, each at its place.
pub proof fn law_connection_delivers_the_stream(
    connection: ConnectionView,
    segment: TcpSegmentView,
    start: u64,
    isn: Wrap32,
    source: spec_fn(int) -> u8,
)
    requires
        connection.receiver.reassembler.valid(),
        agrees_with(connection.receiver.reassembler, source),
        connection.receiver.isn is None || connection.receiver.isn == Some(isn),
        tells(segment.sender_message(), start as int, isn, source),
        distance(start as int, connection.receiver.next_seqno() as int) < 0x8000_0000,
    ensures
        agrees_with(connection.after_segment(segment).receiver.reassembler, source),
{
    law_receiver_keeps_to_the_stream(
        connection.receiver,
        segment.sender_message(),
        start,
        isn,
        source,
    );
}

/// What a connection sends tells the other side of the stream that the
/// application writes: each segment that fills the window carries bytes of it, at
/// their places.
pub proof fn law_segments_carry_the_stream(
    connection: ConnectionView,
    source: spec_fn(int) -> u8,
    i: int,
)
    requires
        connection.sender.valid(),
        connection.can_fill(),
        accounted(connection.sender),
        sends_stream(connection.sender, source),
        0 <= i < connection.fill_segments().len(),
    ensures
        tells_between(
            connection.fill_segments()[i].sender_message(),
            connection.sender.snd_nxt as int,
            connection.filled().sender.snd_nxt as int,
            connection.sender.isn,
            source,
        ),
{
    law_messages_carry_the_stream(connection.sender, source);
    let message = connection.sender.fill().0[i];
    let start = choose|start: int|
        connection.sender.snd_nxt <= start < connection.sender.fill().1.snd_nxt && #[trigger] tells(
            message,
            start,
            connection.sender.isn,
            source,
        );
    let said = connection.fill_segments()[i].sender_message();
    assert(said.payload == message.payload && said.seqno == message.seqno && said.syn
        == message.syn);
    assert(tells(said, start, connection.sender.isn, source));
}

/// A receiver once it has seen some messages, one by one.
pub open spec fn after_all(receiver: ReceiverView, messages: Seq<SenderMessageView>) -> ReceiverView
    decreases messages.len(),
{
    if messages.len() == 0 {
        receiver
    } else {
        after_all(receiver.after_receive(messages[0]), messages.drop_first())
    }
}

/// Whether everything that the sender at one end has sent has arrived at the
/// receiver at the other end.
pub open spec fn in_step(sender: SenderView, receiver: ReceiverView) -> bool {
    &&& sender.syn_sent
    &&& receiver.isn == Some(sender.isn)
    &&& receiver.reassembler.valid()
    &&& receiver.reassembler.fragments.len() == 0
    &&& receiver.reassembler.output.pushed() + 1 + flag(sender.fin_sent) == sender.snd_nxt
    &&& receiver.reassembler.output.closed == sender.fin_sent
    &&& !receiver.reassembler.output.error
    &&& receiver.reassembler.eof == if sender.fin_sent {
        Some(receiver.reassembler.output.pushed() as u64)
    } else {
        None
    }
}

/// A message that comes right behind what has arrived is put together whole.
proof fn lemma_message_arrives(sender: SenderView, receiver: ReceiverView)
    requires
        sender.valid(),
        accounted(sender),
        in_step(sender, receiver),
        !sender.outbound.error,
        sender.space() > 0,
        sender.next_message().sequence_length() > 0,
        sender.snd_nxt + sender.sendable() <= u64::MAX,
        sender.outbound.buffered.len() <= receiver.reassembler.output.available(),
    ensures
        ({
            let message = sender.next_message();
            let next = sender.after_next_message();
            let after = receiver.after_receive(message);
            &&& in_step(next, after)
            &&& after.reassembler.output.buffered == receiver.reassembler.output.buffered
                + message.payload
            &&& after.reassembler.output.capacity == receiver.reassembler.output.capacity
            &&& after.reassembler.output.popped == receiver.reassembler.output.popped
            &&& next.outbound.buffered.len() == sender.outbound.buffered.len()
                - message.payload.len()
        }),
{
    let message = sender.next_message();
    let next = sender.after_next_message();
    let after = receiver.after_receive(message);
    let before = receiver.reassembler;
    let output = before.output;
    law_fill_sends_what_fits(sender);
    assert(message.sequence_length() <= sender.sendable());
    assert(receiver.next_seqno() == sender.snd_nxt);
    law_unwrap_of_wrap(sender.snd_nxt as u64, sender.isn, sender.snd_nxt as u64);
    let index = output.pushed() as u64;
    assert(receiver.place_of(message) == Some(index));
    assert(before.rejection(index, message.payload.len(), message.fin) is None) by {
        assert(crate::reassembler::end_beyond(before.fragments, index + message.payload.len())
            is None);
    }
    assert(after.reassembler == before.after_insert(index, message.payload, message.fin));
    assert(message.payload.subrange(0, message.payload.len() as int) =~= message.payload);
    assert(message.payload.take(message.payload.len() as int) =~= message.payload);
    let grown = output.after_push(message.payload);
    assert(output.buffered + Seq::<u8>::empty() =~= output.buffered);
    assert(message.payload.len() == 0 ==> message.payload =~= Seq::empty());
    assert(after.reassembler.fragments =~= before.fragments);
    assert(after.reassembler.output.buffered =~= output.buffered + message.payload);
}

/// What is written at one end comes out at the other: where everything sent
/// before has arrived, and there is room for what waits, the messages that fill
/// the window bring their payload to the output, in order, and close it with the
/// end of the stream.
#[verifier::rlimit(30)]
pub proof fn law_written_bytes_arrive(sender: SenderView, receiver: ReceiverView)
    requires
        sender.valid(),
        accounted(sender),
        in_step(sender, receiver),
        !sender.outbound.error,
        sender.snd_nxt + sender.sendable() <= u64::MAX,
        sender.outbound.buffered.len() <= receiver.reassembler.output.available(),
    ensures
        ({
            let (messages, next) = sender.fill();
            let after = after_all(receiver, messages);
            &&& in_step(next, after)
            &&& after.reassembler.output.buffered == receiver.reassembler.output.buffered
                + joined_payloads(messages)
            &&& sender.waiting() <= sender.space() ==> joined_payloads(messages)
                == sender.outbound.buffered
        }),
    decreases sender.space(),
{
    let (messages, last) = sender.fill();
    let output = receiver.reassembler.output;
    if sender.space() == 0 || sender.next_message().sequence_length() == 0 {
        assert(output.buffered + Seq::<u8>::empty() =~= output.buffered);
        if sender.waiting() <= sender.space() {
            law_fill_sends_what_fits(sender);
            assert(sender.outbound.buffered =~= Seq::empty());
        }
    } else {
        let message = sender.next_message();
        let next = sender.after_next_message();
        let arrived = receiver.after_receive(message);
        lemma_message_arrives(sender, receiver);
        lemma_fill_step(sender);
        lemma_after_next_message(sender);
        law_written_bytes_arrive(next, arrived);
        let rest = next.fill().0;
        assert(messages.drop_first() == rest);
        assert(output.buffered + joined_payloads(messages) =~= arrived.reassembler.output.buffered
            + joined_payloads(rest));
        if sender.waiting() <= sender.space() {
            assert(joined_payloads(messages) =~= sender.outbound.buffered);
        }
    }
}

/// The number that a receiver acknowledges is understood by the sender, where it
/// is less than 2^31 away from what was sent.
pub proof fn law_acknowledgement_is_understood(sender: SenderView, receiver: ReceiverView)
    requires
        sender.snd_nxt <= u64::MAX,
        receiver.isn == Some(sender.isn),
        distance(receiver.needed() as int, sender.snd_nxt as int) < 0x8000_0000,
    ensures
        receiver.feedback().ackno is Some,
        sender.acknowledged(receiver.feedback().ackno->Some_0) == receiver.needed(),
{
    law_unwrap_of_wrap(receiver.needed(), sender.isn, sender.snd_nxt as u64);
}

/// Once everything sent has arrived, the next word of the receiver acknowledges
/// all of it: nothing is outstanding, and the timer stops.
pub proof fn law_arrival_is_acknowledged(sender: SenderView, receiver: ReceiverView)
    requires
        sender.valid(),
        in_step(sender, receiver),
    ensures
        ({
            let after = sender.after_receive(receiver.feedback());
            &&& after.snd_una == sender.snd_nxt
            &&& after.outstanding.len() == 0
            &&& !after.timer.running
        }),
{
    assert(receiver.needed() == sender.snd_nxt);
    law_acknowledgement_is_understood(sender, receiver);
    let after = sender.after_receive(receiver.feedback());
    law_receive(sender, receiver.feedback());
    law_finished_when_all_is_acknowledged(after);
}

/// What a connection sends: each segment goes from its port to that of the peer,
/// carries one message of the sender as it is, and tells what the receiver has to
/// say.
pub proof fn law_segments_carry_messages(
    connection: ConnectionView,
    messages: Seq<SenderMessageView>,
    i: int,
)
    requires
        0 <= i < messages.len(),
    ensures
        connection.carrying(messages).len() == messages.len(),
        ({
            let segment = connection.carrying(messages)[i];
            let told = connection.receiver.feedback();
            &&& segment.header.src_port == connection.local_port
            &&& segment.header.dst_port == connection.peer_port
            &&& segment.header.seqno == messages[i].seqno
            &&& segment.header.syn == messages[i].syn
            &&& segment.header.fin == messages[i].fin
            &&& segment.payload == messages[i].payload
            &&& segment.header.ackno == told.ackno
            &&& segment.header.window_size == told.window_size
            &&& segment.header.rst == (messages[i].rst || told.rst)
        }),
{
}

/// What a connection does with a segment: its sender hears of the acknowledgement
/// and the window, its receiver takes in the rest, and then the window is filled,
/// unless the segment is a reset. The ports stay.
pub proof fn law_segment_reaches_both_halves(connection: ConnectionView, segment: TcpSegmentView)
    ensures
        ({
            let after = connection.after_segment(segment);
            let heard = connection.sender.after_receive(
                crate::tcp_message::TcpReceiverMessage {
                    ackno: segment.header.ackno,
                    window_size: segment.header.window_size,
                    rst: segment.header.rst,
                },
            );
            &&& after.receiver == connection.receiver.after_receive(
                SenderMessageView {
                    seqno: segment.header.seqno,
                    syn: segment.header.syn,
                    payload: segment.payload,
                    fin: segment.header.fin,
                    rst: segment.header.rst,
                },
            )
            &&& segment.header.rst ==> after.sender == heard
            &&& !segment.header.rst ==> after.sender == heard.fill().1
            &&& after.local_port == connection.local_port
            &&& after.peer_port == connection.peer_port
        }),
{
}

/// What a connection answers to a segment: nothing to a reset; otherwise the
/// messages that fill the window, and where there are none, one empty message if
/// the segment has SYN, FIN or payload, and nothing if it has none of them.
pub proof fn law_what_is_answered(connection: ConnectionView, segment: TcpSegmentView)
    ensures
        ({
            let answer = connection.answer(segment);
            let heard = ConnectionView {
                sender: connection.sender.after_receive(
                    crate::tcp_message::TcpReceiverMessage {
                        ackno: segment.header.ackno,
                        window_size: segment.header.window_size,
                        rst: segment.header.rst,
                    },
                ),
                receiver: connection.receiver.after_receive(
                    SenderMessageView {
                        seqno: segment.header.seqno,
                        syn: segment.header.syn,
                        payload: segment.payload,
                        fin: segment.header.fin,
                        rst: segment.header.rst,
                    },
                ),
                ..connection
            };
            let messages = heard.sender.fill().0;
            let occupies = segment.header.syn || segment.header.fin || segment.payload.len() > 0;
            &&& segment.header.rst ==> answer.len() == 0
            &&& !segment.header.rst && messages.len() > 0 ==> answer == heard.carrying(messages)
            &&& !segment.header.rst && messages.len() == 0 && !occupies ==> answer.len() == 0
            &&& !segment.header.rst && messages.len() == 0 && occupies ==> {
                &&& answer.len() == 1
                &&& answer[0].header.seqno == wrapped(heard.sender.snd_nxt as int, heard.sender.isn)
                &&& answer[0].header.ackno == heard.receiver.feedback().ackno
                &&& answer[0].header.window_size == heard.receiver.feedback().window_size
                &&& !answer[0].header.syn
                &&& !answer[0].header.fin
                &&& answer[0].payload.len() == 0
                &&& answer[0].header.src_port == connection.local_port
                &&& answer[0].header.dst_port == connection.peer_port
            }
        }),
{
}

/// Writing to a connection and closing it concern the stream to be sent alone;
/// whatever fills the window then is sent.
pub proof fn law_writing_and_closing(connection: ConnectionView, data: Seq<u8>)
    ensures
        ({
            let written = connection.with_data(data);
            let ended = connection.with_end();
            &&& written.sender.outbound == connection.sender.outbound.after_push(data)
            &&& written == (ConnectionView {
                sender: SenderView { outbound: written.sender.outbound, ..connection.sender },
                ..connection
            })
            &&& ended.sender.outbound.closed
            &&& ended.sender.outbound.buffered == connection.sender.outbound.buffered
            &&& ended.sender.outbound.error == connection.sender.outbound.error
            &&& ended.sender.outbound.popped == connection.sender.outbound.popped
            &&& ended.sender.outbound.capacity == connection.sender.outbound.capacity
            &&& ended.sender.outbound.chunks == connection.sender.outbound.chunks
            &&& ended == (ConnectionView {
                sender: SenderView { outbound: ended.sender.outbound, ..connection.sender },
                ..connection
            })
            &&& connection.fill_segments() == connection.carrying(connection.sender.fill().0)
            &&& connection.filled() == (ConnectionView {
                sender: connection.sender.fill().1,
                ..connection
            })
        }),
{
}

/// When time passes, what the sender sends again goes out, and nothing else.
pub proof fn law_retransmission_goes_out(connection: ConnectionView, ms: u64)
    ensures
        connection.sender.retransmission(ms) is None ==> connection.tick_segments(ms).len() == 0,
        connection.sender.retransmission(ms) matches Some(message) ==> {
            &&& connection.tick_segments(ms).len() == 1
            &&& connection.tick_segments(ms)[0].payload == message.payload
            &&& connection.tick_segments(ms)[0].header.seqno == message.seqno
            &&& connection.tick_segments(ms)[0].header.syn == message.syn
            &&& connection.tick_segments(ms)[0].header.fin == message.fin
            &&& connection.tick_segments(ms)[0].header.ackno
                == connection.receiver.feedback().ackno
            &&& connection.tick_segments(ms)[0].header.window_size
                == connection.receiver.feedback().window_size
            &&& connection.tick_segments(ms)[0].header.src_port == connection.local_port
            &&& connection.tick_segments(ms)[0].header.dst_port == connection.peer_port
        },
{
}

/// A connection is established once its SYN is acknowledged and the SYN of the
/// other side came.
pub proof fn law_when_established(connection: ConnectionView)
    requires
        accounted(connection.sender),
        connection.sender.valid(),
    ensures
        connection.established() <==> connection.sender.snd_una >= 1
            && connection.receiver.isn is Some,
{
}

/// A new connection is made as it is told.
pub proof fn law_new_connection(config: TcpConnectionConfig)
    ensures
        ({
            let connection = fresh_connection(config);
            &&& connection.local_port == config.local_port
            &&& connection.peer_port == config.peer_port
            &&& connection.sender.outbound.capacity == config.sender_capacity
            &&& connection.sender.isn == config.isn
            &&& connection.sender.config == config.sender_config
            &&& connection.receiver.reassembler.output.capacity == config.receiver_capacity
            &&& connection.receiver.isn is None
        }),
{
}

/// A connection is established exactly if it has sent its SYN, something of what
/// it sent is acknowledged, and the SYN of the other side came.
pub proof fn law_what_established_means(connection: ConnectionView)
    ensures
        connection.established() <==> connection.sender.syn_sent && connection.sender.snd_una > 0
            && connection.receiver.isn is Some,
{
}

/// What segments hold is told one by one.
pub proof fn law_segments_one_by_one(segments: Seq<TcpSegment>, i: int)
    requires
        0 <= i < segments.len(),
    ensures
        segments_of(segments).len() == segments.len(),
        segments_of(segments)[i] == segments[i]@,
{
}

} // verus!
