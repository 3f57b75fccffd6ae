//! The sending end of a TCP byte stream.
use crate::buffer::{contents, slice};
use crate::byte_stream::{law_reads_compose, ByteStream, StreamView};
use crate::tcp_message::{flag, SenderMessageView, TcpReceiverMessage, TcpSenderMessage};
use crate::wrapping_integers::{law_unwrap_of_wrap, unwrapped, wrapped, Wrap32};
use bytes::Bytes;
use std::collections::VecDeque;
use vstd::prelude::*;

verus! {

/// The parameters of a sender.
#[derive(Debug, Clone, Copy, PartialEq, Eq, Structural)]
pub struct TcpSenderConfig {
    /// The first retransmission timeout.
    pub initial_rto_ms: u64,
    /// The longest interval to which retransmission and probing back off.
    pub max_timer_interval_ms: u64,
    /// The most payload bytes that one segment carries.
    pub max_payload_size: usize,
}

impl TcpSenderConfig {
    /// The timeouts and the payload size are positive, and backing off does not
    /// shorten the timeout.
    pub open spec fn valid(self) -> bool {
        &&& self.initial_rto_ms > 0
        &&& self.max_timer_interval_ms >= self.initial_rto_ms
        &&& self.max_payload_size > 0
    }
}

impl Default for TcpSenderConfig {
    fn default() -> (config: Self)
        ensures
            config == (TcpSenderConfig {
                initial_rto_ms: 1_000,
                max_timer_interval_ms: 60_000,
                max_payload_size: 1_000,
            }),
    {
        Self { initial_rto_ms: 1_000, max_timer_interval_ms: 60_000, max_payload_size: 1_000 }
    }
}

/// Why the timer runs: because a segment may be lost, or because the receiver
/// has closed its window and is probed until it opens it again. Both send the
/// oldest outstanding segment once more, but only the first counts as a
/// retransmission.
#[derive(Debug, Clone, Copy, PartialEq, Eq, Structural)]
pub enum TimerMode {
    Retransmission,
    Persist,
}

/// A timer that knows of time only what it is told.
#[derive(Debug, Clone, Copy, PartialEq, Eq)]
pub struct Timer {
    pub running: bool,
    pub elapsed_ms: u64,
    pub timeout_ms: u64,
    pub mode: Option<TimerMode>,
}

impl Timer {
    /// A timer that does not run.
    pub open spec fn stopped() -> Timer {
        Timer { running: false, elapsed_ms: 0, timeout_ms: 0, mode: None }
    }

    /// A timer that begins to run.
    pub open spec fn started(timeout_ms: u64, mode: TimerMode) -> Timer {
        Timer { running: true, elapsed_ms: 0, timeout_ms, mode: Some(mode) }
    }

    /// The time elapsed after `ms` more milliseconds.
    pub open spec fn elapsed_after(self, ms: u64) -> u64 {
        if self.elapsed_ms + ms <= u64::MAX {
            (self.elapsed_ms + ms) as u64
        } else {
            u64::MAX
        }
    }

    /// Whether the timer runs and its time is up after `ms` more milliseconds.
    pub open spec fn expires(self, ms: u64) -> bool {
        self.running && self.elapsed_after(ms) >= self.timeout_ms
    }

    /// The timer after `ms` more milliseconds.
    pub open spec fn after(self, ms: u64) -> Timer {
        if self.running {
            Timer { elapsed_ms: self.elapsed_after(ms), ..self }
        } else {
            self
        }
    }

    fn new() -> (timer: Self)
        ensures
            timer == Timer::stopped(),
    {
        Self { running: false, elapsed_ms: 0, timeout_ms: 0, mode: None }
    }

    fn restart(&mut self, timeout_ms: u64, mode: TimerMode)
        requires
            timeout_ms > 0,
        ensures
            *final(self) == Timer::started(timeout_ms, mode),
    {
        self.running = true;
        self.elapsed_ms = 0;
        self.timeout_ms = timeout_ms;
        self.mode = Some(mode);
    }

    fn stop(&mut self)
        ensures
            *final(self) == Timer::stopped(),
    {
        self.running = false;
        self.elapsed_ms = 0;
        self.timeout_ms = 0;
        self.mode = None;
    }

    /// Lets time pass and tells whether the time is up.
    fn tick(&mut self, elapsed_ms: u64) -> (expired: bool)
        ensures
            *final(self) == old(self).after(elapsed_ms),
            expired == old(self).expires(elapsed_ms),
    {
        if !self.running {
            return false;
        }
        self.elapsed_ms = self.elapsed_ms.saturating_add(elapsed_ms);
        self.elapsed_ms >= self.timeout_ms
    }

    fn timeout_ms(&self) -> (timeout: Option<u64>)
        ensures
            timeout == if self.running {
                Some(self.timeout_ms)
            } else {
                None
            },
    {
        if self.running {
            Some(self.timeout_ms)
        } else {
            None
        }
    }

    fn mode(&self) -> (mode: Option<TimerMode>)
        ensures
            mode == self.mode,
    {
        self.mode
    }
}

/// A segment that was sent and is not acknowledged in full.
#[derive(Debug)]
pub struct OutstandingSegment {
    pub absolute_start: u64,
    pub message: TcpSenderMessage,
}

/// What an [`OutstandingSegment`] is.
#[verifier::ext_equal]
pub struct SegmentView {
    pub start: int,
    pub message: SenderMessageView,
}

impl SegmentView {
    /// The absolute sequence number behind the segment.
    pub open spec fn end(self) -> int {
        self.start + self.message.sequence_length()
    }

    /// The segment without the first `acknowledged` of its sequence numbers,
    /// which are those of the SYN and then of the payload.
    pub open spec fn without_prefix(self, acknowledged: nat, isn: Wrap32) -> SegmentView {
        let syn = flag(self.message.syn);
        let bytes = if acknowledged <= syn {
            0
        } else if acknowledged - syn <= self.message.payload.len() {
            acknowledged - syn
        } else {
            self.message.payload.len() as int
        };
        SegmentView {
            start: self.start + acknowledged,
            message: SenderMessageView {
                seqno: wrapped(self.start + acknowledged, isn),
                syn: self.message.syn && acknowledged == 0,
                payload: self.message.payload.skip(bytes),
                fin: self.message.fin,
                rst: self.message.rst,
            },
        }
    }
}

impl View for OutstandingSegment {
    type V = SegmentView;

    open spec fn view(&self) -> SegmentView {
        SegmentView { start: self.absolute_start as int, message: self.message@ }
    }
}

impl OutstandingSegment {
    fn sequence_length(&self) -> (length: u64)
        requires
            self@.message.sequence_length() <= u64::MAX,
        ensures
            length == self@.message.sequence_length(),
    {
        self.message.sequence_length()
    }

    fn absolute_end(&self) -> (end: u64)
        requires
            self@.end() <= u64::MAX,
        ensures
            end == self@.end(),
    {
        self.absolute_start + self.sequence_length()
    }

    /// Removes an acknowledged prefix.
    fn trim_prefix(&mut self, acknowledged_length: u64, isn: Wrap32)
        requires
            0 < acknowledged_length < old(self)@.message.sequence_length(),
            old(self)@.end() <= u64::MAX,
        ensures
            final(self)@ == old(self)@.without_prefix(acknowledged_length as nat, isn),
            final(self)@.end() == old(self)@.end(),
    {
        let mut remaining: u64 = acknowledged_length;
        if self.message.syn {
            self.message.syn = false;
            remaining = remaining - 1;
        }
        let len: usize = self.message.payload.len();
        let payload_to_drop: usize = if remaining <= len as u64 {
            remaining as usize
        } else {
            len
        };
        if payload_to_drop > 0 {
            self.message.payload = slice(&self.message.payload, payload_to_drop, len);
        }
        self.absolute_start = self.absolute_start + acknowledged_length;
        self.message.seqno = Wrap32::wrap(self.absolute_start, isn);
        assert(self@.message.payload =~= old(self)@.without_prefix(
            acknowledged_length as nat,
            isn,
        ).message.payload);
    }
}

/// What each of these messages says.
pub open spec fn message_views(messages: Seq<TcpSenderMessage>) -> Seq<SenderMessageView> {
    Seq::new(messages.len(), |i: int| messages[i]@)
}

spec fn segment_views(segments: Seq<OutstandingSegment>) -> Seq<SegmentView> {
    Seq::new(segments.len(), |i: int| segments[i]@)
}

/// The segments follow each other without a gap from one absolute sequence
/// number to another, none is empty, and each carries its own number.
pub open spec fn chained(segments: Seq<SegmentView>, from: int, to: int, isn: Wrap32) -> bool {
    &&& forall|i: int|
        0 <= i < segments.len() ==> {
            &&& (#[trigger] segments[i]).message.sequence_length() > 0
            &&& segments[i].message.seqno == wrapped(segments[i].start, isn)
            &&& from <= segments[i].start
            &&& segments[i].end() <= to
        }
    &&& forall|i: int, j: int|
        0 <= i && j == i + 1 && j < segments.len() ==> (#[trigger] segments[i]).end() == (
        #[trigger] segments[j]).start
    &&& if segments.len() == 0 {
        from == to
    } else {
        segments[0].start == from && segments.last().end() == to
    }
}

/// No segment carries more payload than a bound.
pub open spec fn no_longer_than(segments: Seq<SegmentView>, bound: nat) -> bool {
    forall|i: int|
        0 <= i < segments.len() ==> (#[trigger] segments[i]).message.payload.len() <= bound
}

/// What is left of outstanding segments once everything before an absolute
/// sequence number is acknowledged.
pub open spec fn unacknowledged(segments: Seq<SegmentView>, una: int, isn: Wrap32) -> Seq<
    SegmentView,
>
    decreases segments.len(),
{
    if segments.len() == 0 {
        segments
    } else if segments[0].end() <= una {
        unacknowledged(segments.drop_first(), una, isn)
    } else if segments[0].start < una {
        seq![segments[0].without_prefix((una - segments[0].start) as nat, isn)]
            + segments.drop_first()
    } else {
        segments
    }
}

/// What a sender is.
#[verifier::ext_equal]
pub struct SenderView {
    /// The bytes written by the application and not sent yet.
    pub outbound: StreamView,
    /// The sequence number of the SYN.
    pub isn: Wrap32,
    /// The oldest absolute sequence number that is not acknowledged.
    pub snd_una: nat,
    /// The absolute sequence number of what is sent next.
    pub snd_nxt: nat,
    /// The window of the receiver, as last heard of.
    pub window: nat,
    /// What was sent and is not acknowledged in full.
    pub outstanding: Seq<SegmentView>,
    pub syn_sent: bool,
    pub fin_sent: bool,
    pub config: TcpSenderConfig,
    pub current_rto_ms: u64,
    pub persist_interval_ms: u64,
    pub timer: Timer,
    pub consecutive_retransmissions: u64,
}

impl SenderView {
    /// A sender to which nothing was written and that has sent nothing.
    pub open spec fn fresh(capacity: nat, isn: Wrap32, config: TcpSenderConfig) -> SenderView {
        SenderView {
            outbound: StreamView::fresh(capacity),
            isn,
            snd_una: 0,
            snd_nxt: 0,
            window: 1,
            outstanding: Seq::empty(),
            syn_sent: false,
            fin_sent: false,
            config,
            current_rto_ms: config.initial_rto_ms,
            persist_interval_ms: config.initial_rto_ms,
            timer: Timer::stopped(),
            consecutive_retransmissions: 0,
        }
    }

    /// How many sequence numbers are sent and not acknowledged.
    pub open spec fn in_flight(self) -> int {
        self.snd_nxt - self.snd_una
    }

    /// The window that the sender fills: a closed one is probed with one
    /// sequence number.
    pub open spec fn effective_window(self) -> nat {
        if self.window == 0 {
            1
        } else {
            self.window
        }
    }

    /// How many sequence numbers may still be sent.
    pub open spec fn space(self) -> nat {
        if self.in_flight() < self.effective_window() {
            (self.effective_window() - self.in_flight()) as nat
        } else {
            0
        }
    }

    /// How many sequence numbers wait to be sent: the SYN, the bytes written,
    /// and the FIN of a closed stream.
    pub open spec fn waiting(self) -> nat {
        flag(!self.syn_sent) + self.outbound.buffered.len() + flag(
            !self.fin_sent && self.outbound.closed,
        )
    }

    /// How many sequence numbers are sent when the window is filled.
    pub open spec fn sendable(self) -> nat {
        if self.waiting() <= self.space() {
            self.waiting()
        } else {
            self.space()
        }
    }

    /// The timer as it starts for the current window: to probe a closed one, to
    /// retransmit otherwise. Without outstanding segments it does not run.
    pub open spec fn fresh_timer(self) -> Timer {
        if self.outstanding.len() == 0 {
            Timer::stopped()
        } else if self.window == 0 {
            Timer::started(self.persist_interval_ms, TimerMode::Persist)
        } else {
            Timer::started(self.current_rto_ms, TimerMode::Retransmission)
        }
    }

    /// The sequence numbers in flight are exactly those of the outstanding
    /// segments, and the timer runs for the current window, with time left,
    /// exactly while there are any.
    pub open spec fn valid(self) -> bool {
        &&& self.config.valid()
        &&& self.snd_una <= self.snd_nxt <= u64::MAX
        &&& self.window <= u16::MAX
        &&& self.in_flight() <= u16::MAX
        &&& chained(self.outstanding, self.snd_una as int, self.snd_nxt as int, self.isn)
        &&& no_longer_than(self.outstanding, self.config.max_payload_size as nat)
        &&& 0 < self.current_rto_ms <= self.config.max_timer_interval_ms
        &&& 0 < self.persist_interval_ms <= self.config.max_timer_interval_ms
        &&& self.timer == (Timer { elapsed_ms: self.timer.elapsed_ms, ..self.fresh_timer() })
        &&& self.timer.running ==> self.timer.elapsed_ms < self.timer.timeout_ms
        &&& !self.timer.running ==> self.timer.elapsed_ms == 0
    }

    /// A message at the next sequence number that occupies none.
    pub open spec fn empty_message(self) -> SenderMessageView {
        SenderMessageView {
            seqno: wrapped(self.snd_nxt as int, self.isn),
            syn: false,
            payload: Seq::empty(),
            fin: false,
            rst: self.outbound.error,
        }
    }

    /// The next message, as far as the window allows: the SYN if it was not
    /// sent, as much payload as fits into one segment, and the FIN once
    /// everything else is sent.
    pub open spec fn next_message(self) -> SenderMessageView {
        let room = self.space() - flag(!self.syn_sent);
        let buffered = self.outbound.buffered;
        let budget = if room <= self.config.max_payload_size {
            room
        } else {
            self.config.max_payload_size as int
        };
        let len = if budget <= buffered.len() {
            budget
        } else {
            buffered.len() as int
        };
        SenderMessageView {
            syn: !self.syn_sent,
            payload: buffered.take(len),
            fin: !self.fin_sent && self.outbound.closed && len == buffered.len() && len < room,
            ..self.empty_message()
        }
    }

    /// The sender once it has sent the next message.
    pub open spec fn after_next_message(self) -> SenderView {
        let message = self.next_message();
        let sent = SenderView {
            outbound: self.outbound.after_pop(message.payload.len()),
            snd_nxt: self.snd_nxt + message.sequence_length(),
            outstanding: self.outstanding.push(
                SegmentView { start: self.snd_nxt as int, message },
            ),
            syn_sent: true,
            fin_sent: self.fin_sent || message.fin,
            ..self
        };
        if self.outstanding.len() == 0 {
            SenderView { timer: sent.fresh_timer(), ..sent }
        } else {
            sent
        }
    }

    /// The messages that fill the window, and the sender once they are sent.
    pub open spec fn fill(self) -> (Seq<SenderMessageView>, SenderView)
        decreases self.space(),
    {
        if self.space() == 0 || self.next_message().sequence_length() == 0 {
            (Seq::empty(), self)
        } else {
            let (messages, sender) = self.after_next_message().fill();
            (seq![self.next_message()] + messages, sender)
        }
    }

    /// The absolute sequence number that a message acknowledges.
    pub open spec fn acknowledged(self, ackno: Wrap32) -> u64 {
        unwrapped(ackno, self.isn, self.snd_nxt as u64)
    }

    /// The sender once it has given up.
    pub open spec fn aborted(self) -> SenderView {
        SenderView {
            outbound: StreamView { error: true, ..self.outbound },
            outstanding: Seq::empty(),
            snd_una: self.snd_nxt,
            timer: Timer::stopped(),
            ..self
        }
    }

    /// The sender once it has heard from the receiver. An acknowledgement of
    /// what was never sent is ignored, along with its window.
    pub open spec fn after_receive(self, message: TcpReceiverMessage) -> SenderView {
        if message.rst {
            self.aborted()
        } else {
            let changed = self.window != message.window_size;
            match message.ackno {
                None => {
                    let heard = SenderView { window: message.window_size as nat, ..self };
                    if changed && self.outstanding.len() > 0 {
                        SenderView { timer: heard.fresh_timer(), ..heard }
                    } else {
                        heard
                    }
                },
                Some(ackno) => {
                    let una = self.acknowledged(ackno);
                    if una > self.snd_nxt {
                        self
                    } else if una > self.snd_una {
                        let heard = SenderView {
                            window: message.window_size as nat,
                            snd_una: una as nat,
                            outstanding: unacknowledged(self.outstanding, una as int, self.isn),
                            current_rto_ms: self.config.initial_rto_ms,
                            persist_interval_ms: self.config.initial_rto_ms,
                            consecutive_retransmissions: 0,
                            ..self
                        };
                        SenderView { timer: heard.fresh_timer(), ..heard }
                    } else {
                        let heard = SenderView { window: message.window_size as nat, ..self };
                        if changed || self.outstanding.len() == 0 {
                            SenderView { timer: heard.fresh_timer(), ..heard }
                        } else {
                            heard
                        }
                    }
                },
            }
        }
    }

    /// Twice the interval, up to the longest one.
    pub open spec fn backed_off(self, interval_ms: u64) -> u64 {
        if 2 * interval_ms <= self.config.max_timer_interval_ms {
            (2 * interval_ms) as u64
        } else {
            self.config.max_timer_interval_ms
        }
    }

    /// The segment that is sent once more when `ms` milliseconds have passed.
    pub open spec fn retransmission(self, ms: u64) -> Option<SenderMessageView> {
        if self.timer.expires(ms) && self.outstanding.len() > 0 {
            Some(self.outstanding[0].message)
        } else {
            None
        }
    }

    /// The sender when `ms` milliseconds have passed.
    pub open spec fn after_tick(self, ms: u64) -> SenderView {
        if !self.timer.expires(ms) {
            SenderView { timer: self.timer.after(ms), ..self }
        } else if self.outstanding.len() == 0 {
            SenderView { timer: Timer::stopped(), ..self }
        } else {
            let backed_off = if self.window == 0 {
                SenderView {
                    persist_interval_ms: self.backed_off(self.persist_interval_ms),
                    ..self
                }
            } else {
                SenderView {
                    consecutive_retransmissions: if self.consecutive_retransmissions < u64::MAX {
                        (self.consecutive_retransmissions + 1) as u64
                    } else {
                        u64::MAX
                    },
                    current_rto_ms: self.backed_off(self.current_rto_ms),
                    ..self
                }
            };
            SenderView { timer: backed_off.fresh_timer(), ..backed_off }
        }
    }
}

/// The sending end of one direction of a TCP connection.
#[derive(Debug)]
pub struct TcpSender {
    outbound: ByteStream,
    isn: Wrap32,
    snd_una: u64,
    snd_nxt: u64,
    advertised_window: u64,
    outstanding: VecDeque<OutstandingSegment>,
    syn_sent: bool,
    fin_sent: bool,
    config: TcpSenderConfig,
    current_rto_ms: u64,
    persist_interval_ms: u64,
    timer: Timer,
    consecutive_retransmissions: u64,
}

impl View for TcpSender {
    type V = SenderView;

    closed spec fn view(&self) -> SenderView {
        SenderView {
            outbound: self.outbound@,
            isn: self.isn,
            snd_una: self.snd_una as nat,
            snd_nxt: self.snd_nxt as nat,
            window: self.advertised_window as nat,
            outstanding: segment_views(self.outstanding@),
            syn_sent: self.syn_sent,
            fin_sent: self.fin_sent,
            config: self.config,
            current_rto_ms: self.current_rto_ms,
            persist_interval_ms: self.persist_interval_ms,
            timer: self.timer,
            consecutive_retransmissions: self.consecutive_retransmissions,
        }
    }
}

impl TcpSender {
    /// The stream to be sent is well-formed.
    pub closed spec fn stream_wf(&self) -> bool {
        self.outbound.wf()
    }

    pub open spec fn wf(&self) -> bool {
        &&& self.stream_wf()
        &&& self@.valid()
    }

    /// The stream to be sent holds no more than its capacity.
    pub proof fn outbound_bounds(&self)
        requires
            self.wf(),
        ensures
            self@.outbound.buffered.len() <= self@.outbound.capacity <= usize::MAX,
            self@.outbound.pushed() <= u64::MAX,
    {
        self.outbound.lemma_bounds();
    }

    pub fn new(capacity: usize, isn: Wrap32, config: TcpSenderConfig) -> (sender: Self)
        requires
            config.valid(),
        ensures
            sender.wf(),
            sender@ == SenderView::fresh(capacity as nat, isn, config),
    {
        let sender = Self {
            outbound: ByteStream::new(capacity),
            isn,
            snd_una: 0,
            snd_nxt: 0,
            advertised_window: 1,
            outstanding: VecDeque::new(),
            syn_sent: false,
            fin_sent: false,
            config,
            current_rto_ms: config.initial_rto_ms,
            persist_interval_ms: config.initial_rto_ms,
            timer: Timer::new(),
            consecutive_retransmissions: 0,
        };
        assert(segment_views(sender.outstanding@) =~= Seq::empty());
        sender
    }

    pub fn outbound(&self) -> (outbound: &ByteStream)
        ensures
            outbound@ == self@.outbound,
            self.wf() ==> outbound.wf(),
    {
        &self.outbound
    }

    /// The stream to be sent, to be written to.
    pub fn outbound_mut(&mut self) -> (outbound: &mut ByteStream)
        ensures
            outbound@ == old(self)@.outbound,
            old(self).wf() ==> outbound.wf(),
            final(self)@ == (SenderView { outbound: final(outbound)@, ..old(self)@ }),
            old(self).wf() && final(outbound).wf() ==> final(self).wf(),
    {
        &mut self.outbound
    }

    pub fn isn(&self) -> (isn: Wrap32)
        ensures
            isn == self@.isn,
    {
        self.isn
    }

    pub fn snd_una(&self) -> (una: u64)
        ensures
            una == self@.snd_una,
    {
        self.snd_una
    }

    pub fn snd_nxt(&self) -> (nxt: u64)
        ensures
            nxt == self@.snd_nxt,
    {
        self.snd_nxt
    }

    pub fn advertised_window(&self) -> (window: u64)
        ensures
            window == self@.window,
    {
        self.advertised_window
    }

    /// How many sequence numbers are sent and not acknowledged.
    pub fn bytes_in_flight(&self) -> (count: u64)
        requires
            self.wf(),
        ensures
            count == self@.in_flight(),
    {
        self.snd_nxt - self.snd_una
    }

    pub fn outstanding_segments(&self) -> (count: usize)
        ensures
            count == self@.outstanding.len(),
    {
        self.outstanding.len()
    }

    /// The oldest segment that is not acknowledged in full.
    pub fn oldest_outstanding(&self) -> (segment: Option<&OutstandingSegment>)
        ensures
            match segment {
                Some(segment) => self@.outstanding.len() > 0 && segment@ == self@.outstanding[0],
                None => self@.outstanding.len() == 0,
            },
    {
        if self.outstanding.len() == 0 {
            None
        } else {
            Some(&self.outstanding[0])
        }
    }

    pub fn consecutive_retransmissions(&self) -> (count: u64)
        ensures
            count == self@.consecutive_retransmissions,
    {
        self.consecutive_retransmissions
    }

    pub fn current_rto_ms(&self) -> (ms: u64)
        ensures
            ms == self@.current_rto_ms,
    {
        self.current_rto_ms
    }

    pub fn persist_interval_ms(&self) -> (ms: u64)
        ensures
            ms == self@.persist_interval_ms,
    {
        self.persist_interval_ms
    }

    pub fn timer_timeout_ms(&self) -> (timeout: Option<u64>)
        ensures
            timeout == if self@.timer.running {
                Some(self@.timer.timeout_ms)
            } else {
                None
            },
    {
        self.timer.timeout_ms()
    }

    pub fn timer_mode(&self) -> (mode: Option<&'static str>)
        ensures
            match self@.timer.mode {
                Some(TimerMode::Retransmission) => mode is Some && mode->Some_0@
                    == "retransmission"@,
                Some(TimerMode::Persist) => mode is Some && mode->Some_0@ == "persist"@,
                None => mode is None,
            },
    {
        match self.timer.mode() {
            Some(TimerMode::Retransmission) => Some("retransmission"),
            Some(TimerMode::Persist) => Some("persist"),
            None => None,
        }
    }

    /// The most payload bytes that one segment carries.
    pub fn max_payload_size(&self) -> (size: usize)
        ensures
            size == self@.config.max_payload_size,
    {
        self.config.max_payload_size
    }

    pub fn syn_sent(&self) -> (sent: bool)
        ensures
            sent == self@.syn_sent,
    {
        self.syn_sent
    }

    pub fn fin_sent(&self) -> (sent: bool)
        ensures
            sent == self@.fin_sent,
    {
        self.fin_sent
    }

    /// Whether the FIN was sent and everything is acknowledged.
    pub fn is_finished(&self) -> (finished: bool)
        ensures
            finished == (self@.fin_sent && self@.outstanding.len() == 0),
    {
        self.fin_sent && self.outstanding.len() == 0
    }

    /// Fills the window of the receiver and gives the messages to send, in
    /// order. Into a closed window goes one sequence number, as a probe.
    pub fn push(&mut self) -> (sent: Vec<TcpSenderMessage>)
        requires
            old(self).wf(),
            old(self)@.snd_nxt + old(self)@.sendable() <= u64::MAX,
        ensures
            final(self).wf(),
            message_views(sent@) == old(self)@.fill().0,
            final(self)@ == old(self)@.fill().1,
    {
        let mut sent: Vec<TcpSenderMessage> = Vec::new();
        let effective_window: u64 = if self.advertised_window == 0 {
            1
        } else {
            self.advertised_window
        };
        let ghost planned = self@.fill();
        let mut done: bool = false;
        assert(message_views(sent@) + self@.fill().0 =~= planned.0);
        while !done && self.snd_nxt - self.snd_una < effective_window
            invariant
                self.wf(),
                effective_window == self@.effective_window(),
                self@.snd_nxt + self@.sendable() <= u64::MAX,
                planned.0 == message_views(sent@) + self@.fill().0,
                planned.1 == self@.fill().1,
                done ==> self@.fill() == (Seq::<SenderMessageView>::empty(), self@),
            decreases self@.space() + if done {
                0nat
            } else {
                1nat
            },
        {
            let ghost before = self@;
            let message = self.take_next_message(effective_window);
            if message.is_empty_in_sequence_space() {
                assert(before.outbound.after_pop(0) =~= before.outbound);
                done = true;
            } else {
                proof {
                    lemma_after_next_message(before);
                }
                let copy = self.track(message);
                assert(self@ =~= before.after_next_message());
                let ghost earlier = message_views(sent@);
                let ghost said = copy@;
                sent.push(copy);
                assert(message_views(sent@) =~= earlier.push(said));
                assert(earlier + before.fill().0 =~= message_views(sent@) + self@.fill().0);
            }
        }
        assert(message_views(sent@) + Seq::<SenderMessageView>::empty() =~= message_views(sent@));
        sent
    }

    /// Takes in what the receiver says: what it has got, and its window.
    pub fn receive(&mut self, message: TcpReceiverMessage)
        requires
            old(self).wf(),
        ensures
            final(self).wf(),
            final(self)@ == old(self)@.after_receive(message),
    {
        if message.rst {
            self.abort();
            return ;
        }
        let new_window: u64 = message.window_size as u64;
        let wrapped_ackno = match message.ackno {
            Some(ackno) => ackno,
            None => {
                let window_changed = self.advertised_window != new_window;
                self.advertised_window = new_window;
                if window_changed && self.outstanding.len() > 0 {
                    self.restart_timer_for_current_window();
                }
                return ;
            },
        };
        let absolute_ackno: u64 = wrapped_ackno.unwrap(self.isn, self.snd_nxt);
        if absolute_ackno > self.snd_nxt {
            return ;
        }
        let window_changed = self.advertised_window != new_window;
        self.advertised_window = new_window;
        let ack_advanced = absolute_ackno > self.snd_una;
        if ack_advanced {
            self.snd_una = absolute_ackno;
            self.discard_acknowledged_prefix(Ghost(old(self).snd_una));
            self.current_rto_ms = self.config.initial_rto_ms;
            self.persist_interval_ms = self.config.initial_rto_ms;
            self.consecutive_retransmissions = 0;
        }
        if self.outstanding.len() == 0 {
            self.timer.stop();
        } else if ack_advanced || window_changed {
            self.restart_timer_for_current_window();
        }
    }

    /// Lets time pass and gives the segment to send once more where the timer
    /// has run out.
    pub fn tick(&mut self, elapsed_ms: u64) -> (sent: Option<TcpSenderMessage>)
        requires
            old(self).wf(),
        ensures
            final(self).wf(),
            final(self)@ == old(self)@.after_tick(elapsed_ms),
            match sent {
                Some(message) => old(self)@.retransmission(elapsed_ms) == Some(message@),
                None => old(self)@.retransmission(elapsed_ms) is None,
            },
    {
        if !self.timer.tick(elapsed_ms) {
            return None;
        }
        if self.outstanding.len() == 0 {
            self.timer.stop();
            return None;
        }
        let message = self.outstanding[0].message.clone();
        if self.advertised_window == 0 {
            self.persist_interval_ms = self.backed_off(self.persist_interval_ms);
        } else {
            self.consecutive_retransmissions = self.consecutive_retransmissions.saturating_add(1);
            self.current_rto_ms = self.backed_off(self.current_rto_ms);
        }
        self.restart_timer_for_current_window();
        Some(message)
    }

    /// A message that occupies no sequence number, to carry an acknowledgement.
    pub fn make_empty_message(&self) -> (message: TcpSenderMessage)
        ensures
            message@ == self@.empty_message(),
    {
        TcpSenderMessage {
            seqno: Wrap32::wrap(self.snd_nxt, self.isn),
            syn: false,
            payload: Bytes::new(),
            fin: false,
            rst: self.outbound.has_error(),
        }
    }

    fn backed_off(&self, timeout_ms: u64) -> (backed_off: u64)
        ensures
            backed_off == self@.backed_off(timeout_ms),
    {
        if timeout_ms <= self.config.max_timer_interval_ms / 2 {
            timeout_ms * 2
        } else {
            self.config.max_timer_interval_ms
        }
    }

    /// Moves bytes out of the stream into the payload of one segment.
    fn read_outbound_payload(&mut self, max_len: usize) -> (payload: Bytes)
        requires
            old(self).outbound.wf(),
            max_len <= 0xffff,
        ensures
            final(self).outbound.wf(),
            final(self)@ == (SenderView {
                outbound: old(self)@.outbound.after_pop(max_len as nat),
                ..old(self)@
            }),
            contents(payload) == old(self)@.outbound.buffered.take(
                old(self)@.outbound.readable(max_len as nat) as int,
            ),
    {
        self.outbound.pop(max_len)
    }

    /// Makes the next message out of what waits to be sent.
    fn take_next_message(&mut self, effective_window: u64) -> (message: TcpSenderMessage)
        requires
            old(self).wf(),
            effective_window == old(self)@.effective_window(),
            old(self)@.space() > 0,
        ensures
            final(self).outbound.wf(),
            message@ == old(self)@.next_message(),
            final(self)@ == (SenderView {
                outbound: old(self)@.outbound.after_pop(message@.payload.len()),
                syn_sent: true,
                fin_sent: old(self)@.fin_sent || message@.fin,
                ..old(self)@
            }),
    {
        let mut message = self.make_empty_message();
        let mut remaining_sequence_space: u64 = effective_window - (self.snd_nxt - self.snd_una);
        if !self.syn_sent {
            message.syn = true;
            self.syn_sent = true;
            remaining_sequence_space = remaining_sequence_space - 1;
        }
        let payload_budget: usize = if remaining_sequence_space
            <= self.config.max_payload_size as u64 {
            remaining_sequence_space as usize
        } else {
            self.config.max_payload_size
        };
        message.payload = self.read_outbound_payload(payload_budget);
        remaining_sequence_space = remaining_sequence_space - message.payload.len() as u64;
        if !self.fin_sent && self.outbound.is_closed() && self.outbound.bytes_buffered() == 0
            && remaining_sequence_space > 0 {
            message.fin = true;
            self.fin_sent = true;
        }
        message
    }

    /// Remembers a message until it is acknowledged, and gives it back.
    fn track(&mut self, message: TcpSenderMessage) -> (copy: TcpSenderMessage)
        requires
            old(self).outbound.wf(),
            message@.sequence_length() > 0,
            old(self).snd_nxt + message@.sequence_length() <= u64::MAX,
            old(self).current_rto_ms > 0,
            old(self).persist_interval_ms > 0,
        ensures
            final(self).outbound == old(self).outbound,
            copy@ == message@,
            ({
                let sent = SenderView {
                    snd_nxt: old(self)@.snd_nxt + message@.sequence_length(),
                    outstanding: old(self)@.outstanding.push(
                        SegmentView { start: old(self)@.snd_nxt as int, message: message@ },
                    ),
                    ..old(self)@
                };
                final(self)@ == if old(self)@.outstanding.len() == 0 {
                    SenderView { timer: sent.fresh_timer(), ..sent }
                } else {
                    sent
                }
            }),
    {
        let absolute_start: u64 = self.snd_nxt;
        self.snd_nxt = self.snd_nxt + message.sequence_length();
        let should_start_timer = self.outstanding.len() == 0;
        let ghost before = segment_views(self.outstanding@);
        let copy = message.clone();
        let segment = OutstandingSegment { absolute_start, message };
        let ghost added = segment@;
        self.outstanding.push_back(segment);
        assert(segment_views(self.outstanding@) =~= before.push(added));
        if should_start_timer {
            self.restart_timer_for_current_window();
        }
        copy
    }

    /// Forgets the segments that are acknowledged in full and trims one that is
    /// acknowledged in part.
    fn discard_acknowledged_prefix(&mut self, Ghost(from): Ghost<u64>)
        requires
            chained(
                old(self)@.outstanding,
                from as int,
                old(self).snd_nxt as int,
                old(self).isn,
            ),
            from < old(self).snd_una <= old(self).snd_nxt,
            no_longer_than(
                old(self)@.outstanding,
                old(self).config.max_payload_size as nat,
            ),
        ensures
            final(self)@ == (SenderView {
                outstanding: unacknowledged(
                    old(self)@.outstanding,
                    old(self).snd_una as int,
                    old(self).isn,
                ),
                ..old(self)@
            }),
            final(self).outbound == old(self).outbound,
            chained(
                final(self)@.outstanding,
                old(self).snd_una as int,
                old(self).snd_nxt as int,
                old(self).isn,
            ),
            no_longer_than(
                final(self)@.outstanding,
                old(self).config.max_payload_size as nat,
            ),
    {
        proof {
            lemma_trimming_shortens(
                self@.outstanding,
                self.snd_una as int,
                self.isn,
                self.config.max_payload_size as nat,
            );
        }
        let ghost result = unacknowledged(
            self@.outstanding,
            self.snd_una as int,
            self.isn,
        );
        let ghost mut begin = from as int;
        while self.outstanding.len() > 0 && self.outstanding[0].absolute_end() <= self.snd_una
            invariant
                *self == (TcpSender { outstanding: self.outstanding, ..*old(self) }),
                begin <= self.snd_una <= self.snd_nxt,
                chained(segment_views(self.outstanding@), begin, self.snd_nxt as int, self.isn),
                result == unacknowledged(
                    segment_views(self.outstanding@),
                    self.snd_una as int,
                    self.isn,
                ),
            decreases self.outstanding@.len(),
        {
            let ghost before = segment_views(self.outstanding@);
            proof {
                lemma_chained_rest(before, begin, self.snd_nxt as int, self.isn);
                begin = before[0].end();
            }
            let _ = self.outstanding.pop_front();
            assert(segment_views(self.outstanding@) =~= before.drop_first());
        }
        if self.outstanding.len() > 0 && self.outstanding[0].absolute_start < self.snd_una {
            let ghost before = segment_views(self.outstanding@);
            let mut front = self.outstanding.pop_front().unwrap();
            let ghost rest = segment_views(self.outstanding@);
            assert(rest =~= before.drop_first());
            let acknowledged_prefix: u64 = self.snd_una - front.absolute_start;
            front.trim_prefix(acknowledged_prefix, self.isn);
            let ghost trimmed = front@;
            self.outstanding.push_front(front);
            assert(segment_views(self.outstanding@) =~= seq![trimmed] + rest);
            proof {
                lemma_chained_trimmed(
                    before,
                    trimmed,
                    begin,
                    self.snd_una as int,
                    self.snd_nxt as int,
                    self.isn,
                );
            }
        }
    }

    fn restart_timer_for_current_window(&mut self)
        requires
            old(self).current_rto_ms > 0,
            old(self).persist_interval_ms > 0,
        ensures
            *final(self) == (TcpSender { timer: old(self)@.fresh_timer(), ..*old(self) }),
    {
        if self.outstanding.len() == 0 {
            self.timer.stop();
            return ;
        }
        if self.advertised_window == 0 {
            self.timer.restart(self.persist_interval_ms, TimerMode::Persist);
        } else {
            self.timer.restart(self.current_rto_ms, TimerMode::Retransmission);
        }
    }

    /// Gives up: nothing is outstanding any more, and the stream has failed.
    fn abort(&mut self)
        requires
            old(self).wf(),
        ensures
            final(self).wf(),
            final(self)@ == old(self)@.aborted(),
    {
        self.outbound.set_error();
        self.outstanding.clear();
        self.snd_una = self.snd_nxt;
        self.timer.stop();
        assert(segment_views(self.outstanding@) =~= Seq::empty());
    }
}

proof fn lemma_chained_rest(segments: Seq<SegmentView>, from: int, to: int, isn: Wrap32)
    requires
        segments.len() > 0,
        chained(segments, from, to, isn),
    ensures
        chained(segments.drop_first(), segments[0].end(), to, isn),
        from < segments[0].end() <= to,
    decreases segments.len(),
{
    let rest = segments.drop_first();
    assert forall|i: int| 0 <= i < segments.len() implies segments[0].start <= (
    #[trigger] segments[i]).start && (i > 0 ==> segments[0].end() <= segments[i].start) by {
        lemma_chained_order(segments, from, to, isn, i);
    }
    assert forall|i: int| 0 <= i < rest.len() implies rest[i] == segments[i + 1] by {}
}

/// Acknowledgements do not make segments longer.
proof fn lemma_trimming_shortens(segments: Seq<SegmentView>, una: int, isn: Wrap32, bound: nat)
    requires
        no_longer_than(segments, bound),
    ensures
        no_longer_than(unacknowledged(segments, una, isn), bound),
    decreases segments.len(),
{
    if segments.len() > 0 {
        let rest = segments.drop_first();
        assert(no_longer_than(rest, bound)) by {
            assert forall|i: int| 0 <= i < rest.len() implies (
            #[trigger] rest[i]).message.payload.len() <= bound by {
                assert(rest[i] == segments[i + 1]);
            }
        }
        lemma_trimming_shortens(rest, una, isn, bound);
    }
}

proof fn lemma_chained_order(segments: Seq<SegmentView>, from: int, to: int, isn: Wrap32, i: int)
    requires
        chained(segments, from, to, isn),
        0 <= i < segments.len(),
    ensures
        segments[0].start <= segments[i].start,
        i > 0 ==> segments[0].end() <= segments[i].start,
    decreases i,
{
    if i > 0 {
        lemma_chained_order(segments, from, to, isn, i - 1);
        assert(segments[i - 1].end() == segments[i].start);
    }
}

proof fn lemma_chained_trimmed(
    segments: Seq<SegmentView>,
    trimmed: SegmentView,
    from: int,
    una: int,
    to: int,
    isn: Wrap32,
)
    requires
        segments.len() > 0,
        chained(segments, from, to, isn),
        from <= una < segments[0].end(),
        trimmed.start == una,
        trimmed.end() == segments[0].end(),
        trimmed.message.seqno == wrapped(una, isn),
    ensures
        chained(seq![trimmed] + segments.drop_first(), una, to, isn),
{
    lemma_chained_rest(segments, from, to, isn);
    let rest = segments.drop_first();
    let all = seq![trimmed] + rest;
    assert forall|i: int, j: int|
        0 <= i && j == i + 1 && j < all.len() implies (#[trigger] all[i]).end() == (
    #[trigger] all[j]).start by {
        assert(all[j] == rest[i]);
        if i > 0 {
            assert(all[i] == rest[i - 1]);
        }
    }
}

/// Sending the next message keeps a sender valid and uses up space.
pub proof fn lemma_after_next_message(sender: SenderView)
    requires
        sender.valid(),
        sender.space() > 0,
        sender.next_message().sequence_length() > 0,
        sender.snd_nxt + sender.sendable() <= u64::MAX,
    ensures
        sender.after_next_message().valid(),
        sender.next_message().sequence_length() <= sender.sendable(),
        sender.after_next_message().sendable() == sender.sendable()
            - sender.next_message().sequence_length(),
        sender.after_next_message().space() == sender.space()
            - sender.next_message().sequence_length(),
{
    let after = sender.after_next_message();
    let old_segments = sender.outstanding;
    let segments = after.outstanding;
    assert forall|i: int, j: int|
        0 <= i && j == i + 1 && j < segments.len() implies (#[trigger] segments[i]).end() == (
    #[trigger] segments[j]).start by {
        assert(segments[i] == old_segments[i]);
        if j < old_segments.len() {
            assert(segments[j] == old_segments[j]);
        }
    }
    assert forall|i: int| 0 <= i < segments.len() implies {
        &&& (#[trigger] segments[i]).message.sequence_length() > 0
        &&& segments[i].message.seqno == wrapped(segments[i].start, sender.isn)
        &&& sender.snd_una <= segments[i].start
        &&& segments[i].end() <= after.snd_nxt
    } by {
        if i < old_segments.len() {
            assert(segments[i] == old_segments[i]);
        }
    }
}

/// The payloads of messages, one behind the other.
pub open spec fn joined_payloads(messages: Seq<SenderMessageView>) -> Seq<u8>
    decreases messages.len(),
{
    if messages.len() == 0 {
        Seq::empty()
    } else {
        messages[0].payload + joined_payloads(messages.drop_first())
    }
}

/// Filling the window begins with the next message.
pub proof fn lemma_fill_step(sender: SenderView)
    requires
        sender.space() > 0,
        sender.next_message().sequence_length() > 0,
    ensures
        sender.fill().0.drop_first() == sender.after_next_message().fill().0,
        sender.fill().0[0] == sender.next_message(),
        sender.fill().1 == sender.after_next_message().fill().1,
{
    assert(sender.fill().0.drop_first() =~= sender.after_next_message().fill().0);
}

/// Nothing to send means that nothing fits or nothing waits.
proof fn lemma_nothing_to_send(sender: SenderView)
    requires
        sender.valid(),
        sender.space() > 0,
        sender.next_message().sequence_length() == 0,
    ensures
        sender.waiting() == 0,
{
}

/// Filling the window sends everything that waits, as far as it fits into the
/// window, and leaves the sender valid with nothing more to send.
pub proof fn law_fill_sends_what_fits(sender: SenderView)
    requires
        sender.valid(),
        sender.snd_nxt + sender.sendable() <= u64::MAX,
    ensures
        sender.fill().1.valid(),
        sender.fill().1.snd_nxt == sender.snd_nxt + sender.sendable(),
        sender.fill().1.snd_una == sender.snd_una,
        sender.fill().1.sendable() == 0,
        sender.fill().1.fill() == (Seq::<SenderMessageView>::empty(), sender.fill().1),
    decreases sender.space(),
{
    if sender.space() > 0 {
        if sender.next_message().sequence_length() > 0 {
            lemma_after_next_message(sender);
            lemma_fill_step(sender);
            law_fill_sends_what_fits(sender.after_next_message());
        } else {
            lemma_nothing_to_send(sender);
        }
    }
}

/// The flight never grows beyond the window, nor beyond one sequence number
/// where the window is closed.
pub proof fn law_flight_respects_window(sender: SenderView)
    requires
        sender.valid(),
        sender.snd_nxt + sender.sendable() <= u64::MAX,
    ensures
        sender.fill().1.in_flight() <= sender.effective_window() || sender.fill().1.in_flight()
            == sender.in_flight(),
        sender.in_flight() >= sender.effective_window() ==> sender.fill() == (
            Seq::<SenderMessageView>::empty(),
            sender,
        ),
{
    law_fill_sends_what_fits(sender);
}

/// The payloads sent are the bytes written, in order and without a gap, and each
/// is no longer than a segment may be. The messages are the ones that become
/// outstanding.
pub proof fn law_fill_sends_the_stream(sender: SenderView)
    requires
        sender.valid(),
        sender.snd_nxt + sender.sendable() <= u64::MAX,
    ensures
        ({
            let (messages, after) = sender.fill();
            let bytes = joined_payloads(messages);
            &&& bytes.len() <= sender.outbound.buffered.len()
            &&& bytes == sender.outbound.buffered.take(bytes.len() as int)
            &&& after.outbound == sender.outbound.after_pop(bytes.len())
            &&& forall|i: int|
                0 <= i < messages.len() ==> (#[trigger] messages[i]).payload.len()
                    <= sender.config.max_payload_size
            &&& after.outstanding.len() == sender.outstanding.len() + messages.len()
            &&& forall|i: int|
                0 <= i < sender.outstanding.len() ==> after.outstanding[i]
                    == #[trigger] sender.outstanding[i]
            &&& forall|i: int|
                0 <= i < messages.len() ==> after.outstanding[sender.outstanding.len()
                    + i].message == #[trigger] messages[i]
        }),
    decreases sender.space(),
{
    let (messages, after) = sender.fill();
    if sender.space() == 0 || sender.next_message().sequence_length() == 0 {
        assert(sender.outbound.buffered.take(0) =~= Seq::empty());
        assert(sender.outbound.after_pop(0) =~= sender.outbound);
    } else {
        let next = sender.after_next_message();
        let message = sender.next_message();
        lemma_after_next_message(sender);
        lemma_fill_step(sender);
        law_fill_sends_the_stream(next);
        let rest = next.fill().0;
        let bytes = joined_payloads(messages);
        assert(bytes == message.payload + joined_payloads(rest));
        assert(bytes =~= sender.outbound.buffered.take(bytes.len() as int)) by {
            let later = joined_payloads(rest);
            assert(later == next.outbound.buffered.take(later.len() as int));
            assert forall|i: int| 0 <= i < bytes.len() implies bytes[i]
                == sender.outbound.buffered[i] by {
                if i >= message.payload.len() {
                    assert(bytes[i] == later[i - message.payload.len()]);
                    assert(later[i - message.payload.len()] == next.outbound.buffered[i
                        - message.payload.len()]);
                }
            }
        }
        law_reads_compose(
            sender.outbound,
            message.payload.len(),
            joined_payloads(rest).len(),
        );
        assert(after.outbound == sender.outbound.after_pop(bytes.len()));
        assert forall|i: int| 0 <= i < messages.len() implies (
        #[trigger] messages[i]).payload.len() <= sender.config.max_payload_size by {
            if i > 0 {
                assert(messages[i] == rest[i - 1]);
            }
        }
        assert forall|i: int| 0 <= i < sender.outstanding.len() implies after.outstanding[i]
            == #[trigger] sender.outstanding[i] by {
            assert(next.outstanding[i] == sender.outstanding[i]);
        }
        assert forall|i: int| 0 <= i < messages.len() implies
            after.outstanding[sender.outstanding.len() + i].message == #[trigger] messages[i] by {
            if i > 0 {
                assert(messages[i] == rest[i - 1]);
                assert(after.outstanding[next.outstanding.len() + (i - 1)].message == rest[i - 1]);
            } else {
                assert(after.outstanding[sender.outstanding.len() as int]
                    == next.outstanding[sender.outstanding.len() as int]);
            }
        }
    }
}

/// The absolute sequence numbers count what was sent: the SYN, the bytes taken
/// out of the stream, and the FIN.
pub open spec fn accounted(sender: SenderView) -> bool {
    &&& sender.snd_nxt == flag(sender.syn_sent) + sender.outbound.popped + flag(sender.fin_sent)
    &&& !sender.syn_sent ==> sender.snd_nxt == 0
    &&& sender.fin_sent ==> sender.outbound.closed && sender.outbound.buffered.len() == 0
}

/// Whatever the sender does keeps its sequence numbers in step with the stream:
/// SYN and FIN are sent once, and nothing behind the FIN.
pub proof fn law_sequence_numbers_count_the_stream(
    sender: SenderView,
    message: TcpReceiverMessage,
    ms: u64,
)
    requires
        sender.valid(),
        sender.snd_nxt + sender.sendable() <= u64::MAX,
        accounted(sender),
    ensures
        accounted(sender.fill().1),
        accounted(sender.after_receive(message)),
        accounted(sender.after_tick(ms)),
        sender.fin_sent && sender.syn_sent ==> sender.fill() == (
            Seq::<SenderMessageView>::empty(),
            sender,
        ),
    decreases sender.space(),
{
    if sender.space() > 0 && sender.next_message().sequence_length() > 0 {
        lemma_after_next_message(sender);
        lemma_fill_step(sender);
        law_sequence_numbers_count_the_stream(sender.after_next_message(), message, ms);
    }
}

/// What one sequence number stands for.
pub enum SequenceItem {
    Syn,
    Byte(u8),
    Fin,
}

/// What the sequence number at a place in a message stands for.
pub open spec fn item_in(message: SenderMessageView, place: int) -> SequenceItem {
    if place < flag(message.syn) {
        SequenceItem::Syn
    } else if place - flag(message.syn) < message.payload.len() {
        SequenceItem::Byte(message.payload[place - flag(message.syn)])
    } else {
        SequenceItem::Fin
    }
}

/// What an absolute sequence number stands for in some segments.
pub open spec fn item_at(segments: Seq<SegmentView>, number: int) -> Option<SequenceItem>
    decreases segments.len(),
{
    if segments.len() == 0 {
        None
    } else if segments[0].start <= number < segments[0].end() {
        Some(item_in(segments[0].message, number - segments[0].start))
    } else {
        item_at(segments.drop_first(), number)
    }
}

/// An acknowledgement, of whole segments or in the middle of one, takes away the
/// sequence numbers before it and nothing else.
pub proof fn law_ack_keeps_the_rest(
    segments: Seq<SegmentView>,
    from: int,
    una: int,
    to: int,
    isn: Wrap32,
    number: int,
)
    requires
        chained(segments, from, to, isn),
        from <= una <= to,
    ensures
        chained(unacknowledged(segments, una, isn), una, to, isn),
        item_at(unacknowledged(segments, una, isn), number) == if number < una {
            None
        } else {
            item_at(segments, number)
        },
    decreases segments.len(),
{
    if segments.len() == 0 {
    } else {
        let rest = segments.drop_first();
        let next = segments[0];
        lemma_chained_rest(segments, from, to, isn);
        if next.end() <= una {
            law_ack_keeps_the_rest(rest, next.end(), una, to, isn, number);
        } else if next.start < una {
            let trimmed = next.without_prefix((una - next.start) as nat, isn);
            lemma_chained_trimmed(segments, trimmed, from, una, to, isn);
            assert((seq![trimmed] + rest).drop_first() =~= rest);
            if number < una {
                lemma_item_before(rest, next.end(), to, isn, number);
            }
        } else if number < una {
            lemma_item_before(segments, from, to, isn, number);
        }
    }
}

proof fn lemma_item_before(segments: Seq<SegmentView>, from: int, to: int, isn: Wrap32, number: int)
    requires
        chained(segments, from, to, isn),
        number < from,
    ensures
        item_at(segments, number) is None,
    decreases segments.len(),
{
    if segments.len() > 0 {
        lemma_chained_rest(segments, from, to, isn);
        lemma_item_before(segments.drop_first(), segments[0].end(), to, isn, number);
    }
}

/// Hearing from the receiver keeps a sender valid. What is acknowledged stays
/// acknowledged, nothing new is sent, and what was never sent cannot be
/// acknowledged.
pub proof fn law_receive(sender: SenderView, message: TcpReceiverMessage)
    requires
        sender.valid(),
    ensures
        sender.after_receive(message).valid(),
        sender.snd_una <= sender.after_receive(message).snd_una <= sender.snd_nxt,
        sender.after_receive(message).snd_nxt == sender.snd_nxt,
        !message.rst && message.ackno is Some && sender.acknowledged(message.ackno->Some_0)
            > sender.snd_nxt ==> sender.after_receive(message) == sender,
{
    if !message.rst && message.ackno is Some {
        let una = sender.acknowledged(message.ackno->Some_0);
        if sender.snd_una < una <= sender.snd_nxt {
            lemma_trimming_shortens(
                sender.outstanding,
                una as int,
                sender.isn,
                sender.config.max_payload_size as nat,
            );
            law_ack_keeps_the_rest(
                sender.outstanding,
                sender.snd_una as int,
                una as int,
                sender.snd_nxt as int,
                sender.isn,
                0,
            );
        }
    }
}

/// Only an acknowledgement of something new resets the timeouts and the count of
/// retransmissions.
pub proof fn law_duplicate_ack_keeps_backoff(sender: SenderView, message: TcpReceiverMessage)
    requires
        !message.rst,
        message.ackno matches Some(ackno) ==> sender.acknowledged(ackno) <= sender.snd_una,
    ensures
        sender.after_receive(message).current_rto_ms == sender.current_rto_ms,
        sender.after_receive(message).persist_interval_ms == sender.persist_interval_ms,
        sender.after_receive(message).consecutive_retransmissions
            == sender.consecutive_retransmissions,
        sender.after_receive(message).outstanding == sender.outstanding,
{
}

/// When time is up the oldest unacknowledged sequence numbers are sent again, and
/// the interval doubles up to its bound. Probing a closed window does not count
/// as a retransmission.
pub proof fn law_tick(sender: SenderView, ms: u64)
    requires
        sender.valid(),
    ensures
        sender.after_tick(ms).valid(),
        sender.after_tick(ms).outstanding == sender.outstanding,
        sender.retransmission(ms) is Some <==> sender.timer.running && sender.timer.elapsed_ms + ms
            >= sender.timer.timeout_ms,
        sender.retransmission(ms) matches Some(message) ==> message.seqno == wrapped(
            sender.snd_una as int,
            sender.isn,
        ),
        sender.retransmission(ms) is Some && sender.window == 0 ==> {
            &&& sender.after_tick(ms).consecutive_retransmissions
                == sender.consecutive_retransmissions
            &&& sender.after_tick(ms).persist_interval_ms == sender.backed_off(
                sender.persist_interval_ms,
            )
        },
        sender.retransmission(ms) is Some && sender.window > 0 ==> sender.after_tick(
            ms,
        ).current_rto_ms == sender.backed_off(sender.current_rto_ms),
{
}

/// A sender is finished once its FIN, and with it everything, is acknowledged.
pub proof fn law_finished_when_all_is_acknowledged(sender: SenderView)
    requires
        sender.valid(),
    ensures
        sender.outstanding.len() == 0 <==> sender.snd_una == sender.snd_nxt,
{
    if sender.outstanding.len() > 0 {
        lemma_chained_rest(
            sender.outstanding,
            sender.snd_una as int,
            sender.snd_nxt as int,
            sender.isn,
        );
    }
}

/// Whether a message at an absolute sequence number carries bytes of the stream
/// `source`, each at its place: the SYN has the number zero, and the byte with
/// the index `i` in the stream the number `i + 1`.
pub open spec fn tells(
    message: SenderMessageView,
    start: int,
    isn: Wrap32,
    source: spec_fn(int) -> u8,
) -> bool {
    &&& message.seqno == wrapped(start, isn)
    &&& message.syn ==> start == 0
    &&& forall|i: int|
        0 <= i < message.payload.len() ==> (#[trigger] message.payload[i]) == source(
            start + flag(message.syn) - 1 + i,
        )
}

/// Whether a message carries bytes of the stream `source` at a sequence number
/// between two others.
pub open spec fn tells_between(
    message: SenderMessageView,
    low: int,
    high: int,
    isn: Wrap32,
    source: spec_fn(int) -> u8,
) -> bool {
    exists|start: int| low <= start < high && #[trigger] tells(message, start, isn, source)
}

/// Whether what waits to be sent and what is outstanding are bytes of the stream
/// `source`.
pub open spec fn sends_stream(sender: SenderView, source: spec_fn(int) -> u8) -> bool {
    &&& forall|i: int|
        0 <= i < sender.outbound.buffered.len() ==> (#[trigger] sender.outbound.buffered[i])
            == source(sender.outbound.popped + i)
    &&& forall|i: int|
        0 <= i < sender.outstanding.len() ==> tells(
            (#[trigger] sender.outstanding[i]).message,
            sender.outstanding[i].start,
            sender.isn,
            source,
        )
}

/// Every message that fills the window carries bytes of the stream that the
/// application writes, at their places, and the sender goes on to send that
/// stream.
pub proof fn law_messages_carry_the_stream(sender: SenderView, source: spec_fn(int) -> u8)
    requires
        sender.valid(),
        sender.snd_nxt + sender.sendable() <= u64::MAX,
        accounted(sender),
        sends_stream(sender, source),
    ensures
        sends_stream(sender.fill().1, source),
        sender.fill().1.isn == sender.isn,
        forall|i: int|
            0 <= i < sender.fill().0.len() ==> tells_between(
                #[trigger] sender.fill().0[i],
                sender.snd_nxt as int,
                sender.fill().1.snd_nxt as int,
                sender.isn,
                source,
            ),
    decreases sender.space(),
{
    if sender.space() > 0 && sender.next_message().sequence_length() > 0 {
        let next = sender.after_next_message();
        let message = sender.next_message();
        lemma_after_next_message(sender);
        lemma_fill_step(sender);
        assert(tells(message, sender.snd_nxt as int, sender.isn, source));
        assert(accounted(next));
        assert(sends_stream(next, source)) by {
            assert forall|i: int| 0 <= i < next.outbound.buffered.len() implies (
            #[trigger] next.outbound.buffered[i]) == source(next.outbound.popped + i) by {
                assert(next.outbound.buffered[i] == sender.outbound.buffered[i
                    + message.payload.len()]);
            }
            assert forall|i: int| 0 <= i < next.outstanding.len() implies tells(
                (#[trigger] next.outstanding[i]).message,
                next.outstanding[i].start,
                sender.isn,
                source,
            ) by {
                if i < sender.outstanding.len() {
                    assert(next.outstanding[i] == sender.outstanding[i]);
                }
            }
        }
        law_messages_carry_the_stream(next, source);
        law_fill_sends_what_fits(next);
        let messages = sender.fill().0;
        let rest = next.fill().0;
        assert forall|i: int| 0 <= i < messages.len() implies tells_between(
            #[trigger] messages[i],
            sender.snd_nxt as int,
            sender.fill().1.snd_nxt as int,
            sender.isn,
            source,
        ) by {
            if i == 0 {
                assert(tells(messages[0], sender.snd_nxt as int, sender.isn, source));
            } else {
                assert(messages[i] == rest[i - 1]);
                let start = choose|start: int|
                    next.snd_nxt <= start < next.fill().1.snd_nxt && #[trigger] tells(
                        rest[i - 1],
                        start,
                        next.isn,
                        source,
                    );
                assert(tells(messages[i], start, sender.isn, source));
            }
        }
    }
}

/// Hearing from the receiver and letting time pass do not change the stream that
/// is sent, and what is sent once more belongs to it.
pub proof fn law_stream_is_kept(
    sender: SenderView,
    message: TcpReceiverMessage,
    ms: u64,
    source: spec_fn(int) -> u8,
)
    requires
        sender.valid(),
        sends_stream(sender, source),
    ensures
        sends_stream(sender.after_receive(message), source),
        sends_stream(sender.after_tick(ms), source),
        sender.retransmission(ms) matches Some(again) ==> tells(
            again,
            sender.snd_una as int,
            sender.isn,
            source,
        ),
{
    if !message.rst && message.ackno is Some {
        let una = sender.acknowledged(message.ackno->Some_0);
        if sender.snd_una < una <= sender.snd_nxt {
            lemma_trimming_tells(
                sender.outstanding,
                sender.snd_una as int,
                una as int,
                sender.snd_nxt as int,
                sender.isn,
                source,
            );
        }
    }
}

proof fn lemma_trimming_tells(
    segments: Seq<SegmentView>,
    from: int,
    una: int,
    to: int,
    isn: Wrap32,
    source: spec_fn(int) -> u8,
)
    requires
        chained(segments, from, to, isn),
        from <= una <= to,
        forall|i: int|
            0 <= i < segments.len() ==> tells(
                (#[trigger] segments[i]).message,
                segments[i].start,
                isn,
                source,
            ),
    ensures
        forall|i: int|
            0 <= i < unacknowledged(segments, una, isn).len() ==> tells(
                (#[trigger] unacknowledged(segments, una, isn)[i]).message,
                unacknowledged(segments, una, isn)[i].start,
                isn,
                source,
            ),
    decreases segments.len(),
{
    if segments.len() > 0 {
        let next = segments[0];
        let rest = segments.drop_first();
        lemma_chained_rest(segments, from, to, isn);
        assert forall|i: int| 0 <= i < rest.len() implies tells(
            (#[trigger] rest[i]).message,
            rest[i].start,
            isn,
            source,
        ) by {
            assert(rest[i] == segments[i + 1]);
        }
        if next.end() <= una {
            lemma_trimming_tells(rest, next.end(), una, to, isn, source);
            assert(unacknowledged(segments, una, isn) == unacknowledged(rest, una, isn));
        } else if next.start < una {
            let dropped = (una - next.start) as nat;
            let trimmed = next.without_prefix(dropped, isn);
            let all = seq![trimmed] + rest;
            assert(tells(next.message, next.start, isn, source));
            assert(tells(trimmed.message, trimmed.start, isn, source)) by {
                let gone = next.message.payload.len() - trimmed.message.payload.len();
                assert forall|i: int| 0 <= i < trimmed.message.payload.len() implies (
                #[trigger] trimmed.message.payload[i]) == source(trimmed.start - 1 + i) by {
                    assert(trimmed.message.payload[i] == next.message.payload[gone + i]);
                }
            }
            assert forall|i: int| 0 <= i < all.len() implies tells(
                (#[trigger] all[i]).message,
                all[i].start,
                isn,
                source,
            ) by {
                if i > 0 {
                    assert(all[i] == rest[i - 1]);
                }
            }
            assert(unacknowledged(segments, una, isn) == all);
        } else {
            assert(unacknowledged(segments, una, isn) == segments);
        }
    }
}

/// What can happen to a sender: the application writes or closes the stream, the
/// window is filled, the receiver says something, or time passes.
pub enum SenderAction {
    Write(Seq<u8>),
    Close,
    Push,
    Receive(TcpReceiverMessage),
    Tick(u64),
}

impl SenderView {
    /// The sender after an action.
    pub open spec fn after(self, action: SenderAction) -> SenderView {
        match action {
            SenderAction::Write(data) => SenderView {
                outbound: self.outbound.after_push(data),
                ..self
            },
            SenderAction::Close => SenderView {
                outbound: StreamView { closed: true, ..self.outbound },
                ..self
            },
            SenderAction::Push => self.fill().1,
            SenderAction::Receive(message) => self.after_receive(message),
            SenderAction::Tick(ms) => self.after_tick(ms),
        }
    }

    /// The sender after all of these, one by one.
    pub open spec fn after_all(self, actions: Seq<SenderAction>) -> SenderView
        decreases actions.len(),
    {
        if actions.len() == 0 {
            self
        } else {
            self.after_all(actions.drop_last()).after(actions.last())
        }
    }

    /// All bytes that the stream takes from the application in the course of
    /// these.
    pub open spec fn all_written(self, actions: Seq<SenderAction>) -> Seq<u8>
        decreases actions.len(),
    {
        if actions.len() == 0 {
            Seq::empty()
        } else {
            let sender = self.after_all(actions.drop_last());
            self.all_written(actions.drop_last()) + match actions.last() {
                SenderAction::Write(data) => data.take(
                    sender.outbound.accepted(data.len()) as int,
                ),
                _ => Seq::empty(),
            }
        }
    }

    /// All payload that is sent for the first time in the course of these.
    pub open spec fn all_payload(self, actions: Seq<SenderAction>) -> Seq<u8>
        decreases actions.len(),
    {
        if actions.len() == 0 {
            Seq::empty()
        } else {
            let sender = self.after_all(actions.drop_last());
            self.all_payload(actions.drop_last()) + match actions.last() {
                SenderAction::Push => joined_payloads(sender.fill().0),
                _ => Seq::empty(),
            }
        }
    }

    /// All messages that are sent in the course of these, for the first time or
    /// once more.
    pub open spec fn all_sent(self, actions: Seq<SenderAction>) -> Seq<SenderMessageView>
        decreases actions.len(),
    {
        if actions.len() == 0 {
            Seq::empty()
        } else {
            let sender = self.after_all(actions.drop_last());
            self.all_sent(actions.drop_last()) + match actions.last() {
                SenderAction::Push => sender.fill().0,
                SenderAction::Tick(ms) => match sender.retransmission(ms) {
                    Some(again) => seq![again],
                    None => Seq::empty(),
                },
                _ => Seq::empty(),
            }
        }
    }
}

/// What holds of a sender after some actions.
spec fn sends_history(
    fresh: SenderView,
    actions: Seq<SenderAction>,
    source: spec_fn(int) -> u8,
) -> bool {
    let sender = fresh.after_all(actions);
    let sent = fresh.all_sent(actions);
    &&& sender.valid()
    &&& accounted(sender)
    &&& sender.isn == fresh.isn
    &&& sends_stream(sender, source)
    &&& sender.outbound.pushed() == fresh.all_written(actions).len()
    &&& fresh.all_payload(actions) + sender.outbound.buffered == fresh.all_written(actions)
    &&& forall|i: int|
        0 <= i < sent.len() ==> tells_between(
            #[trigger] sent[i],
            0,
            sender.snd_nxt as int,
            fresh.isn,
            source,
        )
}

/// What was sent between two numbers was sent between two others around them.
proof fn lemma_tells_wider(
    message: SenderMessageView,
    low: int,
    high: int,
    wider: int,
    isn: Wrap32,
    source: spec_fn(int) -> u8,
)
    requires
        tells_between(message, low, high, isn, source),
        0 <= low,
        high <= wider,
    ensures
        tells_between(message, 0, wider, isn, source),
{
    let start = choose|start: int| low <= start < high && #[trigger] tells(
        message,
        start,
        isn,
        source,
    );
    assert(tells(message, start, isn, source));
}

proof fn lemma_sends_write(
    fresh: SenderView,
    actions: Seq<SenderAction>,
    source: spec_fn(int) -> u8,
)
    requires
        actions.len() > 0,
        actions.last() is Write,
        forall|i: int|
            0 <= i < fresh.all_written(actions).len() ==> (#[trigger] fresh.all_written(
                actions,
            )[i]) == source(i),
        sends_history(fresh, actions.drop_last(), source),
    ensures
        sends_history(fresh, actions, source),
{
    let before = actions.drop_last();
    let sender = fresh.after_all(before);
    let after = fresh.after_all(actions);
    if let SenderAction::Write(data) = actions.last() {
        let taken = data.take(sender.outbound.accepted(data.len()) as int);
        let written = fresh.all_written(actions);
        assert(written == fresh.all_written(before) + taken);
        assert forall|i: int| 0 <= i < after.outbound.buffered.len() implies (
        #[trigger] after.outbound.buffered[i]) == source(after.outbound.popped + i) by {
            if i < sender.outbound.buffered.len() {
                assert(after.outbound.buffered[i] == sender.outbound.buffered[i]);
            } else {
                assert(written[after.outbound.popped + i] == taken[i
                    - sender.outbound.buffered.len()]);
            }
        }
        assert(fresh.all_payload(actions) =~= fresh.all_payload(before));
        assert(fresh.all_sent(actions) =~= fresh.all_sent(before));
        assert(fresh.all_payload(actions) + after.outbound.buffered =~= (fresh.all_payload(before)
            + sender.outbound.buffered) + taken);
    }
}

#[verifier::rlimit(30)]
proof fn lemma_sends_push(
    fresh: SenderView,
    actions: Seq<SenderAction>,
    source: spec_fn(int) -> u8,
)
    requires
        actions.len() > 0,
        actions.last() is Push,
        fresh.all_written(actions).len() + 2 <= u64::MAX,
        sends_history(fresh, actions.drop_last(), source),
    ensures
        sends_history(fresh, actions, source),
{
    let before = actions.drop_last();
    let sender = fresh.after_all(before);
    let after = fresh.after_all(actions);
    let bytes = joined_payloads(sender.fill().0);
    assert(fresh.all_written(actions) =~= fresh.all_written(before));
    assert(sender.snd_nxt + sender.waiting() <= sender.outbound.pushed() + 2);
    law_fill_sends_what_fits(sender);
    law_fill_sends_the_stream(sender);
    law_sequence_numbers_count_the_stream(
        sender,
        TcpReceiverMessage { ackno: None, window_size: 0, rst: false },
        0,
    );
    law_messages_carry_the_stream(sender, source);
    assert(fresh.all_payload(actions) + after.outbound.buffered =~= fresh.all_payload(before)
        + sender.outbound.buffered) by {
        assert(sender.outbound.buffered =~= bytes + after.outbound.buffered);
    }
    let sent = fresh.all_sent(actions);
    let earlier = fresh.all_sent(before);
    assert forall|i: int| 0 <= i < sent.len() implies tells_between(
        #[trigger] sent[i],
        0,
        after.snd_nxt as int,
        fresh.isn,
        source,
    ) by {
        if i < earlier.len() {
            assert(sent[i] == earlier[i]);
            lemma_tells_wider(
                earlier[i],
                0,
                sender.snd_nxt as int,
                after.snd_nxt as int,
                fresh.isn,
                source,
            );
        } else {
            assert(sent[i] == sender.fill().0[i - earlier.len()]);
            lemma_tells_wider(
                sent[i],
                sender.snd_nxt as int,
                after.snd_nxt as int,
                after.snd_nxt as int,
                fresh.isn,
                source,
            );
        }
    }
}

proof fn lemma_sends_other(
    fresh: SenderView,
    actions: Seq<SenderAction>,
    source: spec_fn(int) -> u8,
)
    requires
        actions.len() > 0,
        fresh.all_written(actions).len() + 2 <= u64::MAX,
        !(actions.last() is Write) && !(actions.last() is Push),
        sends_history(fresh, actions.drop_last(), source),
    ensures
        sends_history(fresh, actions, source),
{
    let before = actions.drop_last();
    let sender = fresh.after_all(before);
    let after = fresh.after_all(actions);
    let silent = TcpReceiverMessage { ackno: None, window_size: 0, rst: false };
    assert(fresh.all_written(actions) =~= fresh.all_written(before));
    assert(fresh.all_payload(actions) =~= fresh.all_payload(before));
    assert(sender.snd_nxt + sender.waiting() <= sender.outbound.pushed() + 2);
    let sent = fresh.all_sent(actions);
    let earlier = fresh.all_sent(before);
    match actions.last() {
        SenderAction::Receive(message) => {
            law_receive(sender, message);
            law_sequence_numbers_count_the_stream(sender, message, 0);
            law_stream_is_kept(sender, message, 0, source);
            assert(sent =~= earlier);
        },
        SenderAction::Tick(ms) => {
            law_tick(sender, ms);
            law_sequence_numbers_count_the_stream(sender, silent, ms);
            law_stream_is_kept(sender, silent, ms, source);
            if let Some(again) = sender.retransmission(ms) {
                law_finished_when_all_is_acknowledged(sender);
                assert(tells(again, sender.snd_una as int, sender.isn, source));
                assert(tells_between(again, 0, sender.snd_nxt as int, fresh.isn, source));
                assert forall|i: int| 0 <= i < sent.len() implies tells_between(
                    #[trigger] sent[i],
                    0,
                    after.snd_nxt as int,
                    fresh.isn,
                    source,
                ) by {
                    if i < earlier.len() {
                        assert(sent[i] == earlier[i]);
                    }
                }
            } else {
                assert(sent =~= earlier);
            }
        },
        _ => {
            assert(sent =~= earlier);
        },
    }
}

/// Whatever the application writes, however the window is filled, whatever the
/// receiver says and however time passes: the payload that is sent for the first
/// time, and behind it what still waits, is what was written, in order. Each
/// message, sent for the first time or once more, carries bytes of what was
/// written, at their places.
pub proof fn law_every_history_sends_the_stream(
    capacity: nat,
    isn: Wrap32,
    config: TcpSenderConfig,
    actions: Seq<SenderAction>,
    source: spec_fn(int) -> u8,
)
    requires
        config.valid(),
        SenderView::fresh(capacity, isn, config).all_written(actions).len() + 2 <= u64::MAX,
        forall|i: int|
            0 <= i < SenderView::fresh(capacity, isn, config).all_written(actions).len() ==> (
            #[trigger] SenderView::fresh(capacity, isn, config).all_written(actions)[i]) == source(
                i,
            ),
    ensures
        ({
            let fresh = SenderView::fresh(capacity, isn, config);
            let sender = fresh.after_all(actions);
            let sent = fresh.all_sent(actions);
            &&& sender.valid()
            &&& accounted(sender)
            &&& sender.isn == isn
            &&& sends_stream(sender, source)
            &&& sender.outbound.pushed() == fresh.all_written(actions).len()
            &&& sender.outbound.popped == fresh.all_payload(actions).len()
            &&& fresh.all_payload(actions) + sender.outbound.buffered == fresh.all_written(actions)
            &&& forall|i: int|
                0 <= i < sent.len() ==> tells_between(
                    #[trigger] sent[i],
                    0,
                    sender.snd_nxt as int,
                    isn,
                    source,
                )
        }),
    decreases actions.len(),
{
    let fresh = SenderView::fresh(capacity, isn, config);
    if actions.len() == 0 {
        assert(fresh.all_payload(actions) + fresh.outbound.buffered =~= fresh.all_written(actions));
    } else {
        let before = actions.drop_last();
        let written = fresh.all_written(actions);
        assert forall|i: int| 0 <= i < fresh.all_written(before).len() implies (
        #[trigger] fresh.all_written(before)[i]) == source(i) by {
            assert(written[i] == fresh.all_written(before)[i]);
        }
        law_every_history_sends_the_stream(capacity, isn, config, before, source);
        assert(sends_history(fresh, before, source));
        match actions.last() {
            SenderAction::Write(_) => {
                lemma_sends_write(fresh, actions, source);
            },
            SenderAction::Push => {
                lemma_sends_push(fresh, actions, source);
            },
            _ => {
                lemma_sends_other(fresh, actions, source);
            },
        }
    }
}

/// The window that the receiver announces is the window from then on, for every
/// size and in every message but a reset or one that acknowledges what was never
/// sent.
pub proof fn law_announced_window_counts(
    sender: SenderView,
    message: TcpReceiverMessage,
    acknowledged: u64,
)
    requires
        sender.valid(),
        !message.rst,
        message.ackno is None || message.ackno == Some(wrapped(acknowledged as int, sender.isn)),
        acknowledged <= sender.snd_nxt,
        sender.snd_nxt - acknowledged < 0x8000_0000,
    ensures
        sender.after_receive(message).window == message.window_size,
{
    law_unwrap_of_wrap(acknowledged, sender.isn, sender.snd_nxt as u64);
}

/// What was written is sent in full once the receiver announces a window that it
/// fits into and has acknowledged everything before.
pub proof fn law_open_window_is_used(sender: SenderView, message: TcpReceiverMessage)
    requires
        sender.valid(),
        sender.syn_sent,
        !message.rst,
        message.ackno == Some(wrapped(sender.snd_nxt as int, sender.isn)),
        sender.outbound.buffered.len() <= message.window_size,
        sender.snd_nxt + 65535 <= u64::MAX,
    ensures
        ({
            let heard = sender.after_receive(message);
            let (messages, after) = heard.fill();
            &&& heard.window == message.window_size
            &&& heard.snd_una == sender.snd_nxt
            &&& heard.outstanding.len() == 0
            &&& joined_payloads(messages) == sender.outbound.buffered
            &&& after.outbound.buffered.len() == 0
            &&& sender.outbound.buffered.len() > 0 ==> after.timer.running && after.timer.mode
                == Some(TimerMode::Retransmission)
        }),
{
    let heard = sender.after_receive(message);
    let after = heard.fill().1;
    law_unwrap_of_wrap(sender.snd_nxt as u64, sender.isn, sender.snd_nxt as u64);
    law_receive(sender, message);
    law_finished_when_all_is_acknowledged(heard);
    law_fill_sends_what_fits(heard);
    law_fill_sends_the_stream(heard);
    law_finished_when_all_is_acknowledged(after);
    let bytes = joined_payloads(heard.fill().0);
    lemma_fill_keeps(heard);
    lemma_all_is_sent(heard);
    assert(heard.outbound.buffered.take(heard.outbound.buffered.len() as int)
        =~= heard.outbound.buffered);
}

/// Filling the window leaves alone what it does not send.
proof fn lemma_fill_keeps(sender: SenderView)
    ensures
        ({
            let after = sender.fill().1;
            &&& after.isn == sender.isn
            &&& after.snd_una == sender.snd_una
            &&& after.window == sender.window
            &&& after.config == sender.config
            &&& after.current_rto_ms == sender.current_rto_ms
            &&& after.persist_interval_ms == sender.persist_interval_ms
            &&& after.consecutive_retransmissions == sender.consecutive_retransmissions
            &&& after.outbound.capacity == sender.outbound.capacity
            &&& after.outbound.closed == sender.outbound.closed
            &&& after.outbound.error == sender.outbound.error
            &&& sender.outstanding.len() > 0 ==> after.timer == sender.timer
            &&& sender.outstanding.len() == 0 && sender.fill().0.len() == 0 ==> after.timer
                == sender.timer
            &&& sender.outstanding.len() == 0 && sender.fill().0.len() > 0 ==> after.timer
                == sender.after_next_message().timer
            &&& sender.fin_sent ==> after.fin_sent
            &&& sender.syn_sent || sender.fill().0.len() > 0 ==> after.syn_sent
            &&& sender.fill().0.len() == 0 ==> after == sender
        }),
    decreases sender.space(),
{
    if sender.space() > 0 && sender.next_message().sequence_length() > 0 {
        lemma_fill_keeps(sender.after_next_message());
        lemma_fill_step(sender);
    }
}

/// Where everything that waits fits into the window, nothing is left.
proof fn lemma_all_is_sent(sender: SenderView)
    requires
        sender.valid(),
        sender.snd_nxt + sender.sendable() <= u64::MAX,
        sender.outbound.buffered.len() + flag(!sender.syn_sent) <= sender.space(),
    ensures
        sender.fill().1.outbound.buffered.len() == 0,
    decreases sender.space(),
{
    if sender.space() > 0 && sender.next_message().sequence_length() > 0 {
        lemma_after_next_message(sender);
        lemma_all_is_sent(sender.after_next_message());
    }
}

/// What is sent when the window is filled. A closed window counts as one of one
/// sequence number. SYN, bytes and FIN are sent as far as the window allows, and
/// each takes one sequence number. The SYN comes first and only where it was not
/// sent, and the FIN last, with the last byte of a closed stream or behind it. Each
/// message carries as many bytes as one may, but for the last, and begins with the
/// sequence number at which the one before ends. A failed stream resets.
#[verifier::rlimit(30)]
pub proof fn law_messages_fill_the_window(sender: SenderView)
    requires
        sender.valid(),
        sender.snd_una + 65535 <= u64::MAX,
    ensures
        ({
            let (messages, after) = sender.fill();
            let window = if sender.window == 0 {
                1
            } else {
                sender.window as int
            };
            let room = if sender.snd_nxt - sender.snd_una < window {
                window - (sender.snd_nxt - sender.snd_una)
            } else {
                0
            };
            let waiting = (if sender.syn_sent {
                0int
            } else {
                1
            }) + sender.outbound.buffered.len() + (if sender.outbound.closed && !sender.fin_sent {
                1int
            } else {
                0
            });
            &&& after.snd_nxt == sender.snd_nxt + if waiting <= room {
                waiting
            } else {
                room
            }
            &&& messages.len() > 0 <==> waiting > 0 && room > 0
            &&& forall|i: int|
                0 <= i < messages.len() ==> {
                    let message = #[trigger] messages[i];
                    &&& message.syn <==> i == 0 && !sender.syn_sent
                    &&& message.fin ==> i == messages.len() - 1
                    &&& i < messages.len() - 1 ==> message.payload.len()
                        == sender.config.max_payload_size
                    &&& message.payload.len() <= sender.config.max_payload_size
                    &&& message.rst == sender.outbound.error
                }
            &&& messages.len() > 0 ==> {
                &&& messages[0].seqno == wrapped(sender.snd_nxt as int, sender.isn)
                &&& messages.last().fin <==> after.fin_sent && !sender.fin_sent
            }
            &&& after.fin_sent <==> sender.fin_sent || sender.outbound.closed && waiting > 0
                && waiting <= room
            &&& after.syn_sent <==> sender.syn_sent || room > 0
            &&& joined_payloads(messages) + after.outbound.buffered == sender.outbound.buffered
        }),
    decreases sender.space(),
{
    let (messages, after) = sender.fill();
    law_fill_sends_what_fits(sender);
    law_fill_sends_the_stream(sender);
    lemma_fill_keeps(sender);
    assert(joined_payloads(messages) + after.outbound.buffered =~= sender.outbound.buffered);
    if sender.space() > 0 && sender.next_message().sequence_length() > 0 {
        let next = sender.after_next_message();
        let rest = next.fill().0;
        lemma_after_next_message(sender);
        lemma_fill_step(sender);
        law_messages_fill_the_window(next);
        assert(messages.len() == rest.len() + 1);
        assert forall|i: int| 0 <= i < messages.len() implies {
            let message = #[trigger] messages[i];
            &&& message.syn <==> i == 0 && !sender.syn_sent
            &&& message.fin ==> i == messages.len() - 1
            &&& i < messages.len() - 1 ==> message.payload.len() == sender.config.max_payload_size
            &&& message.payload.len() <= sender.config.max_payload_size
            &&& message.rst == sender.outbound.error
        } by {
            if i > 0 {
                assert(messages[i] == rest[i - 1]);
            }
        }
        if rest.len() > 0 {
            assert(messages.last() == rest.last());
        }
    }
}

/// What an acknowledgement does, of anything that was sent and not acknowledged
/// before: everything before the number acknowledged is no longer outstanding,
/// what is left is what was outstanding behind it, the timeouts and the count of
/// retransmissions begin anew, and the timer does so too, or stops where nothing
/// is left.
pub proof fn law_new_acknowledgement(
    sender: SenderView,
    message: TcpReceiverMessage,
    acknowledged: u64,
    number: int,
)
    requires
        sender.valid(),
        !message.rst,
        message.ackno == Some(wrapped(acknowledged as int, sender.isn)),
        sender.snd_una < acknowledged <= sender.snd_nxt,
    ensures
        ({
            let after = sender.after_receive(message);
            &&& after.snd_una == acknowledged
            &&& after.snd_nxt == sender.snd_nxt
            &&& after.window == message.window_size
            &&& after.current_rto_ms == sender.config.initial_rto_ms
            &&& after.persist_interval_ms == sender.config.initial_rto_ms
            &&& after.consecutive_retransmissions == 0
            &&& after.outstanding.len() == 0 <==> acknowledged == sender.snd_nxt
            &&& item_at(after.outstanding, number) == if number < acknowledged {
                None
            } else {
                item_at(sender.outstanding, number)
            }
            &&& after.timer.running <==> acknowledged < sender.snd_nxt
            &&& after.timer.elapsed_ms == 0
            &&& after.timer.running ==> after.timer.timeout_ms == sender.config.initial_rto_ms
            &&& after.timer.running ==> after.timer.mode == Some(
                if message.window_size == 0 {
                    TimerMode::Persist
                } else {
                    TimerMode::Retransmission
                },
            )
            &&& after.outbound == sender.outbound
            &&& after.isn == sender.isn
            &&& after.syn_sent == sender.syn_sent
            &&& after.fin_sent == sender.fin_sent
            &&& after.config == sender.config
        }),
{
    let after = sender.after_receive(message);
    law_unwrap_of_wrap(acknowledged, sender.isn, sender.snd_nxt as u64);
    law_receive(sender, message);
    law_finished_when_all_is_acknowledged(after);
    law_ack_keeps_the_rest(
        sender.outstanding,
        sender.snd_una as int,
        acknowledged as int,
        sender.snd_nxt as int,
        sender.isn,
        number,
    );
}

/// What a message does that acknowledges nothing new: it changes the window, and
/// where that is another one the timer starts anew for it, if it runs. Nothing
/// else changes.
pub proof fn law_old_acknowledgement(
    sender: SenderView,
    message: TcpReceiverMessage,
    acknowledged: u64,
)
    requires
        sender.valid(),
        !message.rst,
        message.ackno is None || message.ackno == Some(wrapped(acknowledged as int, sender.isn)),
        acknowledged <= sender.snd_una,
        sender.snd_nxt - acknowledged < 0x8000_0000,
    ensures
        ({
            let after = sender.after_receive(message);
            &&& after == (SenderView {
                window: message.window_size as nat,
                timer: after.timer,
                ..sender
            })
            &&& message.window_size == sender.window ==> after.timer == sender.timer
            &&& after.timer.running == sender.timer.running
            &&& message.window_size != sender.window && sender.timer.running ==> {
                &&& after.timer.elapsed_ms == 0
                &&& message.window_size == 0 ==> after.timer.mode == Some(TimerMode::Persist)
                    && after.timer.timeout_ms == sender.persist_interval_ms
                &&& message.window_size > 0 ==> after.timer.mode == Some(TimerMode::Retransmission)
                    && after.timer.timeout_ms == sender.current_rto_ms
            }
            &&& !sender.timer.running ==> after.timer == sender.timer
        }),
{
    law_unwrap_of_wrap(acknowledged, sender.isn, sender.snd_nxt as u64);
}

/// A message that acknowledges what was never sent is ignored.
pub proof fn law_impossible_acknowledgement(
    sender: SenderView,
    message: TcpReceiverMessage,
    acknowledged: u64,
)
    requires
        sender.valid(),
        !message.rst,
        message.ackno == Some(wrapped(acknowledged as int, sender.isn)),
        sender.snd_nxt < acknowledged,
        acknowledged - sender.snd_nxt < 0x8000_0000,
    ensures
        sender.after_receive(message) == sender,
{
    law_unwrap_of_wrap(acknowledged, sender.isn, sender.snd_nxt as u64);
}

/// A reset fails the stream to be sent and gives up everything that is
/// outstanding; nothing is sent again.
pub proof fn law_reset_gives_up(sender: SenderView, message: TcpReceiverMessage)
    requires
        message.rst,
    ensures
        ({
            let after = sender.after_receive(message);
            &&& after.outbound.error
            &&& after.outbound.buffered == sender.outbound.buffered
            &&& after.outbound.closed == sender.outbound.closed
            &&& after.outstanding.len() == 0
            &&& after.snd_una == sender.snd_nxt
            &&& after.snd_nxt == sender.snd_nxt
            &&& !after.timer.running
            &&& after.window == sender.window
            &&& after.syn_sent == sender.syn_sent
            &&& after.fin_sent == sender.fin_sent
        }),
{
}

/// What time does. While the timer does not run, nothing. Before it runs out it
/// counts the time, and nothing else changes. When it runs out, the oldest
/// outstanding segment is sent again and the timer starts anew with twice its
/// interval, up to the longest one; while the window is closed that is the
/// interval for probing, and nothing is counted, otherwise it is the
/// retransmission timeout, and the retransmission is counted.
pub proof fn law_time_passes(sender: SenderView, ms: u64)
    requires
        sender.valid(),
    ensures
        ({
            let after = sender.after_tick(ms);
            let again = sender.retransmission(ms);
            let due = sender.timer.running && sender.timer.elapsed_ms + ms
                >= sender.timer.timeout_ms;
            let doubled = if 2 * sender.timer.timeout_ms <= sender.config.max_timer_interval_ms {
                2 * sender.timer.timeout_ms
            } else {
                sender.config.max_timer_interval_ms as int
            };
            &&& !sender.timer.running ==> again is None && after == sender
            &&& sender.timer.running && !due ==> again is None && after == (SenderView {
                timer: Timer {
                    elapsed_ms: (sender.timer.elapsed_ms + ms) as u64,
                    ..sender.timer
                },
                ..sender
            })
            &&& due ==> {
                &&& again == Some(sender.outstanding[0].message)
                &&& after.timer.running
                &&& after.timer.elapsed_ms == 0
                &&& after.timer.timeout_ms == doubled
                &&& after.timer.mode == sender.timer.mode
                &&& after == (SenderView {
                    timer: after.timer,
                    current_rto_ms: after.current_rto_ms,
                    persist_interval_ms: after.persist_interval_ms,
                    consecutive_retransmissions: after.consecutive_retransmissions,
                    ..sender
                })
            }
            &&& due && sender.window == 0 ==> {
                &&& after.persist_interval_ms == doubled
                &&& after.current_rto_ms == sender.current_rto_ms
                &&& after.consecutive_retransmissions == sender.consecutive_retransmissions
            }
            &&& due && sender.window > 0 ==> {
                &&& after.current_rto_ms == doubled
                &&& after.persist_interval_ms == sender.persist_interval_ms
                &&& sender.consecutive_retransmissions < u64::MAX
                    ==> after.consecutive_retransmissions == sender.consecutive_retransmissions + 1
                &&& sender.consecutive_retransmissions == u64::MAX
                    ==> after.consecutive_retransmissions == u64::MAX
            }
        }),
{
    law_tick(sender, ms);
}

/// When the timer runs: exactly while something is outstanding, to probe while the
/// window is closed and to retransmit otherwise, each with its own interval.
pub proof fn law_when_the_timer_runs(sender: SenderView)
    requires
        sender.valid(),
    ensures
        sender.timer.running <==> sender.snd_una < sender.snd_nxt,
        sender.timer.running && sender.window == 0 ==> sender.timer.mode == Some(TimerMode::Persist)
            && sender.timer.timeout_ms == sender.persist_interval_ms,
        sender.timer.running && sender.window > 0 ==> sender.timer.mode == Some(
            TimerMode::Retransmission,
        ) && sender.timer.timeout_ms == sender.current_rto_ms,
        !sender.timer.running ==> sender.timer.mode is None,
{
    law_finished_when_all_is_acknowledged(sender);
}

/// The timer starts with the first segment that is outstanding, and goes on with
/// those that are sent behind others. Filling the window changes neither the
/// intervals nor anything that the receiver said.
pub proof fn law_timer_starts_with_the_first_segment(sender: SenderView)
    requires
        sender.valid(),
        sender.snd_una + 65535 <= u64::MAX,
    ensures
        ({
            let (messages, after) = sender.fill();
            &&& after.valid()
            &&& messages.len() == 0 ==> after == sender
            &&& sender.snd_una < sender.snd_nxt ==> after.timer == sender.timer
            &&& sender.snd_una == sender.snd_nxt && messages.len() > 0 ==> after.timer.running
                && after.timer.elapsed_ms == 0
            &&& after.snd_una == sender.snd_una
            &&& after.window == sender.window
            &&& after.current_rto_ms == sender.current_rto_ms
            &&& after.persist_interval_ms == sender.persist_interval_ms
            &&& after.consecutive_retransmissions == sender.consecutive_retransmissions
            &&& after.isn == sender.isn
            &&& after.config == sender.config
            &&& after.outbound.closed == sender.outbound.closed
            &&& after.outbound.error == sender.outbound.error
        }),
{
    law_fill_sends_what_fits(sender);
    law_finished_when_all_is_acknowledged(sender);
    lemma_fill_keeps(sender);
}

/// What is outstanding are the messages as they were sent, one behind the other:
/// each begins at the absolute number at which the one before ends, the first at
/// the oldest number that is not acknowledged, and the last ends where the next
/// message begins.
pub proof fn law_outstanding_is_what_was_sent(sender: SenderView, i: int)
    requires
        sender.valid(),
        0 <= i < sender.outstanding.len(),
    ensures
        ({
            let segment = sender.outstanding[i];
            let end = segment.start + (if segment.message.syn {
                1int
            } else {
                0
            }) + segment.message.payload.len() + (if segment.message.fin {
                1int
            } else {
                0
            });
            &&& segment.message.seqno == wrapped(segment.start, sender.isn)
            &&& segment.start < end
            &&& i == 0 ==> segment.start == sender.snd_una
            &&& i == sender.outstanding.len() - 1 ==> end == sender.snd_nxt
            &&& i < sender.outstanding.len() - 1 ==> end == sender.outstanding[i + 1].start
            &&& segment.message.payload.len() <= sender.config.max_payload_size
        }),
{
    if i < sender.outstanding.len() - 1 {
        assert(sender.outstanding[i].end() == sender.outstanding[i + 1].start);
    }
}

/// A segment of which the first sequence numbers are acknowledged keeps the
/// others: it begins behind them, without the SYN, and with the same end, flags
/// and bytes.
pub proof fn law_trimmed_segment_keeps_its_end(
    segment: SegmentView,
    acknowledged: nat,
    isn: Wrap32,
)
    requires
        0 < acknowledged < segment.message.sequence_length(),
    ensures
        ({
            let left = segment.without_prefix(acknowledged, isn);
            let syn = if segment.message.syn {
                1int
            } else {
                0
            };
            &&& left.start == segment.start + acknowledged
            &&& left.message.seqno == wrapped(left.start, isn)
            &&& !left.message.syn
            &&& left.message.fin == segment.message.fin
            &&& left.message.rst == segment.message.rst
            &&& acknowledged - syn <= segment.message.payload.len() ==> left.message.payload
                == segment.message.payload.skip(acknowledged - syn)
        }),
{
}

/// A message that occupies no sequence number stands at the next one to be sent,
/// and resets where the stream failed.
pub proof fn law_empty_message(sender: SenderView)
    ensures
        ({
            let message = sender.empty_message();
            &&& message.seqno == wrapped(sender.snd_nxt as int, sender.isn)
            &&& !message.syn
            &&& !message.fin
            &&& message.payload.len() == 0
            &&& message.rst == sender.outbound.error
        }),
{
}

/// A new sender has sent nothing, counts from the given number, and sends into a
/// window of one sequence number until it hears of another.
pub proof fn law_new_sender(capacity: nat, isn: Wrap32, config: TcpSenderConfig)
    ensures
        ({
            let sender = SenderView::fresh(capacity, isn, config);
            &&& sender.outbound == StreamView::fresh(capacity)
            &&& sender.isn == isn
            &&& sender.config == config
            &&& sender.snd_una == 0
            &&& sender.snd_nxt == 0
            &&& sender.window == 1
            &&& sender.outstanding.len() == 0
            &&& !sender.syn_sent
            &&& !sender.fin_sent
            &&& sender.current_rto_ms == config.initial_rto_ms
            &&& sender.persist_interval_ms == config.initial_rto_ms
            &&& !sender.timer.running
            &&& sender.consecutive_retransmissions == 0
        }),
{
}

/// What an acknowledgement leaves are the last outstanding segments. Those behind
/// the first are as they were; the first begins at the number acknowledged, and
/// has lost what was before it.
pub proof fn law_acknowledgement_leaves_the_last_segments(
    sender: SenderView,
    message: TcpReceiverMessage,
    acknowledged: u64,
    i: int,
)
    requires
        sender.valid(),
        !message.rst,
        message.ackno == Some(wrapped(acknowledged as int, sender.isn)),
        sender.snd_una < acknowledged < sender.snd_nxt,
        0 <= i < sender.after_receive(message).outstanding.len(),
    ensures
        ({
            let before = sender.outstanding;
            let after = sender.after_receive(message).outstanding;
            let gone = before.len() - after.len();
            &&& gone >= 0
            &&& i > 0 ==> after[i] == before[gone + i]
            &&& after[0].start == acknowledged
            &&& before[gone].start <= acknowledged
            &&& before[gone].start == acknowledged ==> after[0] == before[gone]
            &&& before[gone].start < acknowledged ==> after[0] == before[gone].without_prefix(
                (acknowledged - before[gone].start) as nat,
                sender.isn,
            )
        }),
{
    let after = sender.after_receive(message);
    law_unwrap_of_wrap(acknowledged, sender.isn, sender.snd_nxt as u64);
    law_receive(sender, message);
    lemma_last_segments(
        sender.outstanding,
        sender.snd_una as int,
        acknowledged as int,
        sender.snd_nxt as int,
        sender.isn,
        i,
    );
    assert(after.outstanding[0].start == acknowledged);
}

proof fn lemma_last_segments(
    segments: Seq<SegmentView>,
    from: int,
    una: int,
    to: int,
    isn: Wrap32,
    i: int,
)
    requires
        chained(segments, from, to, isn),
        0 <= i < unacknowledged(segments, una, isn).len(),
    ensures
        ({
            let after = unacknowledged(segments, una, isn);
            let gone = segments.len() - after.len();
            &&& gone >= 0
            &&& i > 0 ==> after[i] == segments[gone + i]
            &&& segments[gone].start >= una ==> after[0] == segments[gone]
            &&& segments[gone].start < una ==> after[0] == segments[gone].without_prefix(
                (una - segments[gone].start) as nat,
                isn,
            )
        }),
    decreases segments.len(),
{
    if segments.len() > 0 && segments[0].end() <= una {
        lemma_chained_rest(segments, from, to, isn);
        lemma_last_segments(segments.drop_first(), segments[0].end(), una, to, isn, i);
    }
}

/// What any acknowledgement does, by the number that it stands for next to what
/// was sent last: beyond that it is ignored, with its window; otherwise its window
/// counts, and it acknowledges everything before it, or nothing new.
pub proof fn law_every_acknowledgement(sender: SenderView, message: TcpReceiverMessage)
    requires
        sender.valid(),
        !message.rst,
        message.ackno is Some,
    ensures
        ({
            let after = sender.after_receive(message);
            let una = unwrapped(message.ackno->Some_0, sender.isn, sender.snd_nxt as u64);
            &&& una > sender.snd_nxt ==> after == sender
            &&& una <= sender.snd_nxt ==> after.window == message.window_size
            &&& sender.snd_una < una <= sender.snd_nxt ==> after.snd_una == una
                && after.consecutive_retransmissions == 0 && after.current_rto_ms
                == sender.config.initial_rto_ms
            &&& una <= sender.snd_una ==> after == (SenderView {
                window: message.window_size as nat,
                timer: after.timer,
                ..sender
            })
        }),
{
}

/// Which parameters a sender can have.
pub proof fn law_which_parameters_are_valid(config: TcpSenderConfig)
    ensures
        config.valid() <==> 0 < config.initial_rto_ms <= config.max_timer_interval_ms
            && config.max_payload_size > 0,
{
}

/// What messages hold is told one by one.
pub proof fn law_messages_one_by_one(messages: Seq<TcpSenderMessage>, i: int)
    requires
        0 <= i < messages.len(),
    ensures
        message_views(messages).len() == messages.len(),
        message_views(messages)[i] == messages[i]@,
{
}

/// Payloads are put one behind the other, in order.
pub proof fn law_payloads_in_order(first: SenderMessageView, rest: Seq<SenderMessageView>)
    ensures
        joined_payloads(Seq::empty()) == Seq::<u8>::empty(),
        joined_payloads(seq![first] + rest) == first.payload + joined_payloads(rest),
{
    assert((seq![first] + rest).drop_first() =~= rest);
}

} // verus!
