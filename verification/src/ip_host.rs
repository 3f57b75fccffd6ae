//! A host with one IPv4 address, which answers pings and holds one TCP
//! connection.
use crate::buffer::contents;
use crate::checksum::{lemma_smaller_bytes, word_sum};
use crate::icmp::{
    echo_reply, icmp_bytes, icmp_bytes_with, icmp_parsed, icmp_rejection, IcmpMessage, IcmpView,
};
use crate::ipv4_datagram::{
    ipv4_parsed, ipv4_rejection, plain_header, same_address, DatagramView, Ipv4Datagram,
    IPV4_PROTOCOL_ICMP, IPV4_PROTOCOL_TCP,
};
use crate::network_interface::datagram_views;
use crate::tcp_connection::{
    fresh_connection, segments_of, ConnectionView, TcpConnection, TcpConnectionConfig,
};
use crate::tcp_segment::{segment_bytes, tcp_parsed, tcp_rejection, TcpSegment, TcpSegmentView};
use crate::tcp_sender::{law_fill_sends_the_stream, TcpSenderConfig};
use crate::wrapping_integers::Wrap32;
use bytes::Bytes;
use vstd::prelude::*;
use vstd::string::StringExecFns;

verus! {

/// The parameters of a host.
#[derive(Debug, Clone, Copy, PartialEq, Eq)]
pub struct IpHostConfig {
    pub local_ip: [u8; 4],
    pub peer_ip: [u8; 4],
    pub local_port: u16,
    pub peer_port: u16,
    pub sender_capacity: usize,
    pub receiver_capacity: usize,
    pub isn: Wrap32,
    pub sender_config: TcpSenderConfig,
}

impl IpHostConfig {
    /// The parameters of the connection.
    pub open spec fn connection_config(self) -> TcpConnectionConfig {
        TcpConnectionConfig {
            local_port: self.local_port,
            peer_port: self.peer_port,
            sender_capacity: self.sender_capacity,
            receiver_capacity: self.receiver_capacity,
            isn: self.isn,
            sender_config: self.sender_config,
        }
    }

    /// The parameters of a host to try things out with.
    pub fn tcp_demo(
        local_ip: [u8; 4],
        peer_ip: [u8; 4],
        local_port: u16,
        peer_port: u16,
        isn: Wrap32,
    ) -> (config: Self)
        ensures
            config == (IpHostConfig {
                local_ip,
                peer_ip,
                local_port,
                peer_port,
                sender_capacity: 65536,
                receiver_capacity: 65536,
                isn,
                sender_config: TcpSenderConfig {
                    initial_rto_ms: 1_000,
                    max_timer_interval_ms: 60_000,
                    max_payload_size: 1_000,
                },
            }),
            config.sender_config.valid(),
    {
        Self {
            local_ip,
            peer_ip,
            local_port,
            peer_port,
            sender_capacity: 64 * 1024,
            receiver_capacity: 64 * 1024,
            isn,
            sender_config: TcpSenderConfig {
                initial_rto_ms: 1_000,
                max_timer_interval_ms: 60_000,
                max_payload_size: 1_000,
            },
        }
    }
}

/// What a host tells its surroundings.
#[derive(Debug, PartialEq, Eq)]
pub enum IpHostEvent {
    IncomingTcp(TcpSegment),
    OutgoingTcp(TcpSegment),
    TcpPayload(Bytes),
    IcmpEchoRequest {
        src_ip: [u8; 4],
        dst_ip: [u8; 4],
        identifier: u16,
        sequence_number: u16,
        payload_len: usize,
    },
    IcmpEchoReply {
        src_ip: [u8; 4],
        dst_ip: [u8; 4],
        identifier: u16,
        sequence_number: u16,
        payload_len: usize,
    },
    IgnoredMalformedIpv4(String),
    IgnoredMalformedTcp(String),
    IgnoredMalformedIcmp(String),
}

/// What an [`IpHostEvent`] says.
pub enum EventView {
    IncomingTcp(TcpSegmentView),
    OutgoingTcp(TcpSegmentView),
    TcpPayload(Seq<u8>),
    EchoRequest {
        src_ip: [u8; 4],
        dst_ip: [u8; 4],
        identifier: u16,
        sequence_number: u16,
        payload_len: nat,
    },
    EchoReply {
        src_ip: [u8; 4],
        dst_ip: [u8; 4],
        identifier: u16,
        sequence_number: u16,
        payload_len: nat,
    },
    MalformedIpv4(Seq<char>),
    MalformedTcp(Seq<char>),
    MalformedEcho(Seq<char>),
}

/// A length as a number without bound.
pub open spec fn unbounded(len: usize) -> nat {
    len as nat
}

impl View for IpHostEvent {
    type V = EventView;

    open spec fn view(&self) -> EventView {
        match *self {
            IpHostEvent::IncomingTcp(segment) => EventView::IncomingTcp(segment@),
            IpHostEvent::OutgoingTcp(segment) => EventView::OutgoingTcp(segment@),
            IpHostEvent::TcpPayload(payload) => EventView::TcpPayload(contents(payload)),
            IpHostEvent::IcmpEchoRequest {
                src_ip,
                dst_ip,
                identifier,
                sequence_number,
                payload_len,
            } => EventView::EchoRequest {
                src_ip,
                dst_ip,
                identifier,
                sequence_number,
                payload_len: unbounded(payload_len),
            },
            IpHostEvent::IcmpEchoReply {
                src_ip,
                dst_ip,
                identifier,
                sequence_number,
                payload_len,
            } => EventView::EchoReply {
                src_ip,
                dst_ip,
                identifier,
                sequence_number,
                payload_len: unbounded(payload_len),
            },
            IpHostEvent::IgnoredMalformedIpv4(reason) => EventView::MalformedIpv4(reason@),
            IpHostEvent::IgnoredMalformedTcp(reason) => EventView::MalformedTcp(reason@),
            IpHostEvent::IgnoredMalformedIcmp(reason) => EventView::MalformedEcho(reason@),
        }
    }
}

impl Clone for IpHostEvent {
    fn clone(&self) -> (copy: Self)
        ensures
            copy@ == self@,
    {
        match self {
            Self::IncomingTcp(segment) => Self::IncomingTcp(segment.clone()),
            Self::OutgoingTcp(segment) => Self::OutgoingTcp(segment.clone()),
            Self::TcpPayload(payload) => Self::TcpPayload(payload.clone()),
            Self::IcmpEchoRequest {
                src_ip,
                dst_ip,
                identifier,
                sequence_number,
                payload_len,
            } => Self::IcmpEchoRequest {
                src_ip: *src_ip,
                dst_ip: *dst_ip,
                identifier: *identifier,
                sequence_number: *sequence_number,
                payload_len: *payload_len,
            },
            Self::IcmpEchoReply {
                src_ip,
                dst_ip,
                identifier,
                sequence_number,
                payload_len,
            } => Self::IcmpEchoReply {
                src_ip: *src_ip,
                dst_ip: *dst_ip,
                identifier: *identifier,
                sequence_number: *sequence_number,
                payload_len: *payload_len,
            },
            Self::IgnoredMalformedIpv4(reason) => Self::IgnoredMalformedIpv4(reason.clone()),
            Self::IgnoredMalformedTcp(reason) => Self::IgnoredMalformedTcp(reason.clone()),
            Self::IgnoredMalformedIcmp(reason) => Self::IgnoredMalformedIcmp(reason.clone()),
        }
    }
}

/// What each of these events says.
pub open spec fn event_views(events: Seq<IpHostEvent>) -> Seq<EventView> {
    Seq::new(events.len(), |i: int| events[i]@)
}

/// The datagrams that a host sends, and what there is to tell.
#[derive(Debug, PartialEq, Eq)]
pub struct IpHostOutput {
    pub datagrams: Vec<Ipv4Datagram>,
    pub events: Vec<IpHostEvent>,
}

/// What an [`IpHostOutput`] holds.
#[verifier::ext_equal]
pub struct OutputView {
    pub datagrams: Seq<DatagramView>,
    pub events: Seq<EventView>,
}

impl OutputView {
    /// Nothing to send and nothing to tell.
    pub open spec fn nothing() -> OutputView {
        OutputView { datagrams: Seq::empty(), events: Seq::empty() }
    }

    /// Nothing to send and one thing to tell.
    pub open spec fn telling(event: EventView) -> OutputView {
        OutputView { datagrams: Seq::empty(), events: seq![event] }
    }

    /// One output behind another.
    pub open spec fn then_also(self, other: OutputView) -> OutputView {
        OutputView {
            datagrams: self.datagrams + other.datagrams,
            events: self.events + other.events,
        }
    }
}

impl View for IpHostOutput {
    type V = OutputView;

    open spec fn view(&self) -> OutputView {
        OutputView {
            datagrams: datagram_views(self.datagrams@),
            events: event_views(self.events@),
        }
    }
}

impl Clone for IpHostOutput {
    fn clone(&self) -> (copy: Self)
        ensures
            copy@ == self@,
    {
        let mut copy = Self::default();
        let mut index: usize = 0;
        while index < self.datagrams.len()
            invariant
                index <= self.datagrams@.len(),
                copy@.datagrams == self@.datagrams.take(index as int),
                copy@.events == Seq::<EventView>::empty(),
            decreases self.datagrams@.len() - index,
        {
            copy.add(self.datagrams[index].clone());
            index = index + 1;
            assert(self@.datagrams.take(index as int) =~= self@.datagrams.take(index - 1).push(
                self@.datagrams[index - 1],
            ));
        }
        assert(self@.datagrams.take(index as int) =~= self@.datagrams);
        let mut place: usize = 0;
        assert(self@.events.take(0) =~= Seq::empty());
        while place < self.events.len()
            invariant
                place <= self.events@.len(),
                copy@.datagrams == self@.datagrams,
                copy@.events == self@.events.take(place as int),
            decreases self.events@.len() - place,
        {
            copy.tell(self.events[place].clone());
            place = place + 1;
            assert(self@.events.take(place as int) =~= self@.events.take(place - 1).push(
                self@.events[place - 1],
            ));
        }
        assert(self@.events.take(place as int) =~= self@.events);
        copy
    }
}

impl Default for IpHostOutput {
    fn default() -> (output: Self)
        ensures
            output@ == OutputView::nothing(),
    {
        let output = Self { datagrams: Vec::new(), events: Vec::new() };
        assert(output@ =~= OutputView::nothing());
        output
    }
}

impl IpHostOutput {
    /// Puts another output behind this one.
    pub fn extend(&mut self, other: Self)
        ensures
            final(self)@ == old(self)@.then_also(other@),
    {
        let mut more = other;
        self.datagrams.append(&mut more.datagrams);
        self.events.append(&mut more.events);
        assert(self@ =~= old(self)@.then_also(other@));
    }

    fn tell(&mut self, event: IpHostEvent)
        ensures
            final(self)@ == (OutputView {
                events: old(self)@.events.push(event@),
                ..old(self)@
            }),
    {
        let ghost before = self@.events;
        let ghost said = event@;
        self.events.push(event);
        assert(self@.events =~= before.push(said));
    }

    fn add(&mut self, datagram: Ipv4Datagram)
        ensures
            final(self)@ == (OutputView {
                datagrams: old(self)@.datagrams.push(datagram@),
                ..old(self)@
            }),
    {
        let ghost before = self@.datagrams;
        let ghost said = datagram@;
        self.datagrams.push(datagram);
        assert(self@.datagrams =~= before.push(said));
    }

    /// One thing to tell.
    fn only(event: IpHostEvent) -> (output: Self)
        ensures
            output@ == OutputView::telling(event@),
    {
        let mut output = Self::default();
        let ghost said = event@;
        output.tell(event);
        assert(output@ =~= OutputView::telling(said));
        output
    }
}

/// Whether every segment is short enough to be sent.
pub open spec fn all_fit(segments: Seq<TcpSegmentView>) -> bool {
    forall|i: int| 0 <= i < segments.len() ==> (#[trigger] segments[i]).fits()
}

/// What a host is.
#[verifier::ext_equal]
pub struct HostView {
    pub config: IpHostConfig,
    pub connection: ConnectionView,
}

impl HostView {
    /// The output that sends segments to the peer.
    pub open spec fn sending(self, segments: Seq<TcpSegmentView>) -> OutputView {
        OutputView {
            datagrams: Seq::new(
                segments.len(),
                |i: int|
                    DatagramView {
                        header: plain_header(
                            self.config.local_ip,
                            self.config.peer_ip,
                            IPV4_PROTOCOL_TCP,
                        ),
                        payload: segment_bytes(
                            segments[i],
                            self.config.local_ip@,
                            self.config.peer_ip@,
                        ),
                    },
            ),
            events: Seq::new(segments.len(), |i: int| EventView::OutgoingTcp(segments[i])),
        }
    }

    /// The answer to an echo message: a request comes back, with its content,
    /// and everything else is passed over.
    pub open spec fn echo(self, src_ip: [u8; 4], dst_ip: [u8; 4], payload: Seq<u8>) -> OutputView {
        match icmp_rejection(payload) {
            Some(error) => OutputView::telling(EventView::MalformedEcho(error.text())),
            None => match echo_reply(icmp_parsed(payload)) {
                Some(reply) => OutputView {
                    datagrams: seq![
                        DatagramView {
                            header: plain_header(dst_ip, src_ip, IPV4_PROTOCOL_ICMP),
                            payload: icmp_bytes(reply),
                        },
                    ],
                    events: seq![
                        EventView::EchoRequest {
                            src_ip,
                            dst_ip,
                            identifier: reply.identifier,
                            sequence_number: reply.sequence_number,
                            payload_len: reply.payload.len(),
                        },
                        EventView::EchoReply {
                            src_ip: dst_ip,
                            dst_ip: src_ip,
                            identifier: reply.identifier,
                            sequence_number: reply.sequence_number,
                            payload_len: reply.payload.len(),
                        },
                    ],
                },
                None => OutputView::nothing(),
            },
        }
    }

    /// Whether a datagram is meant for this host and holds an echo message.
    pub open spec fn is_echo(self, datagram: DatagramView) -> bool {
        datagram.header.dst.0 == self.config.local_ip && datagram.header.protocol
            == IPV4_PROTOCOL_ICMP
    }

    /// Whether a datagram comes from the peer to this host and holds a segment.
    pub open spec fn is_tcp(self, datagram: DatagramView) -> bool {
        datagram.header.dst.0 == self.config.local_ip && datagram.header.src.0
            == self.config.peer_ip && datagram.header.protocol == IPV4_PROTOCOL_TCP
    }

    /// Why the segment in a datagram is none, if it is none.
    pub open spec fn segment_rejection(self, datagram: DatagramView) -> Option<
        crate::tcp_segment::TcpParseError,
    > {
        tcp_rejection(self.config.peer_ip@, self.config.local_ip@, datagram.payload)
    }

    /// The segment in a datagram that is meant for the connection.
    pub open spec fn delivered(self, datagram: DatagramView) -> Option<TcpSegmentView> {
        let segment = tcp_parsed(datagram.payload);
        if self.is_tcp(datagram) && self.segment_rejection(datagram) is None
            && segment.header.src_port == self.connection.peer_port && segment.header.dst_port
            == self.connection.local_port {
            Some(segment)
        } else {
            None
        }
    }

    /// What there is to tell of a segment that came.
    pub open spec fn arrival(self, segment: TcpSegmentView) -> OutputView {
        OutputView {
            datagrams: Seq::empty(),
            events: if segment.payload.len() > 0 {
                seq![EventView::IncomingTcp(segment), EventView::TcpPayload(segment.payload)]
            } else {
                seq![EventView::IncomingTcp(segment)]
            },
        }
    }

    /// The output that a datagram calls forth.
    pub open spec fn reaction(self, datagram: DatagramView) -> OutputView {
        if self.is_echo(datagram) {
            self.echo(datagram.header.src.0, datagram.header.dst.0, datagram.payload)
        } else if self.is_tcp(datagram) && self.segment_rejection(datagram) is Some {
            OutputView::telling(
                EventView::MalformedTcp(self.segment_rejection(datagram)->Some_0.text()),
            )
        } else {
            match self.delivered(datagram) {
                Some(segment) => self.arrival(segment).then_also(
                    self.sending(self.connection.answer(segment)),
                ),
                None => OutputView::nothing(),
            }
        }
    }

    /// The host once a datagram came.
    pub open spec fn after_datagram(self, datagram: DatagramView) -> HostView {
        match self.delivered(datagram) {
            Some(segment) => HostView {
                connection: self.connection.after_segment(segment),
                ..self
            },
            None => self,
        }
    }

    /// Whether the host can take a datagram in: the words of an echo message add
    /// up in 32 bits, a segment is no longer than its length can say, and so are
    /// the segments that answer it, for which sequence numbers are left.
    pub open spec fn can_take(self, datagram: DatagramView) -> bool {
        &&& self.is_echo(datagram) ==> datagram.payload.len() <= isize::MAX && word_sum(
            datagram.payload,
        ) <= u32::MAX
        &&& self.is_tcp(datagram) ==> datagram.payload.len() <= u16::MAX
        &&& self.delivered(datagram) matches Some(segment) ==> {
            &&& segment.header.rst || self.connection.with_segment(segment).can_fill()
            &&& all_fit(self.connection.answer(segment))
        }
    }

    /// Whether the host can do anything next that fits into its windows: enough
    /// sequence numbers are left, and no segment is too long for a datagram.
    pub open spec fn ready(self) -> bool {
        &&& self.connection.sender.snd_nxt + 0xffff <= u64::MAX
        &&& self.connection.sender.outbound.pushed() + self.connection.sender.outbound.capacity
            <= u64::MAX
        &&& self.connection.sender.config.max_payload_size <= 65495
    }
}

/// A host with one IPv4 address.
#[derive(Debug)]
pub struct IpHost {
    config: IpHostConfig,
    connection: TcpConnection,
}

impl View for IpHost {
    type V = HostView;

    closed spec fn view(&self) -> HostView {
        HostView { config: self.config, connection: self.connection@ }
    }
}

impl IpHost {
    pub closed spec fn wf(&self) -> bool {
        self.connection.wf()
    }

    pub proof fn lemma_wf(&self)
        requires
            self.wf(),
        ensures
            self@.connection.sender.valid(),
            self@.connection.receiver.reassembler.valid(),
    {
        self.connection.lemma_wf();
    }

    pub fn new(config: IpHostConfig) -> (host: Self)
        requires
            config.sender_config.valid(),
        ensures
            host.wf(),
            host@ == (HostView {
                config,
                connection: fresh_connection(config.connection_config()),
            }),
    {
        let connection = TcpConnection::new(
            TcpConnectionConfig::new(
                config.local_port,
                config.peer_port,
                config.sender_capacity,
                config.receiver_capacity,
                config.isn,
                config.sender_config,
            ),
        );
        Self { config, connection }
    }

    pub fn local_ip(&self) -> (ip: [u8; 4])
        ensures
            ip == self@.config.local_ip,
    {
        self.config.local_ip
    }

    pub fn peer_ip(&self) -> (ip: [u8; 4])
        ensures
            ip == self@.config.peer_ip,
    {
        self.config.peer_ip
    }

    pub fn local_port(&self) -> (port: u16)
        ensures
            port == self@.config.local_port,
    {
        self.config.local_port
    }

    pub fn peer_port(&self) -> (port: u16)
        ensures
            port == self@.config.peer_port,
    {
        self.config.peer_port
    }

    pub fn is_established(&self) -> (established: bool)
        ensures
            established == self@.connection.established(),
    {
        self.connection.is_established()
    }

    pub fn is_finished(&self) -> (finished: bool)
        ensures
            finished == (self@.connection.sender.fin_sent
                && self@.connection.sender.outstanding.len() == 0),
    {
        self.connection.is_finished()
    }

    /// Whether the host can do anything next that fits into its windows.
    pub fn is_ready(&self) -> (ready: bool)
        requires
            self.wf(),
        ensures
            ready == self@.ready(),
    {
        let sender = self.connection.sender();
        let outbound = sender.outbound();
        sender.snd_nxt() <= u64::MAX - 0xffff && outbound.bytes_pushed() <= u64::MAX
            - outbound.capacity() as u64 && sender.max_payload_size() <= 65495
    }

    /// Begins the connection.
    pub fn connect(&mut self) -> (output: IpHostOutput)
        requires
            old(self).wf(),
            old(self)@.connection.can_fill(),
            all_fit(old(self)@.connection.fill_segments()),
        ensures
            final(self).wf(),
            output@ == old(self)@.sending(old(self)@.connection.fill_segments()),
            final(self)@ == (HostView {
                connection: old(self)@.connection.filled(),
                ..old(self)@
            }),
    {
        let segments = self.connection.connect();
        self.wrap_tcp_segments(segments)
    }

    /// Writes to the connection, as much as fits.
    pub fn write(&mut self, data: Bytes) -> (result: (usize, IpHostOutput))
        requires
            old(self).wf(),
            old(self)@.connection.with_data(contents(data)).sender.outbound.pushed() <= u64::MAX,
            old(self)@.connection.with_data(contents(data)).can_fill(),
            all_fit(old(self)@.connection.with_data(contents(data)).fill_segments()),
        ensures
            final(self).wf(),
            result.0 == old(self)@.connection.sender.outbound.accepted(contents(data).len()),
            result.1@ == old(self)@.sending(
                old(self)@.connection.with_data(contents(data)).fill_segments(),
            ),
            final(self)@ == (HostView {
                connection: old(self)@.connection.with_data(contents(data)).filled(),
                ..old(self)@
            }),
    {
        let (accepted, segments) = self.connection.write(data);
        let output = self.wrap_tcp_segments(segments);
        (accepted, output)
    }

    /// Ends the stream that is sent.
    pub fn close(&mut self) -> (output: IpHostOutput)
        requires
            old(self).wf(),
            old(self)@.connection.with_end().can_fill(),
            all_fit(old(self)@.connection.with_end().fill_segments()),
        ensures
            final(self).wf(),
            output@ == old(self)@.sending(old(self)@.connection.with_end().fill_segments()),
            final(self)@ == (HostView {
                connection: old(self)@.connection.with_end().filled(),
                ..old(self)@
            }),
    {
        let segments = self.connection.close();
        self.wrap_tcp_segments(segments)
    }

    /// Lets time pass.
    pub fn tick(&mut self, elapsed_ms: u64) -> (output: IpHostOutput)
        requires
            old(self).wf(),
            all_fit(old(self)@.connection.tick_segments(elapsed_ms)),
        ensures
            final(self).wf(),
            output@ == old(self)@.sending(old(self)@.connection.tick_segments(elapsed_ms)),
            final(self)@ == (HostView {
                connection: ConnectionView {
                    sender: old(self)@.connection.sender.after_tick(elapsed_ms),
                    ..old(self)@.connection
                },
                ..old(self)@
            }),
    {
        let segments = self.connection.tick(elapsed_ms);
        self.wrap_tcp_segments(segments)
    }

    /// Takes in a packet.
    pub fn receive_ipv4_bytes(&mut self, packet: Bytes) -> (output: IpHostOutput)
        requires
            old(self).wf(),
            ipv4_rejection(contents(packet)) is None ==> old(self)@.can_take(
                ipv4_parsed(contents(packet)),
            ),
        ensures
            final(self).wf(),
            match ipv4_rejection(contents(packet)) {
                Some(error) => output@ == OutputView::telling(
                    EventView::MalformedIpv4(error.text()),
                ) && final(self)@ == old(self)@,
                None => output@ == old(self)@.reaction(ipv4_parsed(contents(packet)))
                    && final(self)@ == old(self)@.after_datagram(ipv4_parsed(contents(packet))),
            },
    {
        match Ipv4Datagram::parse_bytes(packet) {
            Ok(datagram) => self.receive_datagram(datagram),
            Err(error) => IpHostOutput::only(
                IpHostEvent::IgnoredMalformedIpv4(String::from_str(error.name())),
            ),
        }
    }

    /// Takes in a datagram.
    pub fn receive_datagram(&mut self, datagram: Ipv4Datagram) -> (output: IpHostOutput)
        requires
            old(self).wf(),
            old(self)@.can_take(datagram@),
        ensures
            final(self).wf(),
            output@ == old(self)@.reaction(datagram@),
            final(self)@ == old(self)@.after_datagram(datagram@),
    {
        let src_ip = datagram.header.src.octets();
        let dst_ip = datagram.header.dst.octets();
        if !same_address(dst_ip, self.config.local_ip) {
            return IpHostOutput::default();
        }
        if datagram.header.protocol == IPV4_PROTOCOL_ICMP {
            self.receive_icmp(src_ip, dst_ip, datagram.payload)
        } else if datagram.header.protocol == IPV4_PROTOCOL_TCP && same_address(
            src_ip,
            self.config.peer_ip,
        ) {
            self.receive_tcp(datagram)
        } else {
            IpHostOutput::default()
        }
    }

    /// Answers an echo message.
    fn receive_icmp(&self, src_ip: [u8; 4], dst_ip: [u8; 4], payload: Bytes) -> (output:
        IpHostOutput)
        requires
            contents(payload).len() <= isize::MAX,
            word_sum(contents(payload)) <= u32::MAX,
        ensures
            output@ == self@.echo(src_ip, dst_ip, contents(payload)),
    {
        let ghost bytes = contents(payload);
        let message = match IcmpMessage::parse_bytes(payload) {
            Ok(message) => message,
            Err(error) => {
                return IpHostOutput::only(
                    IpHostEvent::IgnoredMalformedIcmp(String::from_str(error.name())),
                );
            },
        };
        let reply = match IcmpMessage::echo_reply_from_request(&message) {
            Some(reply) => reply,
            None => {
                return IpHostOutput::default();
            },
        };
        let mut output = IpHostOutput::default();
        output.tell(
            IpHostEvent::IcmpEchoRequest {
                src_ip,
                dst_ip,
                identifier: message.identifier,
                sequence_number: message.sequence_number,
                payload_len: message.payload.len(),
            },
        );
        output.tell(
            IpHostEvent::IcmpEchoReply {
                src_ip: dst_ip,
                dst_ip: src_ip,
                identifier: reply.identifier,
                sequence_number: reply.sequence_number,
                payload_len: reply.payload.len(),
            },
        );
        proof {
            lemma_reply_adds_up(bytes);
        }
        output.add(Ipv4Datagram::new_icmp(dst_ip, src_ip, reply.serialize()));
        assert(output@ =~= self@.echo(src_ip, dst_ip, bytes));
        output
    }

    /// Takes in a segment of the peer.
    fn receive_tcp(&mut self, datagram: Ipv4Datagram) -> (output: IpHostOutput)
        requires
            old(self).wf(),
            old(self)@.is_tcp(datagram@),
            old(self)@.can_take(datagram@),
        ensures
            final(self).wf(),
            output@ == old(self)@.reaction(datagram@),
            final(self)@ == old(self)@.after_datagram(datagram@),
    {
        let segment = match TcpSegment::parse_ipv4_bytes(
            self.config.peer_ip,
            self.config.local_ip,
            datagram.payload,
        ) {
            Ok(segment) => segment,
            Err(error) => {
                return IpHostOutput::only(
                    IpHostEvent::IgnoredMalformedTcp(String::from_str(error.name())),
                );
            },
        };
        if segment.header.src_port != self.connection.peer_port() || segment.header.dst_port
            != self.connection.local_port() {
            return IpHostOutput::default();
        }
        let mut output = IpHostOutput::default();
        output.tell(IpHostEvent::IncomingTcp(segment.clone()));
        if !segment.payload.is_empty() {
            output.tell(IpHostEvent::TcpPayload(segment.payload.clone()));
        }
        assert(output@ =~= self@.arrival(segment@));
        let responses = self.connection.receive_segment(segment);
        output.extend(self.wrap_tcp_segments(responses));
        output
    }

    /// Puts segments into datagrams to the peer.
    fn wrap_tcp_segments(&self, segments: Vec<TcpSegment>) -> (output: IpHostOutput)
        requires
            all_fit(segments_of(segments@)),
        ensures
            output@ == self@.sending(segments_of(segments@)),
    {
        let ghost all = segments_of(segments@);
        let mut output = IpHostOutput::default();
        let mut index: usize = 0;
        while index < segments.len()
            invariant
                index <= segments@.len(),
                all == segments_of(segments@),
                all_fit(all),
                output@.datagrams.len() == index,
                output@.events.len() == index,
                forall|i: int|
                    0 <= i < index ==> output@.datagrams[i] == #[trigger] self@.sending(
                        all,
                    ).datagrams[i],
                forall|i: int|
                    0 <= i < index ==> output@.events[i] == #[trigger] self@.sending(
                        all,
                    ).events[i],
            decreases segments@.len() - index,
        {
            assert(all[index as int].fits());
            let tcp_bytes = segments[index].serialize_ipv4(
                self.config.local_ip,
                self.config.peer_ip,
            );
            output.tell(IpHostEvent::OutgoingTcp(segments[index].clone()));
            output.add(
                Ipv4Datagram::new_tcp(self.config.local_ip, self.config.peer_ip, tcp_bytes),
            );
            index = index + 1;
        }
        assert(output@ =~= self@.sending(all));
        output
    }
}

/// The reply to an echo request adds up to no more than the request.
proof fn lemma_reply_adds_up(bytes: Seq<u8>)
    requires
        bytes.len() >= 8,
        echo_reply(icmp_parsed(bytes)) is Some,
    ensures
        word_sum(icmp_bytes_with(echo_reply(icmp_parsed(bytes))->Some_0, 0)) <= word_sum(bytes),
        echo_reply(icmp_parsed(bytes))->Some_0.payload.len() == bytes.len() - 8,
{
    let reply = echo_reply(icmp_parsed(bytes))->Some_0;
    let blank = icmp_bytes_with(reply, 0);
    assert(blank.len() == bytes.len());
    assert forall|i: int| 0 <= i < blank.len() implies (#[trigger] blank[i]) <= bytes[i] by {
        if i >= 8 {
            assert(blank[i] == reply.payload[i - 8]);
        }
    }
    lemma_smaller_bytes(blank, bytes);
}

/// A segment with no more payload than a host that is ready allows fits into a
/// datagram.
pub proof fn law_output_fits(host: HostView, segments: Seq<TcpSegmentView>, i: int)
    requires
        0 <= i < segments.len(),
        segments[i].payload.len() <= 65495,
    ensures
        host.sending(segments).datagrams[i].fits(),
{
}

/// A host that is ready can open and close its connection and let time pass.
pub proof fn law_ready_host_can_send(host: HostView, ms: u64)
    requires
        host.connection.sender.valid(),
        host.ready(),
    ensures
        host.connection.can_fill(),
        all_fit(host.connection.fill_segments()),
        host.connection.with_end().can_fill(),
        all_fit(host.connection.with_end().fill_segments()),
        all_fit(host.connection.tick_segments(ms)),
{
    lemma_fill_fits(host.connection);
    lemma_fill_fits(host.connection.with_end());
}

/// A host that is ready can be written to.
pub proof fn law_ready_host_can_be_written_to(host: HostView, data: Seq<u8>)
    requires
        host.connection.sender.valid(),
        host.connection.sender.outbound.buffered.len() <= host.connection.sender.outbound.capacity,
        host.ready(),
    ensures
        host.connection.with_data(data).sender.outbound.pushed() <= u64::MAX,
        host.connection.with_data(data).can_fill(),
        all_fit(host.connection.with_data(data).fill_segments()),
{
    lemma_fill_fits(host.connection.with_data(data));
}

/// A host that is ready can take in any datagram that was parsed from a packet.
pub proof fn law_ready_host_can_take(host: HostView, packet: Seq<u8>)
    requires
        host.connection.sender.valid(),
        host.ready(),
        ipv4_rejection(packet) is None,
    ensures
        host.can_take(ipv4_parsed(packet)),
{
    let datagram = ipv4_parsed(packet);
    crate::checksum::lemma_word_sum_bound(datagram.payload);
    if let Some(segment) = host.delivered(datagram) {
        let heard = host.connection.with_segment(segment);
        crate::tcp_sender::law_receive(host.connection.sender, segment.receiver_message());
        lemma_fill_fits(heard);
    }
}

/// Whatever a host that is ready sends, on its own or in answer to a packet, fits
/// into datagrams.
#[verifier::rlimit(30)]
pub proof fn law_ready_output_fits(host: HostView, data: Seq<u8>, ms: u64, packet: Seq<u8>)
    requires
        host.connection.sender.valid(),
        host.connection.sender.outbound.buffered.len() <= host.connection.sender.outbound.capacity,
        host.ready(),
        ipv4_rejection(packet) is None,
    ensures
        datagrams_fit(host.sending(host.connection.fill_segments())),
        datagrams_fit(host.sending(host.connection.with_data(data).fill_segments())),
        datagrams_fit(host.sending(host.connection.with_end().fill_segments())),
        datagrams_fit(host.sending(host.connection.tick_segments(ms))),
        datagrams_fit(host.reaction(ipv4_parsed(packet))),
{
    let datagram = ipv4_parsed(packet);
    lemma_fill_is_short(host, host.connection);
    lemma_fill_is_short(host, host.connection.with_data(data));
    lemma_fill_is_short(host, host.connection.with_end());
    assert(datagrams_fit(host.sending(host.connection.tick_segments(ms)))) by {
        let segments = host.connection.tick_segments(ms);
        assert forall|i: int| 0 <= i < segments.len() implies (
        #[trigger] host.sending(segments).datagrams[i]).fits() by {
            assert(host.connection.sender.outstanding[0].message.payload.len() <= 65495);
            law_output_fits(host, segments, i);
        }
    }
    if let Some(segment) = host.delivered(datagram) {
        let heard = host.connection.with_segment(segment);
        crate::tcp_sender::law_receive(host.connection.sender, segment.receiver_message());
        lemma_fill_is_short(host, heard);
        let answer = host.connection.answer(segment);
        let sent = host.sending(answer).datagrams;
        assert forall|i: int| 0 <= i < sent.len() implies (#[trigger] sent[i]).fits() by {
            if answer != heard.fill_segments() {
                law_output_fits(host, answer, i);
            } else {
                assert(host.sending(heard.fill_segments()).datagrams[i].fits());
            }
        }
        assert(host.reaction(datagram).datagrams =~= sent);
    } else if host.is_echo(datagram) && icmp_rejection(datagram.payload) is None && echo_reply(
        icmp_parsed(datagram.payload),
    ) is Some {
        lemma_reply_adds_up(datagram.payload);
        let reply = echo_reply(icmp_parsed(datagram.payload))->Some_0;
        assert(icmp_bytes(reply).len() == datagram.payload.len());
    }
}

/// Whether every datagram of an output is short enough to be sent.
pub open spec fn datagrams_fit(output: OutputView) -> bool {
    forall|i: int| 0 <= i < output.datagrams.len() ==> (#[trigger] output.datagrams[i]).fits()
}

proof fn lemma_fill_is_short(host: HostView, connection: ConnectionView)
    requires
        connection.sender.valid(),
        connection.sender.snd_nxt + 0xffff <= u64::MAX,
        connection.sender.config.max_payload_size <= 65495,
    ensures
        datagrams_fit(host.sending(connection.fill_segments())),
{
    lemma_fill_fits(connection);
    law_fill_sends_the_stream(connection.sender);
    let segments = connection.fill_segments();
    let messages = connection.sender.fill().0;
    assert forall|i: int| 0 <= i < segments.len() implies (
    #[trigger] host.sending(segments).datagrams[i]).fits() by {
        assert(messages[i].payload.len() <= connection.sender.config.max_payload_size);
        law_output_fits(host, segments, i);
    }
}

proof fn lemma_fill_fits(connection: ConnectionView)
    requires
        connection.sender.valid(),
        connection.sender.snd_nxt + 0xffff <= u64::MAX,
        connection.sender.config.max_payload_size <= 65495,
    ensures
        connection.can_fill(),
        all_fit(connection.fill_segments()),
{
    crate::tcp_connection::lemma_can_fill(connection);
    law_fill_sends_the_stream(connection.sender);
    let messages = connection.sender.fill().0;
    assert forall|i: int| 0 <= i < messages.len() implies (
    #[trigger] connection.fill_segments()[i]).fits() by {
        assert(messages[i].payload.len() <= connection.sender.config.max_payload_size);
    }
}

/// A ping of this host is answered: the reply goes back to where the request
/// came from, with the same content.
pub proof fn law_ping_is_answered(host: HostView, datagram: DatagramView)
    requires
        datagram.header.dst.0 == host.config.local_ip,
        datagram.header.protocol == IPV4_PROTOCOL_ICMP,
        icmp_rejection(datagram.payload) is None,
        echo_reply(icmp_parsed(datagram.payload)) is Some,
    ensures
        ({
            let request = icmp_parsed(datagram.payload);
            let output = host.reaction(datagram);
            let answer = output.datagrams[0];
            &&& output.datagrams.len() == 1
            &&& answer.header.src == datagram.header.dst
            &&& answer.header.dst == datagram.header.src
            &&& answer.header.protocol == IPV4_PROTOCOL_ICMP
            &&& icmp_rejection(answer.payload) is None
            &&& icmp_parsed(answer.payload) == (IcmpView {
                icmp_type: crate::icmp::ICMP_ECHO_REPLY,
                ..request
            })
            &&& host.after_datagram(datagram) == host
        }),
{
    let reply = echo_reply(icmp_parsed(datagram.payload))->Some_0;
    crate::icmp::law_icmp_round_trip(reply);
}

/// A datagram for another host calls forth nothing.
pub proof fn law_other_hosts_are_ignored(host: HostView, datagram: DatagramView)
    requires
        datagram.header.dst.0 != host.config.local_ip,
    ensures
        host.reaction(datagram) == OutputView::nothing(),
        host.after_datagram(datagram) == host,
{
}

/// The peer gets the segments that the connection sends: each datagram that goes
/// out holds one, which the peer accepts as it was sent.
pub proof fn law_peer_gets_the_segments(host: HostView, segments: Seq<TcpSegmentView>, i: int)
    requires
        0 <= i < segments.len(),
        segments[i].fits(),
    ensures
        ({
            let datagram = host.sending(segments).datagrams[i];
            &&& datagram.header.src.0 == host.config.local_ip
            &&& datagram.header.dst.0 == host.config.peer_ip
            &&& tcp_rejection(host.config.local_ip@, host.config.peer_ip@, datagram.payload)
                is None
            &&& tcp_parsed(datagram.payload) == segments[i]
        }),
{
    crate::tcp_segment::law_tcp_round_trip(
        segments[i],
        host.config.local_ip@,
        host.config.peer_ip@,
    );
}

/// What a host tells of a segment, and what it sends in answer. A segment from the
/// peer's address and port to its own, whatever flags it has, is told first. Its
/// payload follows, exactly if it has any, as it is. Then the answer of the
/// connection is told and sent, segment by segment. The connection has taken the
/// segment in.
pub proof fn law_segment_is_taken_in(host: HostView, datagram: DatagramView)
    requires
        datagram.header.dst.0 == host.config.local_ip,
        datagram.header.src.0 == host.config.peer_ip,
        datagram.header.protocol == 6,
        tcp_rejection(host.config.peer_ip@, host.config.local_ip@, datagram.payload) is None,
        tcp_parsed(datagram.payload).header.src_port == host.connection.peer_port,
        tcp_parsed(datagram.payload).header.dst_port == host.connection.local_port,
    ensures
        ({
            let segment = tcp_parsed(datagram.payload);
            let output = host.reaction(datagram);
            let answer = host.connection.answer(segment);
            let told = if segment.payload.len() > 0 {
                2int
            } else {
                1
            };
            &&& output.events.len() == told + answer.len()
            &&& output.events[0] == EventView::IncomingTcp(segment)
            &&& segment.payload.len() > 0 ==> output.events[1] == EventView::TcpPayload(
                segment.payload,
            )
            &&& forall|i: int|
                0 <= i < answer.len() ==> #[trigger] output.events[told + i]
                    == EventView::OutgoingTcp(answer[i])
            &&& segment.payload.len() == 0 ==> forall|i: int|
                0 <= i < output.events.len() ==> !((#[trigger] output.events[i]) is TcpPayload)
            &&& output.datagrams.len() == answer.len()
            &&& host.after_datagram(datagram).config == host.config
            &&& host.after_datagram(datagram).connection == host.connection.after_segment(segment)
        }),
{
    let segment = tcp_parsed(datagram.payload);
    assert(host.delivered(datagram) == Some(segment));
}

/// Where a segment carries payload, the payload is handed up: some event is
/// exactly its bytes.
pub proof fn law_payload_is_handed_up(host: HostView, datagram: DatagramView)
    requires
        datagram.header.dst.0 == host.config.local_ip,
        datagram.header.src.0 == host.config.peer_ip,
        datagram.header.protocol == 6,
        tcp_rejection(host.config.peer_ip@, host.config.local_ip@, datagram.payload) is None,
        tcp_parsed(datagram.payload).header.src_port == host.connection.peer_port,
        tcp_parsed(datagram.payload).header.dst_port == host.connection.local_port,
    ensures
        tcp_parsed(datagram.payload).payload.len() > 0 <==> exists|i: int|
            0 <= i < host.reaction(datagram).events.len() && (#[trigger] host.reaction(
                datagram,
            ).events[i]) is TcpPayload,
        forall|i: int|
            0 <= i < host.reaction(datagram).events.len() && (#[trigger] host.reaction(
                datagram,
            ).events[i]) is TcpPayload ==> host.reaction(datagram).events[i]
                == EventView::TcpPayload(tcp_parsed(datagram.payload).payload),
{
    law_segment_is_taken_in(host, datagram);
    let segment = tcp_parsed(datagram.payload);
    let events = host.reaction(datagram).events;
    let answer = host.connection.answer(segment);
    if segment.payload.len() > 0 {
        assert(events[1] is TcpPayload);
        assert forall|i: int| 0 <= i < events.len() && (#[trigger] events[i]) is TcpPayload implies
            events[i] == EventView::TcpPayload(segment.payload) by {
            if i >= 2 {
                assert(events[2 + (i - 2)] == EventView::OutgoingTcp(answer[i - 2]));
            }
        }
    }
}

/// What the peer sends is handed up: a segment that another host puts into a
/// datagram for this one, with the ports of the connection, is told here as it
/// was, and so is its payload.
pub proof fn law_hosts_hear_each_other(
    host: HostView,
    peer: HostView,
    segments: Seq<TcpSegmentView>,
    i: int,
)
    requires
        0 <= i < segments.len(),
        segments[i].payload.len() <= 65515,
        peer.config.local_ip == host.config.peer_ip,
        peer.config.peer_ip == host.config.local_ip,
        segments[i].header.src_port == host.connection.peer_port,
        segments[i].header.dst_port == host.connection.local_port,
    ensures
        ({
            let datagram = peer.sending(segments).datagrams[i];
            let output = host.reaction(datagram);
            &&& output.events.len() >= 1
            &&& output.events[0] == EventView::IncomingTcp(segments[i])
            &&& segments[i].payload.len() > 0 ==> output.events.len() >= 2 && output.events[1]
                == EventView::TcpPayload(segments[i].payload)
            &&& host.after_datagram(datagram).connection == host.connection.after_segment(
                segments[i],
            )
        }),
{
    let datagram = peer.sending(segments).datagrams[i];
    law_peer_gets_the_segments(peer, segments, i);
    law_segment_is_taken_in(host, datagram);
}

/// What a host sends: one datagram to the peer for each segment, of protocol 6,
/// with 64 hops to live and not to be fragmented, which holds the bytes of the
/// segment; each is told, in order.
pub proof fn law_what_is_sent(host: HostView, segments: Seq<TcpSegmentView>, i: int)
    requires
        0 <= i < segments.len(),
    ensures
        ({
            let output = host.sending(segments);
            let datagram = output.datagrams[i];
            &&& output.datagrams.len() == segments.len()
            &&& output.events.len() == segments.len()
            &&& output.events[i] == EventView::OutgoingTcp(segments[i])
            &&& datagram.header.src.0 == host.config.local_ip
            &&& datagram.header.dst.0 == host.config.peer_ip
            &&& datagram.header.protocol == 6
            &&& datagram.header.ttl == 64
            &&& datagram.header.identification == 0
            &&& datagram.header.flags_fragment_offset == 0x4000
            &&& datagram.payload == segment_bytes(
                segments[i],
                host.config.local_ip@,
                host.config.peer_ip@,
            )
        }),
{
}

/// The datagrams that answer a segment are those that send the answer of the
/// connection.
pub proof fn law_answer_is_sent(host: HostView, datagram: DatagramView, i: int)
    requires
        datagram.header.dst.0 == host.config.local_ip,
        datagram.header.src.0 == host.config.peer_ip,
        datagram.header.protocol == 6,
        tcp_rejection(host.config.peer_ip@, host.config.local_ip@, datagram.payload) is None,
        tcp_parsed(datagram.payload).header.src_port == host.connection.peer_port,
        tcp_parsed(datagram.payload).header.dst_port == host.connection.local_port,
        0 <= i < host.connection.answer(tcp_parsed(datagram.payload)).len(),
    ensures
        ({
            let sent = host.reaction(datagram).datagrams[i];
            &&& sent.header.src.0 == host.config.local_ip
            &&& sent.header.dst.0 == host.config.peer_ip
            &&& sent.header.protocol == 6
            &&& sent.header.ttl == 64
            &&& sent.payload == segment_bytes(
                host.connection.answer(tcp_parsed(datagram.payload))[i],
                host.config.local_ip@,
                host.config.peer_ip@,
            )
        }),
{
    assert(host.delivered(datagram) == Some(tcp_parsed(datagram.payload)));
}

/// Which datagrams call forth nothing: those for another host; those of another
/// protocol than ICMP and TCP; segments from another host than the peer, or
/// between other ports; and echo messages that are no requests. Bytes that are no
/// segment, or no echo message, are told of with the name of what is wrong. The
/// connection hears of none of these.
pub proof fn law_what_is_passed_over(host: HostView, datagram: DatagramView)
    ensures
        ({
            let header = datagram.header;
            let mine = header.dst.0 == host.config.local_ip;
            let output = host.reaction(datagram);
            let same = host.after_datagram(datagram) == host;
            let nothing = output.datagrams.len() == 0 && output.events.len() == 0;
            let one = output.datagrams.len() == 0 && output.events.len() == 1;
            let broken = tcp_rejection(
                host.config.peer_ip@,
                host.config.local_ip@,
                datagram.payload,
            );
            let segment = tcp_parsed(datagram.payload);
            let from_peer = mine && header.protocol == 6 && header.src.0 == host.config.peer_ip;
            &&& !mine ==> nothing && same
            &&& header.protocol != 1 && header.protocol != 6 ==> nothing && same
            &&& header.protocol == 6 && header.src.0 != host.config.peer_ip ==> nothing && same
            &&& from_peer && broken is Some ==> one && same && output.events[0]
                == EventView::MalformedTcp(broken->Some_0.text())
            &&& from_peer && broken is None && (segment.header.src_port
                != host.connection.peer_port || segment.header.dst_port
                != host.connection.local_port) ==> nothing && same
            &&& header.protocol == 1 ==> same
            &&& mine && header.protocol == 1 && icmp_rejection(datagram.payload) is Some ==> one
                && output.events[0] == EventView::MalformedEcho(
                icmp_rejection(datagram.payload)->Some_0.text(),
            )
            &&& mine && header.protocol == 1 && icmp_rejection(datagram.payload) is None && (
            datagram.payload[0] != 8 || datagram.payload[1] != 0) ==> nothing
        }),
{
}

/// Every ping of this host is answered and told, from whomever it comes: one
/// datagram goes back, which holds the same message as a reply.
pub proof fn law_every_ping_is_answered(
    host: HostView,
    datagram: DatagramView,
    identifier: u16,
    sequence_number: u16,
    data: Seq<u8>,
)
    requires
        datagram.header.dst.0 == host.config.local_ip,
        datagram.header.protocol == 1,
        datagram.payload == icmp_bytes(
            IcmpView { icmp_type: 8, code: 0, identifier, sequence_number, payload: data },
        ),
    ensures
        ({
            let output = host.reaction(datagram);
            let sent = output.datagrams[0];
            let source = datagram.header.src.0;
            let local = host.config.local_ip;
            &&& output.datagrams.len() == 1
            &&& sent.header.src.0 == local
            &&& sent.header.dst.0 == source
            &&& sent.header.protocol == 1
            &&& sent.header.ttl == 64
            &&& sent.payload == icmp_bytes(
                IcmpView { icmp_type: 0, code: 0, identifier, sequence_number, payload: data },
            )
            &&& output.events == seq![
                EventView::EchoRequest {
                    src_ip: source,
                    dst_ip: local,
                    identifier,
                    sequence_number,
                    payload_len: data.len(),
                },
                EventView::EchoReply {
                    src_ip: local,
                    dst_ip: source,
                    identifier,
                    sequence_number,
                    payload_len: data.len(),
                },
            ]
            &&& host.after_datagram(datagram) == host
        }),
{
    let request = IcmpView { icmp_type: 8, code: 0, identifier, sequence_number, payload: data };
    crate::icmp::law_icmp_round_trip(request);
    crate::icmp::law_every_echo_request_is_answered(identifier, sequence_number, data, request);
    assert(host.is_echo(datagram));
}

/// One output behind another holds everything of both, in order.
pub proof fn law_outputs_are_joined(first: OutputView, second: OutputView)
    ensures
        first.then_also(second).datagrams == first.datagrams + second.datagrams,
        first.then_also(second).events == first.events + second.events,
        OutputView::nothing().datagrams.len() == 0,
        OutputView::nothing().events.len() == 0,
{
}

/// The parameters of the connection are those of the host.
pub proof fn law_connection_is_as_configured(config: IpHostConfig)
    ensures
        config.connection_config().local_port == config.local_port,
        config.connection_config().peer_port == config.peer_port,
        config.connection_config().sender_capacity == config.sender_capacity,
        config.connection_config().receiver_capacity == config.receiver_capacity,
        config.connection_config().isn == config.isn,
        config.connection_config().sender_config == config.sender_config,
{
}

/// When a host is ready: 65535 sequence numbers are left, the stream can grow by
/// its capacity, and the longest segment fits into a datagram.
pub proof fn law_when_ready(host: HostView)
    ensures
        host.ready() <==> host.connection.sender.snd_nxt <= u64::MAX - 65535
            && host.connection.sender.outbound.popped
            + host.connection.sender.outbound.buffered.len()
            + host.connection.sender.outbound.capacity <= u64::MAX
            && host.connection.sender.config.max_payload_size <= 65495,
{
}

/// What events say is told one by one.
pub proof fn law_events_one_by_one(events: Seq<IpHostEvent>, i: int)
    requires
        0 <= i < events.len(),
    ensures
        event_views(events).len() == events.len(),
        event_views(events)[i] == events[i]@,
{
}

} // verus!
