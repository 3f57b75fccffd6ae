//! A TCP connection over bare IPv4 packets: which packets are meant for it, and
//! what is sent for its segments.
use crate::buffer::contents;
use crate::ipv4_datagram::{
    datagram_bytes, ipv4_parsed, ipv4_rejection, law_ipv4_round_trip, plain_header, same_address,
    DatagramView, Ipv4Datagram, Ipv4ParseError, IPV4_PROTOCOL_TCP,
};
use crate::tcp_connection::{segments_of, ConnectionView, TcpConnection};
use crate::tcp_segment::{
    law_tcp_round_trip, lemma_segment_len, segment_bytes, tcp_parsed, tcp_rejection,
    TcpParseError, TcpSegment, TcpSegmentView,
};
use bytes::Bytes;
use vstd::prelude::*;

verus! {

/// What became of a packet.
#[derive(Debug)]
pub enum HandledPacket {
    MalformedIpv4(Ipv4ParseError),
    MalformedTcp(TcpParseError),
    Ignored,
    Taken { segment: TcpSegment, responses: Vec<TcpSegment> },
}

/// What a packet is for a connection between two addresses.
pub enum PacketView {
    MalformedIpv4(Ipv4ParseError),
    MalformedTcp(TcpParseError),
    Ignored,
    Meant(TcpSegmentView),
}

/// What a packet is for a connection between two addresses: it is meant for the
/// connection where it comes from the address and the port of the peer and goes
/// to the local ones.
pub open spec fn packet_for(
    connection: ConnectionView,
    local_ip: [u8; 4],
    peer_ip: [u8; 4],
    packet: Seq<u8>,
) -> PacketView {
    match ipv4_rejection(packet) {
        Some(error) => PacketView::MalformedIpv4(error),
        None => {
            let datagram = ipv4_parsed(packet);
            if datagram.header.protocol != IPV4_PROTOCOL_TCP || datagram.header.src.0 != peer_ip
                || datagram.header.dst.0 != local_ip {
                PacketView::Ignored
            } else {
                match tcp_rejection(peer_ip@, local_ip@, datagram.payload) {
                    Some(error) => PacketView::MalformedTcp(error),
                    None => {
                        let segment = tcp_parsed(datagram.payload);
                        if segment.header.src_port != connection.peer_port
                            || segment.header.dst_port != connection.local_port {
                            PacketView::Ignored
                        } else {
                            PacketView::Meant(segment)
                        }
                    },
                }
            }
        },
    }
}

/// Takes in a packet: a segment for the connection is answered, anything else is
/// passed over.
pub fn handle_packet(
    connection: &mut TcpConnection,
    local_ip: [u8; 4],
    peer_ip: [u8; 4],
    packet: &[u8],
) -> (handled: HandledPacket)
    requires
        old(connection).wf(),
        packet_for(old(connection)@, local_ip, peer_ip, packet@) matches PacketView::Meant(segment)
            ==> segment.header.rst || old(connection)@.with_segment(segment).can_fill(),
    ensures
        final(connection).wf(),
        match packet_for(old(connection)@, local_ip, peer_ip, packet@) {
            PacketView::MalformedIpv4(error) => handled == HandledPacket::MalformedIpv4(error)
                && final(connection)@ == old(connection)@,
            PacketView::MalformedTcp(error) => handled == HandledPacket::MalformedTcp(error)
                && final(connection)@ == old(connection)@,
            PacketView::Ignored => handled == HandledPacket::Ignored && final(connection)@ == old(
                connection,
            )@,
            PacketView::Meant(meant) => {
                &&& handled matches HandledPacket::Taken { segment, responses }
                &&& segment@ == meant
                &&& segments_of(responses@) == old(connection)@.answer(meant)
                &&& final(connection)@ == old(connection)@.after_segment(meant)
            },
        },
{
    let datagram = match Ipv4Datagram::parse(packet) {
        Ok(datagram) => datagram,
        Err(error) => {
            return HandledPacket::MalformedIpv4(error);
        },
    };
    if datagram.header.protocol != IPV4_PROTOCOL_TCP {
        return HandledPacket::Ignored;
    }
    let src_ip = datagram.header.src.octets();
    let dst_ip = datagram.header.dst.octets();
    if !same_address(src_ip, peer_ip) || !same_address(dst_ip, local_ip) {
        return HandledPacket::Ignored;
    }
    let segment = match TcpSegment::parse_ipv4_bytes(src_ip, dst_ip, datagram.payload) {
        Ok(segment) => segment,
        Err(error) => {
            return HandledPacket::MalformedTcp(error);
        },
    };
    if segment.header.src_port != connection.peer_port() || segment.header.dst_port
        != connection.local_port() {
        return HandledPacket::Ignored;
    }
    let responses = connection.receive_segment(segment.clone());
    HandledPacket::Taken { segment, responses }
}

/// The packet that carries a segment between two addresses.
pub open spec fn packet_bytes(segment: TcpSegmentView, src_ip: [u8; 4], dst_ip: [u8; 4]) -> Seq<
    u8,
> {
    datagram_bytes(
        DatagramView {
            header: plain_header(src_ip, dst_ip, IPV4_PROTOCOL_TCP),
            payload: segment_bytes(segment, src_ip@, dst_ip@),
        },
    )
}

/// The packet that carries a segment between two addresses. With both headers it
/// has to fit into 65535 bytes.
pub fn segment_packet(segment: &TcpSegment, src_ip: [u8; 4], dst_ip: [u8; 4]) -> (packet: Bytes)
    requires
        segment@.payload.len() <= 65495,
    ensures
        contents(packet) == packet_bytes(segment@, src_ip, dst_ip),
{
    let tcp_bytes = segment.serialize_ipv4(src_ip, dst_ip);
    let datagram = Ipv4Datagram::new_tcp(src_ip, dst_ip, tcp_bytes);
    datagram.serialize()
}

/// What one side sends the other takes in: the packet of a segment is meant for
/// a connection that has the ports of the segment, at the other end.
pub proof fn law_packet_reaches_the_connection(
    connection: ConnectionView,
    segment: TcpSegmentView,
    local_ip: [u8; 4],
    peer_ip: [u8; 4],
)
    requires
        segment.payload.len() <= 65495,
        segment.header.src_port == connection.peer_port,
        segment.header.dst_port == connection.local_port,
    ensures
        packet_for(connection, local_ip, peer_ip, packet_bytes(segment, peer_ip, local_ip))
            == PacketView::Meant(segment),
{
    let datagram = DatagramView {
        header: plain_header(peer_ip, local_ip, IPV4_PROTOCOL_TCP),
        payload: segment_bytes(segment, peer_ip@, local_ip@),
    };
    let packet = packet_bytes(segment, peer_ip, local_ip);
    assert(ipv4_rejection(packet) is None && ipv4_parsed(packet) == datagram) by {
        lemma_segment_len(segment, peer_ip@, local_ip@);
        law_ipv4_round_trip(datagram, Seq::empty());
        assert(packet + Seq::<u8>::empty() =~= packet);
    }
    assert(tcp_rejection(peer_ip@, local_ip@, datagram.payload) is None && tcp_parsed(
        datagram.payload,
    ) == segment) by {
        law_tcp_round_trip(segment, peer_ip@, local_ip@);
    }
}

/// What a packet is for a connection, told from its bytes alone: it is malformed
/// where it is no datagram; meant for others where it holds no TCP, or goes
/// between other addresses; malformed where it holds no segment between them;
/// meant for others where the segment goes between other ports; and otherwise the
/// segment is meant for the connection, as it is.
pub proof fn law_what_a_packet_is(
    connection: ConnectionView,
    local_ip: [u8; 4],
    peer_ip: [u8; 4],
    packet: Seq<u8>,
)
    ensures
        ({
            let what = packet_for(connection, local_ip, peer_ip, packet);
            let datagram = ipv4_parsed(packet);
            let segment = tcp_parsed(datagram.payload);
            let intact = ipv4_rejection(packet) is None;
            let between = datagram.header.protocol == 6 && datagram.header.src.0 == peer_ip
                && datagram.header.dst.0 == local_ip;
            let broken = tcp_rejection(peer_ip@, local_ip@, datagram.payload);
            let ports = segment.header.src_port == connection.peer_port && segment.header.dst_port
                == connection.local_port;
            &&& !intact ==> what == PacketView::MalformedIpv4(ipv4_rejection(packet)->Some_0)
            &&& intact && !between ==> what == PacketView::Ignored
            &&& intact && between && broken is Some ==> what == PacketView::MalformedTcp(
                broken->Some_0,
            )
            &&& intact && between && broken is None && !ports ==> what == PacketView::Ignored
            &&& intact && between && broken is None && ports ==> what == PacketView::Meant(segment)
        }),
{
}

/// The packet of a segment is a datagram of TCP between the addresses, with 64
/// hops to live, that holds the segment.
pub proof fn law_packet_holds_the_segment(
    segment: TcpSegmentView,
    src_ip: [u8; 4],
    dst_ip: [u8; 4],
)
    requires
        segment.payload.len() <= 65495,
    ensures
        ({
            let packet = packet_bytes(segment, src_ip, dst_ip);
            let datagram = ipv4_parsed(packet);
            &&& packet.len() == 40 + segment.payload.len()
            &&& ipv4_rejection(packet) is None
            &&& datagram.header.src.0 == src_ip
            &&& datagram.header.dst.0 == dst_ip
            &&& datagram.header.protocol == 6
            &&& datagram.header.ttl == 64
            &&& tcp_rejection(src_ip@, dst_ip@, datagram.payload) is None
            &&& tcp_parsed(datagram.payload) == segment
        }),
{
    let datagram = DatagramView {
        header: plain_header(src_ip, dst_ip, IPV4_PROTOCOL_TCP),
        payload: segment_bytes(segment, src_ip@, dst_ip@),
    };
    let packet = packet_bytes(segment, src_ip, dst_ip);
    assert(ipv4_rejection(packet) is None && ipv4_parsed(packet) == datagram && packet.len() == 40
        + segment.payload.len()) by {
        lemma_segment_len(segment, src_ip@, dst_ip@);
        law_ipv4_round_trip(datagram, Seq::empty());
        crate::ipv4_datagram::law_datagram_is_laid_out(datagram);
        assert(packet + Seq::<u8>::empty() =~= packet);
    }
    assert(tcp_rejection(src_ip@, dst_ip@, datagram.payload) is None && tcp_parsed(datagram.payload)
        == segment) by {
        law_tcp_round_trip(segment, src_ip@, dst_ip@);
    }
}

} // verus!
