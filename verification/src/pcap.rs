//! Captures of packets in the classic pcap format, little-endian.
use vstd::prelude::*;

verus! {

const PCAP_MAGIC_LE: u32 = 0xa1b2c3d4;

const PCAP_VERSION_MAJOR: u16 = 2;

const PCAP_VERSION_MINOR: u16 = 4;

const PCAP_SNAPLEN: u32 = 65_535;

/// What the packets of a capture begin with.
#[derive(Debug, Clone, Copy, PartialEq, Eq, Structural)]
pub enum PcapLinkType {
    Ethernet,
    RawIpv4,
}

impl PcapLinkType {
    /// The number of a link type.
    pub open spec fn number(self) -> u32 {
        match self {
            PcapLinkType::Ethernet => 1,
            PcapLinkType::RawIpv4 => 101,
        }
    }

    pub fn code(self) -> (code: u32)
        ensures
            code == self.number(),
    {
        match self {
            Self::Ethernet => 1,
            Self::RawIpv4 => 101,
        }
    }
}

/// A packet is too long for a capture: its length needs more than 32 bits.
#[derive(Debug, Clone, Copy, PartialEq, Eq, Structural)]
pub struct PacketTooLong;

/// The two bytes of a number, the low one first.
pub open spec fn le16(value: u16) -> Seq<u8> {
    seq![(value % 256) as u8, (value / 256) as u8]
}

/// The four bytes of a number, the lowest first.
pub open spec fn le32(value: u32) -> Seq<u8> {
    seq![
        (value % 256) as u8,
        (value / 0x100 % 256) as u8,
        (value / 0x1_0000 % 256) as u8,
        (value / 0x100_0000) as u8,
    ]
}

/// What a capture begins with: the magic number, the version, the offset of the
/// local time and its accuracy (both zero), the most bytes of a packet that are
/// captured, and the link type.
pub open spec fn capture_header(link_type: PcapLinkType) -> Seq<u8> {
    le32(0xa1b2c3d4) + le16(2) + le16(4) + le32(0) + le32(0) + le32(65_535) + le32(
        link_type.number(),
    )
}

/// A packet in a capture: when it came, its length, twice, and its bytes. Of the
/// seconds the lowest 32 bits are kept.
pub open spec fn capture_record(seconds: u64, micros: u32, packet: Seq<u8>) -> Seq<u8> {
    le32((seconds % 0x1_0000_0000) as u32) + le32(micros) + le32(packet.len() as u32) + le32(
        packet.len() as u32,
    ) + packet
}

fn push_le16(bytes: &mut Vec<u8>, value: u16)
    ensures
        final(bytes)@ == old(bytes)@ + le16(value),
{
    bytes.push((value % 256) as u8);
    bytes.push((value / 256) as u8);
    assert(bytes@ =~= old(bytes)@ + le16(value));
}

fn push_le32(bytes: &mut Vec<u8>, value: u32)
    ensures
        final(bytes)@ == old(bytes)@ + le32(value),
{
    bytes.push((value % 256) as u8);
    bytes.push((value / 0x100 % 256) as u8);
    bytes.push((value / 0x1_0000 % 256) as u8);
    bytes.push((value / 0x100_0000) as u8);
    assert(bytes@ =~= old(bytes)@ + le32(value));
}

/// What a capture begins with.
pub fn global_header(link_type: PcapLinkType) -> (bytes: Vec<u8>)
    ensures
        bytes@ == capture_header(link_type),
{
    let mut bytes: Vec<u8> = Vec::new();
    push_le32(&mut bytes, PCAP_MAGIC_LE);
    push_le16(&mut bytes, PCAP_VERSION_MAJOR);
    push_le16(&mut bytes, PCAP_VERSION_MINOR);
    push_le32(&mut bytes, 0);
    push_le32(&mut bytes, 0);
    push_le32(&mut bytes, PCAP_SNAPLEN);
    push_le32(&mut bytes, link_type.code());
    assert(bytes@ =~= capture_header(link_type));
    bytes
}

/// A packet in a capture, with the time that has passed since 1970.
pub fn packet_record(seconds: u64, micros: u32, packet: &[u8]) -> (result: Result<
    Vec<u8>,
    PacketTooLong,
>)
    ensures
        match result {
            Ok(bytes) => packet@.len() <= u32::MAX && bytes@ == capture_record(
                seconds,
                micros,
                packet@,
            ),
            Err(_) => packet@.len() > u32::MAX,
        },
{
    if packet.len() as u64 > u32::MAX as u64 {
        return Err(PacketTooLong);
    }
    let len: u32 = packet.len() as u32;
    let mut bytes: Vec<u8> = Vec::new();
    push_le32(&mut bytes, (seconds % 0x1_0000_0000) as u32);
    push_le32(&mut bytes, micros);
    push_le32(&mut bytes, len);
    push_le32(&mut bytes, len);
    bytes.extend_from_slice(packet);
    assert(bytes@ =~= capture_record(seconds, micros, packet@));
    Ok(bytes)
}

/// A packet is found again in its record, behind sixteen bytes that tell its
/// length.
pub proof fn law_record_holds_packet(seconds: u64, micros: u32, packet: Seq<u8>)
    requires
        packet.len() <= u32::MAX,
    ensures
        capture_record(seconds, micros, packet).skip(16) == packet,
        capture_record(seconds, micros, packet).subrange(8, 12) == le32(packet.len() as u32),
        capture_record(seconds, micros, packet).subrange(12, 16) == le32(packet.len() as u32),
        capture_header(PcapLinkType::Ethernet).len() == 24,
        capture_header(PcapLinkType::RawIpv4).len() == 24,
{
    let record = capture_record(seconds, micros, packet);
    assert(record.skip(16) =~= packet);
    assert(record.subrange(8, 12) =~= le32(packet.len() as u32));
    assert(record.subrange(12, 16) =~= le32(packet.len() as u32));
}

/// How a record is laid out: the seconds, the microseconds and the length twice,
/// each in four bytes with the lowest first, and the packet. Of the seconds the
/// lowest 32 bits are kept.
#[verifier::rlimit(30)]
pub proof fn law_record_is_laid_out(seconds: u64, micros: u32, packet: Seq<u8>)
    requires
        packet.len() <= u32::MAX,
    ensures
        ({
            let r = capture_record(seconds, micros, packet);
            &&& r.len() == 16 + packet.len()
            &&& r[0] + r[1] * 0x100 + r[2] * 0x1_0000 + r[3] * 0x100_0000 == seconds
                % 0x1_0000_0000
            &&& r[4] + r[5] * 0x100 + r[6] * 0x1_0000 + r[7] * 0x100_0000 == micros
            &&& r[8] + r[9] * 0x100 + r[10] * 0x1_0000 + r[11] * 0x100_0000 == packet.len()
            &&& r[12] + r[13] * 0x100 + r[14] * 0x1_0000 + r[15] * 0x100_0000 == packet.len()
            &&& r.skip(16) == packet
        }),
{
    let r = capture_record(seconds, micros, packet);
    let low = (seconds % 0x1_0000_0000) as u32;
    let len = packet.len() as u32;
    assert(r.skip(16) =~= packet);
    assert(r[0] == le32(low)[0] && r[1] == le32(low)[1] && r[2] == le32(low)[2] && r[3] == le32(
        low,
    )[3]);
    assert(r[4] == le32(micros)[0] && r[5] == le32(micros)[1] && r[6] == le32(micros)[2] && r[7]
        == le32(micros)[3]);
    assert(r[8] == le32(len)[0] && r[9] == le32(len)[1] && r[10] == le32(len)[2] && r[11] == le32(
        len,
    )[3]);
    assert(r[12] == le32(len)[0] && r[13] == le32(len)[1] && r[14] == le32(len)[2] && r[15]
        == le32(len)[3]);
}

/// How a capture begins: the magic number of captures with microseconds, version
/// 2.4, no offset of the time, packets of up to 65535 bytes, and the link type, 1
/// for Ethernet and 101 for bare packets.
pub proof fn law_capture_is_laid_out(link_type: PcapLinkType)
    ensures
        capture_header(link_type).take(20) == seq![
            0xd4u8,
            0xc3,
            0xb2,
            0xa1,
            2,
            0,
            4,
            0,
            0,
            0,
            0,
            0,
            0,
            0,
            0,
            0,
            0xff,
            0xff,
            0,
            0,
        ],
        capture_header(link_type).skip(20) == if link_type == PcapLinkType::Ethernet {
            seq![1u8, 0, 0, 0]
        } else {
            seq![101u8, 0, 0, 0]
        },
{
    let h = capture_header(link_type);
    assert(h.take(20) =~= seq![
        0xd4u8,
        0xc3,
        0xb2,
        0xa1,
        2,
        0,
        4,
        0,
        0,
        0,
        0,
        0,
        0,
        0,
        0,
        0,
        0xff,
        0xff,
        0,
        0,
    ]);
    if link_type == PcapLinkType::Ethernet {
        assert(h.skip(20) =~= seq![1u8, 0, 0, 0]);
    } else {
        assert(h.skip(20) =~= seq![101u8, 0, 0, 0]);
    }
}

} // verus!
