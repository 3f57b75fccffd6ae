//! IPv4 datagrams.
use crate::buffer::{be16, contents, join16, num16, put_u16, put_u8, set_u16, slice, written};
use crate::checksum::{
    checksum_of, internet_checksum, law_damaged_word_is_found, law_inserted_checksum_verifies,
    lemma_word_sum_bound, verify_internet_checksum, with_word,
};
use bytes::{Bytes, BytesMut};
use std::ops::Deref;
use vstd::prelude::*;

verus! {

pub const IPV4_HEADER_MIN_LEN: usize = 20;

pub const IPV4_PROTOCOL_ICMP: u8 = 1;

pub const IPV4_PROTOCOL_TCP: u8 = 6;

/// An IPv4 address.
#[derive(Debug, Clone, Copy, Eq, Hash)]
pub struct Ipv4AddrBytes(pub [u8; 4]);

impl PartialEq for Ipv4AddrBytes {
    fn eq(&self, other: &Self) -> (equal: bool) {
        same_address(self.0, other.0)
    }
}

impl vstd::std_specs::cmp::PartialEqSpecImpl for Ipv4AddrBytes {
    open spec fn obeys_eq_spec() -> bool {
        true
    }

    open spec fn eq_spec(&self, other: &Self) -> bool {
        *self == *other
    }
}

impl Ipv4AddrBytes {
    pub fn new(bytes: [u8; 4]) -> (address: Self)
        ensures
            address.0 == bytes,
    {
        Self(bytes)
    }

    pub fn octets(self) -> (bytes: [u8; 4])
        ensures
            bytes == self.0,
    {
        self.0
    }
}

impl From<[u8; 4]> for Ipv4AddrBytes {
    fn from(value: [u8; 4]) -> (address: Self) {
        Self(value)
    }
}

impl vstd::std_specs::convert::FromSpecImpl<[u8; 4]> for Ipv4AddrBytes {
    open spec fn obeys_from_spec() -> bool {
        true
    }

    open spec fn from_spec(value: [u8; 4]) -> Self {
        Ipv4AddrBytes(value)
    }
}

/// Whether two addresses are the same.
pub(crate) fn same_address(a: [u8; 4], b: [u8; 4]) -> (same: bool)
    ensures
        same == (a == b),
{
    let same = a[0] == b[0] && a[1] == b[1] && a[2] == b[2] && a[3] == b[3];
    proof {
        if same {
            assert(a =~= b);
        }
    }
    same
}

/// The fields of a header that vary from one datagram to another.
#[derive(Debug, Clone, Copy, PartialEq, Eq)]
pub struct Ipv4Header {
    pub src: Ipv4AddrBytes,
    pub dst: Ipv4AddrBytes,
    pub ttl: u8,
    pub protocol: u8,
    pub identification: u16,
    pub flags_fragment_offset: u16,
}

/// The header of a datagram that is not to be fragmented.
pub open spec fn plain_header(src: [u8; 4], dst: [u8; 4], protocol: u8) -> Ipv4Header {
    Ipv4Header {
        src: Ipv4AddrBytes(src),
        dst: Ipv4AddrBytes(dst),
        ttl: 64,
        protocol,
        identification: 0,
        flags_fragment_offset: 0x4000,
    }
}

impl Ipv4Header {
    pub fn new_tcp(src: [u8; 4], dst: [u8; 4]) -> (header: Self)
        ensures
            header == plain_header(src, dst, IPV4_PROTOCOL_TCP),
    {
        Self {
            src: Ipv4AddrBytes::new(src),
            dst: Ipv4AddrBytes::new(dst),
            ttl: 64,
            protocol: IPV4_PROTOCOL_TCP,
            identification: 0,
            flags_fragment_offset: 0x4000,
        }
    }
}

#[derive(Debug, PartialEq, Eq)]
pub struct Ipv4Datagram {
    pub header: Ipv4Header,
    pub payload: Bytes,
}

#[derive(Debug, Clone, Copy, PartialEq, Eq, Structural)]
pub enum Ipv4ParseError {
    PacketTooShort,
    NotIpv4,
    InvalidHeaderLength,
    InvalidTotalLength,
    InvalidChecksum,
}

impl Ipv4ParseError {
    /// The name of the error.
    pub open spec fn text(self) -> Seq<char> {
        match self {
            Ipv4ParseError::PacketTooShort => "PacketTooShort"@,
            Ipv4ParseError::NotIpv4 => "NotIpv4"@,
            Ipv4ParseError::InvalidHeaderLength => "InvalidHeaderLength"@,
            Ipv4ParseError::InvalidTotalLength => "InvalidTotalLength"@,
            Ipv4ParseError::InvalidChecksum => "InvalidChecksum"@,
        }
    }

    /// The name of the error.
    pub fn name(self) -> (name: &'static str)
        ensures
            name@ == self.text(),
    {
        match self {
            Self::PacketTooShort => "PacketTooShort",
            Self::NotIpv4 => "NotIpv4",
            Self::InvalidHeaderLength => "InvalidHeaderLength",
            Self::InvalidTotalLength => "InvalidTotalLength",
            Self::InvalidChecksum => "InvalidChecksum",
        }
    }
}

/// What an [`Ipv4Datagram`] holds.
#[verifier::ext_equal]
pub struct DatagramView {
    pub header: Ipv4Header,
    pub payload: Seq<u8>,
}

impl DatagramView {
    /// Whether the datagram is short enough to be sent.
    pub open spec fn fits(self) -> bool {
        IPV4_HEADER_MIN_LEN + self.payload.len() <= u16::MAX
    }
}

impl View for Ipv4Datagram {
    type V = DatagramView;

    open spec fn view(&self) -> DatagramView {
        DatagramView { header: self.header, payload: contents(self.payload) }
    }
}

/// A header of five words as it is sent.
pub open spec fn header_bytes(header: Ipv4Header, total_len: u16, checksum: u16) -> Seq<u8> {
    seq![0x45u8, 0u8] + be16(total_len) + be16(header.identification) + be16(
        header.flags_fragment_offset,
    ) + seq![header.ttl, header.protocol] + be16(checksum) + header.src.0@ + header.dst.0@
}

/// A datagram as it is sent: the header, with the checksum of the header, and
/// the payload.
pub open spec fn datagram_bytes(datagram: DatagramView) -> Seq<u8> {
    let total_len = (IPV4_HEADER_MIN_LEN + datagram.payload.len()) as u16;
    let checksum = checksum_of(header_bytes(datagram.header, total_len, 0));
    header_bytes(datagram.header, total_len, checksum) + datagram.payload
}

/// How long the header of a packet is.
pub open spec fn header_len(packet: Seq<u8>) -> int {
    packet[0] as int % 16 * 4
}

/// How long a packet is, as its header says.
pub open spec fn total_len(packet: Seq<u8>) -> int {
    num16(packet[2], packet[3])
}

/// Why some bytes are no datagram, if they are none.
pub open spec fn ipv4_rejection(packet: Seq<u8>) -> Option<Ipv4ParseError> {
    if packet.len() < IPV4_HEADER_MIN_LEN {
        Some(Ipv4ParseError::PacketTooShort)
    } else if packet[0] as int / 16 != 4 {
        Some(Ipv4ParseError::NotIpv4)
    } else if header_len(packet) < IPV4_HEADER_MIN_LEN || header_len(packet) > packet.len() {
        Some(Ipv4ParseError::InvalidHeaderLength)
    } else if total_len(packet) < header_len(packet) || total_len(packet) > packet.len() {
        Some(Ipv4ParseError::InvalidTotalLength)
    } else if checksum_of(packet.take(header_len(packet))) != 0 {
        Some(Ipv4ParseError::InvalidChecksum)
    } else {
        None
    }
}

/// The datagram with which some bytes begin. Options of the header are passed
/// over.
pub open spec fn ipv4_parsed(packet: Seq<u8>) -> DatagramView {
    DatagramView {
        header: Ipv4Header {
            src: Ipv4AddrBytes([packet[12], packet[13], packet[14], packet[15]]),
            dst: Ipv4AddrBytes([packet[16], packet[17], packet[18], packet[19]]),
            ttl: packet[8],
            protocol: packet[9],
            identification: num16(packet[4], packet[5]) as u16,
            flags_fragment_offset: num16(packet[6], packet[7]) as u16,
        },
        payload: packet.subrange(header_len(packet), total_len(packet)),
    }
}

impl Clone for Ipv4Datagram {
    fn clone(&self) -> (copy: Self)
        ensures
            copy@ == self@,
    {
        Self { header: self.header, payload: self.payload.clone() }
    }
}

impl Ipv4Datagram {
    pub fn new_tcp(src: [u8; 4], dst: [u8; 4], payload: Bytes) -> (datagram: Self)
        ensures
            datagram@ == (DatagramView {
                header: plain_header(src, dst, IPV4_PROTOCOL_TCP),
                payload: contents(payload),
            }),
    {
        Self { header: Ipv4Header::new_tcp(src, dst), payload }
    }

    pub fn new_icmp(src: [u8; 4], dst: [u8; 4], payload: Bytes) -> (datagram: Self)
        ensures
            datagram@ == (DatagramView {
                header: plain_header(src, dst, IPV4_PROTOCOL_ICMP),
                payload: contents(payload),
            }),
    {
        let mut header = Ipv4Header::new_tcp(src, dst);
        header.protocol = IPV4_PROTOCOL_ICMP;
        Self { header, payload }
    }

    pub fn serialize(&self) -> (bytes: Bytes)
        requires
            self@.fits(),
        ensures
            contents(bytes) == datagram_bytes(self@),
    {
        let total_len: usize = IPV4_HEADER_MIN_LEN + self.payload.len();
        let mut buffer = BytesMut::with_capacity(total_len);
        put_u8(&mut buffer, 0x45);
        put_u8(&mut buffer, 0);
        put_u16(&mut buffer, total_len as u16);
        put_u16(&mut buffer, self.header.identification);
        put_u16(&mut buffer, self.header.flags_fragment_offset);
        put_u8(&mut buffer, self.header.ttl);
        put_u8(&mut buffer, self.header.protocol);
        put_u16(&mut buffer, 0);
        buffer.extend_from_slice(&self.header.src.0);
        buffer.extend_from_slice(&self.header.dst.0);
        let ghost blank = header_bytes(self.header, total_len as u16, 0);
        assert(written(buffer) =~= blank);
        proof {
            lemma_word_sum_bound(blank);
        }
        let checksum: u16 = internet_checksum(buffer.deref());
        set_u16(&mut buffer, 10, checksum);
        assert(written(buffer) =~= header_bytes(self.header, total_len as u16, checksum));
        buffer.extend_from_slice(self.payload.deref());
        buffer.freeze()
    }

    pub fn parse(packet: &[u8]) -> (result: Result<Self, Ipv4ParseError>)
        ensures
            match result {
                Ok(datagram) => ipv4_rejection(packet@) is None && datagram@ == ipv4_parsed(
                    packet@,
                ),
                Err(error) => ipv4_rejection(packet@) == Some(error),
            },
    {
        Self::parse_bytes(Bytes::copy_from_slice(packet))
    }

    /// The datagram with which some bytes begin.
    pub fn parse_bytes(packet: Bytes) -> (result: Result<Self, Ipv4ParseError>)
        ensures
            match result {
                Ok(datagram) => ipv4_rejection(contents(packet)) is None && datagram@
                    == ipv4_parsed(contents(packet)),
                Err(error) => ipv4_rejection(contents(packet)) == Some(error),
            },
    {
        if packet.len() < IPV4_HEADER_MIN_LEN {
            return Err(Ipv4ParseError::PacketTooShort);
        }
        let p = packet.deref();
        let version: u8 = p[0] / 16;
        let ihl: u8 = p[0] % 16;
        if version != 4 {
            return Err(Ipv4ParseError::NotIpv4);
        }
        let header_len: usize = ihl as usize * 4;
        if header_len < IPV4_HEADER_MIN_LEN || header_len > packet.len() {
            return Err(Ipv4ParseError::InvalidHeaderLength);
        }
        let total_len: usize = join16(p[2], p[3]) as usize;
        if total_len < header_len || total_len > packet.len() {
            return Err(Ipv4ParseError::InvalidTotalLength);
        }
        let header_part = vstd::slice::slice_subrange(p, 0, header_len);
        proof {
            lemma_word_sum_bound(header_part@);
            assert(header_part@ =~= contents(packet).take(header_len as int));
        }
        if !verify_internet_checksum(header_part) {
            return Err(Ipv4ParseError::InvalidChecksum);
        }
        let header = Ipv4Header {
            identification: join16(p[4], p[5]),
            flags_fragment_offset: join16(p[6], p[7]),
            ttl: p[8],
            protocol: p[9],
            src: Ipv4AddrBytes::new([p[12], p[13], p[14], p[15]]),
            dst: Ipv4AddrBytes::new([p[16], p[17], p[18], p[19]]),
        };
        let payload = slice(&packet, header_len, total_len);
        Ok(Self { header, payload })
    }
}

/// What is sent is what is received: the bytes of a datagram, whatever follows
/// them, are accepted, and give the datagram back.
pub proof fn law_ipv4_round_trip(datagram: DatagramView, trailing: Seq<u8>)
    requires
        datagram.fits(),
    ensures
        ipv4_rejection(datagram_bytes(datagram) + trailing) is None,
        ipv4_parsed(datagram_bytes(datagram) + trailing) == datagram,
{
    let header = datagram.header;
    let len = (IPV4_HEADER_MIN_LEN + datagram.payload.len()) as u16;
    let blank = header_bytes(header, len, 0);
    let checksum = checksum_of(blank);
    let full = header_bytes(header, len, checksum);
    let all = datagram_bytes(datagram) + trailing;
    law_inserted_checksum_verifies(blank, 10);
    assert(with_word(blank, 10, checksum) =~= full);
    assert(all.take(20) =~= full);
    assert forall|i: int| 0 <= i < 20 implies all[i] == full[i] by {}
    assert(full[0] == 0x45 && full[2] == be16(len)[0] && full[3] == be16(len)[1]);
    assert(full[4] == be16(header.identification)[0] && full[5] == be16(header.identification)[1]);
    assert(full[6] == be16(header.flags_fragment_offset)[0] && full[7] == be16(
        header.flags_fragment_offset,
    )[1]);
    assert(full[8] == header.ttl && full[9] == header.protocol);
    let parsed = ipv4_parsed(all);
    assert(parsed.header.src.0 =~= header.src.0) by {
        assert(full[12] == header.src.0[0] && full[13] == header.src.0[1] && full[14]
            == header.src.0[2] && full[15] == header.src.0[3]);
    }
    assert(parsed.header.dst.0 =~= header.dst.0) by {
        assert(full[16] == header.dst.0[0] && full[17] == header.dst.0[1] && full[18]
            == header.dst.0[2] && full[19] == header.dst.0[3]);
    }
    assert(parsed.payload =~= datagram.payload);
}

/// Damage to one word of a header, behind the lengths, is found.
pub proof fn law_damaged_header_is_refused(packet: Seq<u8>, index: int, word: u16)
    requires
        ipv4_rejection(packet) is None,
        4 <= index,
        index % 2 == 0,
        index + 2 <= header_len(packet),
        word != num16(packet[index], packet[index + 1]),
        !(word == 0 && num16(packet[index], packet[index + 1]) == 0xffff),
        !(word == 0xffff && num16(packet[index], packet[index + 1]) == 0),
    ensures
        ipv4_rejection(with_word(packet, index, word)) == Some(Ipv4ParseError::InvalidChecksum),
{
    let header = packet.take(header_len(packet));
    let damaged = with_word(packet, index, word);
    law_damaged_word_is_found(header, index, word);
    assert(damaged.take(header_len(packet)) =~= with_word(header, index, word));
}

/// Where the fields of a datagram are read, in any packet that is accepted. The
/// payload lies between the end of the header, whose length in words is in the
/// lower half of the first byte, and the end of the datagram, which the header
/// tells; whatever follows is passed over.
pub proof fn law_fields_stand_at_their_places(packet: Seq<u8>)
    requires
        packet.len() >= 20,
    ensures
        ({
            let parsed = ipv4_parsed(packet);
            let begin = (packet[0] & 0x0f) as int * 4;
            let end = packet[2] * 256 + packet[3];
            &&& parsed.header.src.0@ == packet.subrange(12, 16)
            &&& parsed.header.dst.0@ == packet.subrange(16, 20)
            &&& parsed.header.ttl == packet[8]
            &&& parsed.header.protocol == packet[9]
            &&& parsed.header.identification == packet[4] * 256 + packet[5]
            &&& parsed.header.flags_fragment_offset == packet[6] * 256 + packet[7]
            &&& parsed.payload == packet.subrange(begin, end)
        }),
{
    let first = packet[0];
    assert(first & 0x0f == first % 16) by (bit_vector);
    let parsed = ipv4_parsed(packet);
    assert(parsed.header.src.0@ =~= packet.subrange(12, 16));
    assert(parsed.header.dst.0@ =~= packet.subrange(16, 20));
}

/// What of a packet does not matter for what is read from it: the type of
/// service, the checksum, the options, and what follows the datagram.
pub proof fn law_other_bytes_do_not_matter(a: Seq<u8>, b: Seq<u8>)
    requires
        ipv4_rejection(a) is None,
        ipv4_rejection(b) is None,
        a[0] == b[0],
        a.subrange(2, 10) == b.subrange(2, 10),
        a.subrange(12, 20) == b.subrange(12, 20),
        a.subrange((a[0] & 0x0f) as int * 4, a[2] * 256 + a[3]) == b.subrange(
            (a[0] & 0x0f) as int * 4,
            a[2] * 256 + a[3],
        ),
    ensures
        ipv4_parsed(a) == ipv4_parsed(b),
{
    law_fields_stand_at_their_places(a);
    law_fields_stand_at_their_places(b);
    assert forall|i: int| 2 <= i < 10 implies #[trigger] a[i] == b[i] by {
        assert(a.subrange(2, 10)[i - 2] == a[i]);
        assert(b.subrange(2, 10)[i - 2] == b[i]);
    }
    assert forall|i: int| 12 <= i < 20 implies #[trigger] a[i] == b[i] by {
        assert(a.subrange(12, 20)[i - 12] == a[i]);
        assert(b.subrange(12, 20)[i - 12] == b[i]);
    }
    assert(ipv4_parsed(a).header.src.0 =~= ipv4_parsed(b).header.src.0);
    assert(ipv4_parsed(a).header.dst.0 =~= ipv4_parsed(b).header.dst.0);
}

/// Which bytes begin with a datagram: at least twenty, of version 4, with a header
/// of at least five words and a datagram of at least the header within them, and
/// with the right checksum of the header. What is missing first is what is told.
pub proof fn law_which_bytes_are_a_datagram(packet: Seq<u8>)
    ensures
        ({
            let told = ipv4_rejection(packet);
            let begin = (packet[0] & 0x0f) as int * 4;
            let end = packet[2] * 256 + packet[3];
            let long = packet.len() >= 20;
            let version = long && packet[0] >> 4 == 4;
            let header = version && 20 <= begin <= packet.len();
            let total = header && begin <= end <= packet.len();
            let intact = total && checksum_of(packet.take(begin)) == 0;
            &&& told == Some(Ipv4ParseError::PacketTooShort) <==> !long
            &&& told == Some(Ipv4ParseError::NotIpv4) <==> long && !version
            &&& told == Some(Ipv4ParseError::InvalidHeaderLength) <==> version && !header
            &&& told == Some(Ipv4ParseError::InvalidTotalLength) <==> header && !total
            &&& told == Some(Ipv4ParseError::InvalidChecksum) <==> total && !intact
            &&& told is None <==> intact
        }),
{
    if packet.len() >= 20 {
        let first = packet[0];
        assert(first & 0x0f == first % 16 && first >> 4 == first / 16) by (bit_vector);
    }
}

/// How a datagram is laid out as it is sent: twenty bytes of header, without
/// options and with the checksum of the header, and the payload.
#[verifier::rlimit(30)]
pub proof fn law_datagram_is_laid_out(datagram: DatagramView)
    requires
        datagram.fits(),
    ensures
        ({
            let bytes = datagram_bytes(datagram);
            let header = datagram.header;
            &&& bytes.len() == 20 + datagram.payload.len()
            &&& bytes[0] == 0x45
            &&& bytes[1] == 0
            &&& bytes[2] * 256 + bytes[3] == 20 + datagram.payload.len()
            &&& bytes[4] * 256 + bytes[5] == header.identification
            &&& bytes[6] * 256 + bytes[7] == header.flags_fragment_offset
            &&& bytes[8] == header.ttl
            &&& bytes[9] == header.protocol
            &&& bytes.subrange(12, 16) == header.src.0@
            &&& bytes.subrange(16, 20) == header.dst.0@
            &&& checksum_of(bytes.take(20)) == 0
            &&& bytes.skip(20) == datagram.payload
        }),
{
    let bytes = datagram_bytes(datagram);
    law_ipv4_round_trip(datagram, Seq::empty());
    assert(bytes + Seq::<u8>::empty() =~= bytes);
    law_fields_stand_at_their_places(bytes);
    assert(bytes[0] == 0x45);
    assert(bytes.skip(20) =~= datagram.payload);
}

/// A datagram that is not to be fragmented goes from and to the given addresses,
/// with 64 hops to live.
pub proof fn law_plain_header(src: [u8; 4], dst: [u8; 4], protocol: u8)
    ensures
        plain_header(src, dst, protocol).src.0 == src,
        plain_header(src, dst, protocol).dst.0 == dst,
        plain_header(src, dst, protocol).protocol == protocol,
        plain_header(src, dst, protocol).ttl == 64,
        plain_header(src, dst, protocol).identification == 0,
        plain_header(src, dst, protocol).flags_fragment_offset == 0x4000,
{
}

/// A datagram can be sent exactly if it takes no more than 65535 bytes with its
/// header, and everything that is received can be sent.
pub proof fn law_which_datagrams_fit(datagram: DatagramView, packet: Seq<u8>)
    ensures
        datagram.fits() <==> datagram.payload.len() <= 65515,
        ipv4_rejection(packet) is None ==> ipv4_parsed(packet).fits(),
{
}

/// What is told of bytes that are no datagram.
pub proof fn law_what_is_told_of_packets()
    ensures
        Ipv4ParseError::PacketTooShort.text() == "PacketTooShort"@,
        Ipv4ParseError::NotIpv4.text() == "NotIpv4"@,
        Ipv4ParseError::InvalidHeaderLength.text() == "InvalidHeaderLength"@,
        Ipv4ParseError::InvalidTotalLength.text() == "InvalidTotalLength"@,
        Ipv4ParseError::InvalidChecksum.text() == "InvalidChecksum"@,
{
}

} // verus!
