//! TCP segments.
use crate::buffer::{
    be16, be32, contents, join16, join32, lemma_be16, lemma_be32, num16, num32, put_u16, put_u32,
    set_u16, slice, written,
};
use crate::checksum::{
    law_damaged_segment_word_is_found, law_inserted_tcp_checksum_verifies, tcp_checksum_ipv4,
    tcp_checksum_of, with_word,
};
use crate::tcp_message::{flag, SenderMessageView, TcpReceiverMessage, TcpSenderMessage};
use crate::wrapping_integers::Wrap32;
use bytes::{Bytes, BytesMut};
use std::ops::Deref;
use vstd::prelude::*;

verus! {

pub const TCP_HEADER_MIN_LEN: usize = 20;

const TCP_FLAG_FIN: u16 = 0x001;

const TCP_FLAG_SYN: u16 = 0x002;

const TCP_FLAG_RST: u16 = 0x004;

const TCP_FLAG_ACK: u16 = 0x010;

#[derive(Debug, Clone, Copy, PartialEq, Eq)]
pub struct TcpHeader {
    pub src_port: u16,
    pub dst_port: u16,
    pub seqno: Wrap32,
    pub ackno: Option<Wrap32>,
    pub window_size: u16,
    pub syn: bool,
    pub fin: bool,
    pub rst: bool,
}

/// The flags of a header as a number: FIN, SYN, RST and ACK are the bits 0, 1, 2
/// and 4.
pub open spec fn flag_bits(header: TcpHeader) -> nat {
    flag(header.fin) + 2 * flag(header.syn) + 4 * flag(header.rst) + 16 * flag(
        header.ackno is Some,
    )
}

impl TcpHeader {
    pub fn flags(&self) -> (flags: u16)
        ensures
            flags == flag_bits(*self),
    {
        let mut flags: u16 = 0;
        if self.fin {
            flags = flags + TCP_FLAG_FIN;
        }
        if self.syn {
            flags = flags + TCP_FLAG_SYN;
        }
        if self.rst {
            flags = flags + TCP_FLAG_RST;
        }
        if self.ackno.is_some() {
            flags = flags + TCP_FLAG_ACK;
        }
        flags
    }
}

#[derive(Debug, PartialEq, Eq)]
pub struct TcpSegment {
    pub header: TcpHeader,
    pub payload: Bytes,
}

#[derive(Debug, Clone, Copy, PartialEq, Eq, Structural)]
pub enum TcpParseError {
    SegmentTooShort,
    InvalidDataOffset,
    InvalidChecksum,
}

impl TcpParseError {
    /// The name of the error.
    pub open spec fn text(self) -> Seq<char> {
        match self {
            TcpParseError::SegmentTooShort => "SegmentTooShort"@,
            TcpParseError::InvalidDataOffset => "InvalidDataOffset"@,
            TcpParseError::InvalidChecksum => "InvalidChecksum"@,
        }
    }

    /// The name of the error.
    pub fn name(self) -> (name: &'static str)
        ensures
            name@ == self.text(),
    {
        match self {
            Self::SegmentTooShort => "SegmentTooShort",
            Self::InvalidDataOffset => "InvalidDataOffset",
            Self::InvalidChecksum => "InvalidChecksum",
        }
    }
}

/// What a [`TcpSegment`] holds.
#[verifier::ext_equal]
pub struct TcpSegmentView {
    pub header: TcpHeader,
    pub payload: Seq<u8>,
}

impl TcpSegmentView {
    /// Whether the segment is short enough to be sent in an IPv4 datagram, with
    /// its length in 16 bits.
    pub open spec fn fits(self) -> bool {
        TCP_HEADER_MIN_LEN + self.payload.len() <= u16::MAX
    }

    /// What the segment says to the receiver of the other side.
    pub open spec fn sender_message(self) -> SenderMessageView {
        SenderMessageView {
            seqno: self.header.seqno,
            syn: self.header.syn,
            payload: self.payload,
            fin: self.header.fin,
            rst: self.header.rst,
        }
    }

    /// What the segment says to the sender of the other side.
    pub open spec fn receiver_message(self) -> TcpReceiverMessage {
        TcpReceiverMessage {
            ackno: self.header.ackno,
            window_size: self.header.window_size,
            rst: self.header.rst,
        }
    }
}

impl View for TcpSegment {
    type V = TcpSegmentView;

    open spec fn view(&self) -> TcpSegmentView {
        TcpSegmentView { header: self.header, payload: contents(self.payload) }
    }
}

/// The segment that carries a message of the sender, and with it what the
/// receiver has to say.
pub open spec fn segment_from(
    src_port: u16,
    dst_port: u16,
    sender: SenderMessageView,
    receiver: Option<TcpReceiverMessage>,
) -> TcpSegmentView {
    TcpSegmentView {
        header: TcpHeader {
            src_port,
            dst_port,
            seqno: sender.seqno,
            ackno: match receiver {
                Some(message) => message.ackno,
                None => None,
            },
            window_size: match receiver {
                Some(message) => message.window_size,
                None => 0,
            },
            syn: sender.syn,
            fin: sender.fin,
            rst: sender.rst || (receiver matches Some(message) && message.rst),
        },
        payload: sender.payload,
    }
}

/// The number in the place of the acknowledgement.
pub open spec fn ack_number(header: TcpHeader) -> u32 {
    match header.ackno {
        Some(ackno) => ackno.0,
        None => 0,
    }
}

/// A segment as it is sent, with a given checksum. The header has five words.
pub open spec fn segment_bytes_with(segment: TcpSegmentView, checksum: u16) -> Seq<u8> {
    be16(segment.header.src_port) + be16(segment.header.dst_port) + be32(segment.header.seqno.0)
        + be32(ack_number(segment.header)) + be16((0x5000 + flag_bits(segment.header)) as u16)
        + be16(segment.header.window_size) + be16(checksum) + be16(0) + segment.payload
}

/// A segment as it is sent between two addresses.
pub open spec fn segment_bytes(segment: TcpSegmentView, src_ip: Seq<u8>, dst_ip: Seq<u8>) -> Seq<
    u8,
> {
    segment_bytes_with(
        segment,
        tcp_checksum_of(src_ip, dst_ip, segment_bytes_with(segment, 0)),
    )
}

/// How long the header of a segment is.
pub open spec fn tcp_header_len(segment: Seq<u8>) -> int {
    segment[12] as int / 16 * 4
}

/// Why some bytes are no segment between two addresses, if they are none.
pub open spec fn tcp_rejection(src_ip: Seq<u8>, dst_ip: Seq<u8>, segment: Seq<u8>) -> Option<
    TcpParseError,
> {
    if segment.len() < TCP_HEADER_MIN_LEN {
        Some(TcpParseError::SegmentTooShort)
    } else if tcp_checksum_of(src_ip, dst_ip, segment) != 0 {
        Some(TcpParseError::InvalidChecksum)
    } else if tcp_header_len(segment) < TCP_HEADER_MIN_LEN || tcp_header_len(segment)
        > segment.len() {
        Some(TcpParseError::InvalidDataOffset)
    } else {
        None
    }
}

/// The segment that some bytes are. Options of the header are passed over.
pub open spec fn tcp_parsed(segment: Seq<u8>) -> TcpSegmentView {
    let flags = segment[13] as int;
    TcpSegmentView {
        header: TcpHeader {
            src_port: num16(segment[0], segment[1]) as u16,
            dst_port: num16(segment[2], segment[3]) as u16,
            seqno: Wrap32(num32(segment[4], segment[5], segment[6], segment[7]) as u32),
            ackno: if flags / 16 % 2 == 1 {
                Some(Wrap32(num32(segment[8], segment[9], segment[10], segment[11]) as u32))
            } else {
                None
            },
            window_size: num16(segment[14], segment[15]) as u16,
            syn: flags / 2 % 2 == 1,
            fin: flags % 2 == 1,
            rst: flags / 4 % 2 == 1,
        },
        payload: segment.skip(tcp_header_len(segment)),
    }
}

impl Clone for TcpSegment {
    fn clone(&self) -> (copy: Self)
        ensures
            copy@ == self@,
    {
        Self { header: self.header, payload: self.payload.clone() }
    }
}

impl TcpSegment {
    pub fn new(header: TcpHeader, payload: Bytes) -> (segment: Self)
        ensures
            segment@ == (TcpSegmentView { header, payload: contents(payload) }),
    {
        Self { header, payload }
    }

    /// Puts a message of the sender and what the receiver has to say into one
    /// segment.
    pub fn from_messages(
        src_port: u16,
        dst_port: u16,
        sender: &TcpSenderMessage,
        receiver: Option<TcpReceiverMessage>,
    ) -> (segment: Self)
        ensures
            segment@ == segment_from(src_port, dst_port, sender@, receiver),
    {
        let (ackno, window_size, refused) = match receiver {
            Some(message) => (message.ackno, message.window_size, message.rst),
            None => (None, 0, false),
        };
        Self {
            header: TcpHeader {
                src_port,
                dst_port,
                seqno: sender.seqno,
                ackno,
                window_size,
                syn: sender.syn,
                fin: sender.fin,
                rst: sender.rst || refused,
            },
            payload: sender.payload.clone(),
        }
    }

    pub fn to_sender_message(&self) -> (message: TcpSenderMessage)
        ensures
            message@ == self@.sender_message(),
    {
        TcpSenderMessage {
            seqno: self.header.seqno,
            syn: self.header.syn,
            payload: self.payload.clone(),
            fin: self.header.fin,
            rst: self.header.rst,
        }
    }

    pub fn to_receiver_message(&self) -> (message: TcpReceiverMessage)
        ensures
            message == self@.receiver_message(),
    {
        TcpReceiverMessage {
            ackno: self.header.ackno,
            window_size: self.header.window_size,
            rst: self.header.rst,
        }
    }

    pub fn serialize_ipv4(&self, src_ip: [u8; 4], dst_ip: [u8; 4]) -> (bytes: Bytes)
        requires
            self@.fits(),
        ensures
            contents(bytes) == segment_bytes(self@, src_ip@, dst_ip@),
    {
        let mut buffer = BytesMut::with_capacity(TCP_HEADER_MIN_LEN + self.payload.len());
        put_u16(&mut buffer, self.header.src_port);
        put_u16(&mut buffer, self.header.dst_port);
        put_u32(&mut buffer, self.header.seqno.raw_value());
        let raw_ackno: u32 = match self.header.ackno {
            Some(ackno) => ackno.raw_value(),
            None => 0,
        };
        put_u32(&mut buffer, raw_ackno);
        put_u16(&mut buffer, 0x5000 + self.header.flags());
        put_u16(&mut buffer, self.header.window_size);
        put_u16(&mut buffer, 0);
        put_u16(&mut buffer, 0);
        buffer.extend_from_slice(self.payload.deref());
        assert(written(buffer) =~= segment_bytes_with(self@, 0));
        let checksum: u16 = tcp_checksum_ipv4(src_ip, dst_ip, buffer.deref());
        set_u16(&mut buffer, 16, checksum);
        proof {
            lemma_checksum_put_in(self@, checksum);
        }
        buffer.freeze()
    }

    pub fn parse_ipv4(src_ip: [u8; 4], dst_ip: [u8; 4], segment: &[u8]) -> (result: Result<
        Self,
        TcpParseError,
    >)
        requires
            segment@.len() <= u16::MAX,
        ensures
            match result {
                Ok(parsed) => tcp_rejection(src_ip@, dst_ip@, segment@) is None && parsed@
                    == tcp_parsed(segment@),
                Err(error) => tcp_rejection(src_ip@, dst_ip@, segment@) == Some(error),
            },
    {
        Self::parse_ipv4_bytes(src_ip, dst_ip, Bytes::copy_from_slice(segment))
    }

    /// The segment that some bytes are, sent between two addresses.
    pub fn parse_ipv4_bytes(src_ip: [u8; 4], dst_ip: [u8; 4], segment: Bytes) -> (result: Result<
        Self,
        TcpParseError,
    >)
        requires
            contents(segment).len() <= u16::MAX,
        ensures
            match result {
                Ok(parsed) => tcp_rejection(src_ip@, dst_ip@, contents(segment)) is None && parsed@
                    == tcp_parsed(contents(segment)),
                Err(error) => tcp_rejection(src_ip@, dst_ip@, contents(segment)) == Some(error),
            },
    {
        if segment.len() < TCP_HEADER_MIN_LEN {
            return Err(TcpParseError::SegmentTooShort);
        }
        let s = segment.deref();
        if tcp_checksum_ipv4(src_ip, dst_ip, s) != 0 {
            return Err(TcpParseError::InvalidChecksum);
        }
        let data_offset: u8 = s[12] / 16;
        let header_len: usize = data_offset as usize * 4;
        if header_len < TCP_HEADER_MIN_LEN || header_len > segment.len() {
            return Err(TcpParseError::InvalidDataOffset);
        }
        let flags: u8 = s[13];
        let ackno = if flags / 16 % 2 == 1 {
            Some(Wrap32::new(join32(s[8], s[9], s[10], s[11])))
        } else {
            None
        };
        let header = TcpHeader {
            src_port: join16(s[0], s[1]),
            dst_port: join16(s[2], s[3]),
            seqno: Wrap32::new(join32(s[4], s[5], s[6], s[7])),
            ackno,
            window_size: join16(s[14], s[15]),
            syn: flags / 2 % 2 == 1,
            fin: flags % 2 == 1,
            rst: flags / 4 % 2 == 1,
        };
        let payload = slice(&segment, header_len, segment.len());
        let parsed = Self { header, payload };
        assert(parsed@.payload =~= tcp_parsed(contents(segment)).payload);
        Ok(parsed)
    }
}

/// Putting the checksum in its place changes nothing else.
proof fn lemma_checksum_put_in(segment: TcpSegmentView, checksum: u16)
    ensures
        with_word(segment_bytes_with(segment, 0), 16, checksum) == segment_bytes_with(
            segment,
            checksum,
        ),
        segment_bytes_with(segment, 0).len() == 20 + segment.payload.len(),
        segment_bytes_with(segment, 0)[16] == 0,
        segment_bytes_with(segment, 0)[17] == 0,
{
    assert(with_word(segment_bytes_with(segment, 0), 16, checksum) =~= segment_bytes_with(
        segment,
        checksum,
    ));
}

/// A segment takes its payload and twenty bytes more.
pub proof fn lemma_segment_len(segment: TcpSegmentView, src_ip: Seq<u8>, dst_ip: Seq<u8>)
    ensures
        segment_bytes(segment, src_ip, dst_ip).len() == 20 + segment.payload.len(),
{
}

/// Where the bytes of the fields of a segment stand, whatever its checksum is.
proof fn lemma_segment_layout(segment: TcpSegmentView, checksum: u16)
    ensures
        ({
            let bytes = segment_bytes_with(segment, checksum);
            let header = segment.header;
            &&& bytes.len() == 20 + segment.payload.len()
            &&& bytes.subrange(0, 2) == be16(header.src_port)
            &&& bytes.subrange(2, 4) == be16(header.dst_port)
            &&& bytes.subrange(4, 8) == be32(header.seqno.0)
            &&& bytes.subrange(8, 12) == be32(ack_number(header))
            &&& bytes.subrange(12, 14) == be16((0x5000 + flag_bits(header)) as u16)
            &&& bytes.subrange(14, 16) == be16(header.window_size)
            &&& bytes.skip(20) == segment.payload
        }),
{
    let bytes = segment_bytes_with(segment, checksum);
    let header = segment.header;
    assert(bytes.subrange(0, 2) =~= be16(header.src_port));
    assert(bytes.subrange(2, 4) =~= be16(header.dst_port));
    assert(bytes.subrange(4, 8) =~= be32(header.seqno.0));
    assert(bytes.subrange(8, 12) =~= be32(ack_number(header)));
    assert(bytes.subrange(12, 14) =~= be16((0x5000 + flag_bits(header)) as u16));
    assert(bytes.subrange(14, 16) =~= be16(header.window_size));
    assert(bytes.skip(20) =~= segment.payload);
}

/// What the fields of a segment are, whatever its checksum is.
proof fn lemma_segment_fields(segment: TcpSegmentView, bytes: Seq<u8>)
    requires
        bytes.len() >= 20,
        bytes.subrange(0, 2) == be16(segment.header.src_port),
        bytes.subrange(2, 4) == be16(segment.header.dst_port),
        bytes.subrange(4, 8) == be32(segment.header.seqno.0),
        bytes.subrange(8, 12) == be32(ack_number(segment.header)),
        bytes.subrange(12, 14) == be16((0x5000 + flag_bits(segment.header)) as u16),
        bytes.subrange(14, 16) == be16(segment.header.window_size),
        bytes.skip(20) == segment.payload,
    ensures
        tcp_header_len(bytes) == 20,
        tcp_parsed(bytes) == segment,
{
    let header = segment.header;
    let word = (0x5000 + flag_bits(header)) as u16;
    lemma_flag_bits(header);
    lemma_be16(header.src_port);
    lemma_be16(header.dst_port);
    lemma_be32(header.seqno.0);
    lemma_be32(ack_number(header));
    lemma_be16(header.window_size);
    assert(bytes[0] == bytes.subrange(0, 2)[0] && bytes[1] == bytes.subrange(0, 2)[1]);
    assert(bytes[2] == bytes.subrange(2, 4)[0] && bytes[3] == bytes.subrange(2, 4)[1]);
    assert(bytes[4] == bytes.subrange(4, 8)[0] && bytes[5] == bytes.subrange(4, 8)[1]);
    assert(bytes[6] == bytes.subrange(4, 8)[2] && bytes[7] == bytes.subrange(4, 8)[3]);
    assert(bytes[8] == bytes.subrange(8, 12)[0] && bytes[9] == bytes.subrange(8, 12)[1]);
    assert(bytes[10] == bytes.subrange(8, 12)[2] && bytes[11] == bytes.subrange(8, 12)[3]);
    assert(bytes[12] == bytes.subrange(12, 14)[0] && bytes[13] == bytes.subrange(12, 14)[1]);
    assert(bytes[14] == bytes.subrange(14, 16)[0] && bytes[15] == bytes.subrange(14, 16)[1]);
    assert(word / 256 == 0x50 && word % 256 == flag_bits(header));
}

/// The flags can be told from their bits.
proof fn lemma_flag_bits(header: TcpHeader)
    ensures
        flag_bits(header) < 32,
        (flag_bits(header) % 2 == 1) == header.fin,
        (flag_bits(header) / 2 % 2 == 1) == header.syn,
        (flag_bits(header) / 4 % 2 == 1) == header.rst,
        (flag_bits(header) / 16 % 2 == 1) == (header.ackno is Some),
{
}

/// What is sent is what is received: the bytes of a segment are accepted between
/// the addresses between which it was sent, and give the segment back.
pub proof fn law_tcp_round_trip(segment: TcpSegmentView, src_ip: Seq<u8>, dst_ip: Seq<u8>)
    requires
        src_ip.len() == 4,
        dst_ip.len() == 4,
        segment.fits(),
    ensures
        tcp_rejection(src_ip, dst_ip, segment_bytes(segment, src_ip, dst_ip)) is None,
        tcp_parsed(segment_bytes(segment, src_ip, dst_ip)) == segment,
{
    let full = segment_bytes(segment, src_ip, dst_ip);
    let checksum = tcp_checksum_of(src_ip, dst_ip, segment_bytes_with(segment, 0));
    lemma_segment_layout(segment, checksum);
    lemma_segment_fields(segment, full);
    assert(tcp_checksum_of(src_ip, dst_ip, full) == 0) by {
        lemma_checksum_put_in(segment, checksum);
        law_inserted_tcp_checksum_verifies(
            src_ip,
            dst_ip,
            segment_bytes_with(segment, 0),
            16,
        );
    }
}

/// A segment carries the messages that were put into it to the other side, where
/// no reset is raised. A reset of either goes to both.
pub proof fn law_messages_round_trip(
    src_port: u16,
    dst_port: u16,
    sender: SenderMessageView,
    receiver: TcpReceiverMessage,
)
    ensures
        ({
            let segment = segment_from(src_port, dst_port, sender, Some(receiver));
            let rst = sender.rst || receiver.rst;
            &&& segment.sender_message() == (SenderMessageView { rst, ..sender })
            &&& segment.receiver_message() == (TcpReceiverMessage { rst, ..receiver })
        }),
{
}

/// Damage to one word of a segment is found.
pub proof fn law_damaged_segment_is_refused(
    src_ip: Seq<u8>,
    dst_ip: Seq<u8>,
    segment: Seq<u8>,
    index: int,
    word: u16,
)
    requires
        src_ip.len() == 4,
        dst_ip.len() == 4,
        tcp_rejection(src_ip, dst_ip, segment) is None,
        0 <= index,
        index % 2 == 0,
        index + 2 <= segment.len(),
        word != num16(segment[index], segment[index + 1]),
        !(word == 0 && num16(segment[index], segment[index + 1]) == 0xffff),
        !(word == 0xffff && num16(segment[index], segment[index + 1]) == 0),
    ensures
        tcp_rejection(src_ip, dst_ip, with_word(segment, index, word)) == Some(
            TcpParseError::InvalidChecksum,
        ),
{
    law_damaged_segment_word_is_found(src_ip, dst_ip, segment, index, word);
}

/// The bits of a byte, as remainders.
proof fn lemma_bits(byte: u8)
    ensures
        (byte & 0x01 != 0) == (byte % 2 == 1),
        (byte & 0x02 != 0) == (byte / 2 % 2 == 1),
        (byte & 0x04 != 0) == (byte / 4 % 2 == 1),
        (byte & 0x10 != 0) == (byte / 16 % 2 == 1),
        byte < 32 && byte / 8 % 2 == 0 ==> byte & 0xe8 == 0,
        byte >> 4 == byte / 16,
{
    assert((byte & 0x01 != 0) == (byte % 2 == 1) && (byte & 0x02 != 0) == (byte / 2 % 2 == 1) && (
    byte & 0x04 != 0) == (byte / 4 % 2 == 1) && (byte & 0x10 != 0) == (byte / 16 % 2 == 1) && (byte
        < 32 && byte / 8 % 2 == 0 ==> byte & 0xe8 == 0) && byte >> 4 == byte / 16)
        by (bit_vector);
}

/// Where the fields of a segment are read, in any segment that is accepted, by
/// whomever it was made: the ports, the sequence number and the window are the
/// numbers in their bytes, the high one first. FIN, SYN, RST and ACK are the bits
/// 0, 1, 2 and 4 of the byte with the flags. The acknowledgement is there exactly
/// if its bit is set, and is the number in its bytes. The payload is everything
/// behind the header, whose length in words is in the upper half of a byte.
pub proof fn law_fields_stand_at_their_places(segment: Seq<u8>)
    requires
        segment.len() >= 20,
    ensures
        ({
            let parsed = tcp_parsed(segment);
            let flags = segment[13];
            let ack = segment[8] * 0x100_0000 + segment[9] * 0x1_0000 + segment[10] * 0x100
                + segment[11];
            &&& parsed.header.src_port == segment[0] * 256 + segment[1]
            &&& parsed.header.dst_port == segment[2] * 256 + segment[3]
            &&& parsed.header.seqno.0 == segment[4] * 0x100_0000 + segment[5] * 0x1_0000
                + segment[6] * 0x100 + segment[7]
            &&& parsed.header.ackno is Some <==> flags & 0x10 != 0
            &&& flags & 0x10 != 0 ==> parsed.header.ackno->Some_0.0 == ack
            &&& parsed.header.fin <==> flags & 0x01 != 0
            &&& parsed.header.syn <==> flags & 0x02 != 0
            &&& parsed.header.rst <==> flags & 0x04 != 0
            &&& parsed.header.window_size == segment[14] * 256 + segment[15]
            &&& parsed.payload == segment.skip((segment[12] >> 4) as int * 4)
        }),
{
    lemma_bits(segment[13]);
    lemma_bits(segment[12]);
}

/// What else stands in a segment does not matter for what is read from it: not
/// the other flags, nor the reserved bits beside the length of the header, the
/// checksum, the urgent pointer or the options.
pub proof fn law_other_bits_do_not_matter(a: Seq<u8>, b: Seq<u8>)
    requires
        a.len() >= 20,
        b.len() == a.len(),
        a.take(12) == b.take(12),
        a[12] >> 4 == b[12] >> 4,
        a[13] & 0x01 == b[13] & 0x01,
        a[13] & 0x02 == b[13] & 0x02,
        a[13] & 0x04 == b[13] & 0x04,
        a[13] & 0x10 == b[13] & 0x10,
        a[14] == b[14],
        a[15] == b[15],
        a.skip((a[12] >> 4) as int * 4) == b.skip((a[12] >> 4) as int * 4),
    ensures
        tcp_parsed(a) == tcp_parsed(b),
{
    law_fields_stand_at_their_places(a);
    law_fields_stand_at_their_places(b);
    assert forall|i: int| 0 <= i < 12 implies #[trigger] a[i] == b[i] by {
        assert(a.take(12)[i] == a[i]);
        assert(b.take(12)[i] == b[i]);
    }
}

/// Which bytes are a segment between two addresses: at least twenty, whose
/// checksum is right, and whose header has at least five words and ends within
/// them. What is missing first is what is told.
pub proof fn law_which_bytes_are_a_segment(src_ip: Seq<u8>, dst_ip: Seq<u8>, segment: Seq<u8>)
    ensures
        ({
            let told = tcp_rejection(src_ip, dst_ip, segment);
            let intact = tcp_checksum_of(src_ip, dst_ip, segment) == 0;
            let header_len = (segment[12] >> 4) as int * 4;
            &&& told == Some(TcpParseError::SegmentTooShort) <==> segment.len() < 20
            &&& told == Some(TcpParseError::InvalidChecksum) <==> segment.len() >= 20 && !intact
            &&& told == Some(TcpParseError::InvalidDataOffset) <==> segment.len() >= 20 && intact
                && !(20 <= header_len <= segment.len())
            &&& told is None <==> segment.len() >= 20 && intact && 20 <= header_len
                <= segment.len()
        }),
{
    if segment.len() >= 20 {
        lemma_bits(segment[12]);
    }
}

/// How a segment is laid out as it is sent: twenty bytes of header, without
/// options, and the payload. The numbers stand with the high byte first, the
/// flags in their bits, and everything that is not used is zero.
pub proof fn law_segment_is_laid_out(segment: TcpSegmentView, src_ip: Seq<u8>, dst_ip: Seq<u8>)
    ensures
        ({
            let bytes = segment_bytes(segment, src_ip, dst_ip);
            let header = segment.header;
            let ack = bytes[8] * 0x100_0000 + bytes[9] * 0x1_0000 + bytes[10] * 0x100 + bytes[11];
            &&& bytes.len() == 20 + segment.payload.len()
            &&& bytes[0] * 256 + bytes[1] == header.src_port
            &&& bytes[2] * 256 + bytes[3] == header.dst_port
            &&& bytes[4] * 0x100_0000 + bytes[5] * 0x1_0000 + bytes[6] * 0x100 + bytes[7]
                == header.seqno.0
            &&& header.ackno is None ==> ack == 0
            &&& header.ackno matches Some(ackno) ==> ack == ackno.0
            &&& bytes[12] == 0x50
            &&& bytes[13] & 0x01 != 0 <==> header.fin
            &&& bytes[13] & 0x02 != 0 <==> header.syn
            &&& bytes[13] & 0x04 != 0 <==> header.rst
            &&& bytes[13] & 0x10 != 0 <==> header.ackno is Some
            &&& bytes[13] & 0xe8 == 0
            &&& bytes[14] * 256 + bytes[15] == header.window_size
            &&& bytes[18] == 0
            &&& bytes[19] == 0
            &&& bytes.skip(20) == segment.payload
        }),
{
    let bytes = segment_bytes(segment, src_ip, dst_ip);
    let checksum = tcp_checksum_of(src_ip, dst_ip, segment_bytes_with(segment, 0));
    lemma_segment_layout(segment, checksum);
    lemma_segment_fields(segment, bytes);
    lemma_flag_bits(segment.header);
    lemma_bits(bytes[13]);
    lemma_be32(ack_number(segment.header));
    let word = (0x5000 + flag_bits(segment.header)) as u16;
    assert(bytes[12] == bytes.subrange(12, 14)[0] && bytes[13] == bytes.subrange(12, 14)[1]);
    assert(bytes[8] == bytes.subrange(8, 12)[0] && bytes[9] == bytes.subrange(8, 12)[1]);
    assert(bytes[10] == bytes.subrange(8, 12)[2] && bytes[11] == bytes.subrange(8, 12)[3]);
    assert(word / 256 == 0x50 && word % 256 == flag_bits(segment.header));
    assert(flag_bits(segment.header) / 8 % 2 == 0);
}

/// What a segment is made of: the ports that it goes between, everything that the
/// sender says, and the acknowledgement and the window of the receiver, or no
/// acknowledgement and no window without one. It resets where either does.
pub proof fn law_segment_holds_both_messages(
    src_port: u16,
    dst_port: u16,
    sender: SenderMessageView,
    receiver: TcpReceiverMessage,
)
    ensures
        ({
            let with = segment_from(src_port, dst_port, sender, Some(receiver));
            let without = segment_from(src_port, dst_port, sender, None);
            &&& with.header.src_port == src_port && without.header.src_port == src_port
            &&& with.header.dst_port == dst_port && without.header.dst_port == dst_port
            &&& with.header.seqno == sender.seqno && without.header.seqno == sender.seqno
            &&& with.header.syn == sender.syn && without.header.syn == sender.syn
            &&& with.header.fin == sender.fin && without.header.fin == sender.fin
            &&& with.payload == sender.payload && without.payload == sender.payload
            &&& with.header.ackno == receiver.ackno && without.header.ackno is None
            &&& with.header.window_size == receiver.window_size && without.header.window_size == 0
            &&& with.header.rst == (sender.rst || receiver.rst)
            &&& without.header.rst == sender.rst
        }),
{
}

/// What a segment says to either half of the other side.
pub proof fn law_segment_speaks_to_both(segment: TcpSegmentView)
    ensures
        segment.sender_message().seqno == segment.header.seqno,
        segment.sender_message().syn == segment.header.syn,
        segment.sender_message().fin == segment.header.fin,
        segment.sender_message().rst == segment.header.rst,
        segment.sender_message().payload == segment.payload,
        segment.receiver_message().ackno == segment.header.ackno,
        segment.receiver_message().window_size == segment.header.window_size,
        segment.receiver_message().rst == segment.header.rst,
{
}

/// What is told of bytes that are no segment.
pub proof fn law_what_is_told_of_segments()
    ensures
        TcpParseError::SegmentTooShort.text() == "SegmentTooShort"@,
        TcpParseError::InvalidDataOffset.text() == "InvalidDataOffset"@,
        TcpParseError::InvalidChecksum.text() == "InvalidChecksum"@,
{
}

/// Which segments can be sent: those whose bytes, with the header, are counted in
/// 16 bits.
pub proof fn law_which_segments_fit(segment: TcpSegmentView)
    ensures
        segment.fits() <==> segment.payload.len() <= 65515,
{
}

} // verus!
