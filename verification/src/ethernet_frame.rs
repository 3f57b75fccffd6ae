//! Ethernet frames.
use crate::buffer::{be16, contents, join16, num16, put_u16, slice};
use crate::text::{hex_pair, push_hex, taken};
use bytes::{Bytes, BytesMut};
use std::ops::Deref;
use vstd::prelude::*;
use vstd::string::StringExecFns;

verus! {

pub const ETHERNET_HEADER_LEN: usize = 14;

pub const ETHERTYPE_IPV4: u16 = 0x0800;

pub const ETHERTYPE_ARP: u16 = 0x0806;

/// The address of an Ethernet interface.
#[derive(Clone, Copy, Eq, Hash)]
pub struct EthernetAddress(pub [u8; 6]);

impl PartialEq for EthernetAddress {
    fn eq(&self, other: &Self) -> (equal: bool) {
        let equal = self.0[0] == other.0[0] && self.0[1] == other.0[1] && self.0[2] == other.0[2]
            && self.0[3] == other.0[3] && self.0[4] == other.0[4] && self.0[5] == other.0[5];
        proof {
            if equal {
                assert(self.0 =~= other.0);
            }
        }
        equal
    }
}

impl vstd::std_specs::cmp::PartialEqSpecImpl for EthernetAddress {
    open spec fn obeys_eq_spec() -> bool {
        true
    }

    open spec fn eq_spec(&self, other: &Self) -> bool {
        *self == *other
    }
}

/// An address as text: six bytes in hexadecimal with colons between them.
pub open spec fn mac_text(bytes: Seq<u8>) -> Seq<char> {
    hex_pair(bytes[0]) + seq![':'] + hex_pair(bytes[1]) + seq![':'] + hex_pair(bytes[2]) + seq![':']
        + hex_pair(bytes[3]) + seq![':'] + hex_pair(bytes[4]) + seq![':'] + hex_pair(bytes[5])
}

/// The address that means every interface.
pub open spec fn broadcast_address() -> EthernetAddress {
    EthernetAddress([0xff, 0xff, 0xff, 0xff, 0xff, 0xff])
}

/// The address that stands for an unknown one.
pub open spec fn zero_address() -> EthernetAddress {
    EthernetAddress([0, 0, 0, 0, 0, 0])
}

impl EthernetAddress {
    /// The address that means every interface.
    pub fn broadcast() -> (address: Self)
        ensures
            address == broadcast_address(),
    {
        Self([0xff, 0xff, 0xff, 0xff, 0xff, 0xff])
    }

    /// The address that stands for an unknown one.
    pub fn zero() -> (address: Self)
        ensures
            address == zero_address(),
    {
        Self([0, 0, 0, 0, 0, 0])
    }

    pub fn new(bytes: [u8; 6]) -> (address: Self)
        ensures
            address.0 == bytes,
    {
        Self(bytes)
    }

    pub fn octets(self) -> (bytes: [u8; 6])
        ensures
            bytes == self.0,
    {
        self.0
    }

    pub fn is_broadcast(self) -> (broadcast: bool)
        ensures
            broadcast == (self == broadcast_address()),
    {
        self == Self::broadcast()
    }

    /// The address as text.
    pub fn to_string(&self) -> (text: String)
        ensures
            text@ == mac_text(self.0@),
    {
        let mut text = String::new();
        push_hex(&mut text, self.0[0]);
        let mut index: usize = 1;
        proof {
            reveal_strlit(":");
            assert(":"@ =~= seq![':']);
            assert(text@ =~= joined(self.0@, 1));
        }
        while index < 6
            invariant
                1 <= index <= 6,
                text@ == joined(self.0@, index as nat),
                ":"@ == seq![':'],
            decreases 6 - index,
        {
            text.append(":");
            push_hex(&mut text, self.0[index]);
            index = index + 1;
        }
        proof {
            lemma_mac_text(self.0@);
        }
        text
    }
}

impl std::fmt::Debug for EthernetAddress {
    fn fmt(&self, f: &mut std::fmt::Formatter<'_>) -> (result: std::fmt::Result)
        ensures
            result is Ok ==> taken(*final(f)) == taken(*old(f)) + mac_text(self.0@),
    {
        f.write_str(self.to_string().as_str())
    }
}

impl std::fmt::Display for EthernetAddress {
    fn fmt(&self, f: &mut std::fmt::Formatter<'_>) -> (result: std::fmt::Result)
        ensures
            result is Ok ==> taken(*final(f)) == taken(*old(f)) + mac_text(self.0@),
    {
        f.write_str(self.to_string().as_str())
    }
}

/// The first bytes of an address as text.
pub open spec fn joined(bytes: Seq<u8>, count: nat) -> Seq<char>
    decreases count,
{
    if count == 0 {
        Seq::empty()
    } else if count == 1 {
        hex_pair(bytes[0])
    } else {
        joined(bytes, (count - 1) as nat) + seq![':'] + hex_pair(bytes[count - 1])
    }
}

/// All six bytes of an address as text are the address as text.
pub proof fn lemma_mac_text(bytes: Seq<u8>)
    ensures
        mac_text(bytes) == joined(bytes, 6),
{
    reveal_with_fuel(joined, 7);
    assert(mac_text(bytes) =~= joined(bytes, 6));
}

impl From<[u8; 6]> for EthernetAddress {
    fn from(value: [u8; 6]) -> (address: Self) {
        Self(value)
    }
}

impl vstd::std_specs::convert::FromSpecImpl<[u8; 6]> for EthernetAddress {
    open spec fn obeys_from_spec() -> bool {
        true
    }

    open spec fn from_spec(value: [u8; 6]) -> Self {
        EthernetAddress(value)
    }
}

#[derive(Debug, Clone, Copy, PartialEq, Eq)]
pub struct EthernetHeader {
    pub dst: EthernetAddress,
    pub src: EthernetAddress,
    pub ethertype: u16,
}

#[derive(Debug, PartialEq, Eq)]
pub struct EthernetFrame {
    pub header: EthernetHeader,
    pub payload: Bytes,
}

#[derive(Debug, Clone, Copy, PartialEq, Eq, Structural)]
pub enum EthernetParseError {
    FrameTooShort,
}

/// What an [`EthernetFrame`] holds.
#[verifier::ext_equal]
pub struct FrameView {
    pub header: EthernetHeader,
    pub payload: Seq<u8>,
}

impl View for EthernetFrame {
    type V = FrameView;

    open spec fn view(&self) -> FrameView {
        FrameView { header: self.header, payload: contents(self.payload) }
    }
}

/// A frame as it is sent: the addresses of the receiver and of the sender, the
/// type of the payload, the payload.
pub open spec fn frame_bytes(frame: FrameView) -> Seq<u8> {
    frame.header.dst.0@ + frame.header.src.0@ + be16(frame.header.ethertype) + frame.payload
}

impl Clone for EthernetFrame {
    fn clone(&self) -> (copy: Self)
        ensures
            copy@ == self@,
    {
        Self { header: self.header, payload: self.payload.clone() }
    }
}

impl EthernetFrame {
    pub fn new(
        dst: EthernetAddress,
        src: EthernetAddress,
        ethertype: u16,
        payload: Bytes,
    ) -> (frame: Self)
        ensures
            frame@ == (FrameView {
                header: EthernetHeader { dst, src, ethertype },
                payload: contents(payload),
            }),
    {
        Self { header: EthernetHeader { dst, src, ethertype }, payload }
    }

    pub fn ipv4(dst: EthernetAddress, src: EthernetAddress, payload: Bytes) -> (frame: Self)
        ensures
            frame@ == (FrameView {
                header: EthernetHeader { dst, src, ethertype: ETHERTYPE_IPV4 },
                payload: contents(payload),
            }),
    {
        Self::new(dst, src, ETHERTYPE_IPV4, payload)
    }

    pub fn arp(dst: EthernetAddress, src: EthernetAddress, payload: Bytes) -> (frame: Self)
        ensures
            frame@ == (FrameView {
                header: EthernetHeader { dst, src, ethertype: ETHERTYPE_ARP },
                payload: contents(payload),
            }),
    {
        Self::new(dst, src, ETHERTYPE_ARP, payload)
    }

    /// Whether the frame is meant for an interface: sent to its address or to
    /// everyone.
    pub fn is_for(&self, ethernet_address: EthernetAddress) -> (mine: bool)
        ensures
            mine == (self@.header.dst == ethernet_address || self@.header.dst
                == broadcast_address()),
    {
        self.header.dst == ethernet_address || self.header.dst.is_broadcast()
    }

    pub fn serialize(&self) -> (bytes: Bytes)
        requires
            ETHERNET_HEADER_LEN + self@.payload.len() <= isize::MAX,
        ensures
            contents(bytes) == frame_bytes(self@),
    {
        let mut buffer = BytesMut::with_capacity(ETHERNET_HEADER_LEN + self.payload.len());
        buffer.extend_from_slice(&self.header.dst.0);
        buffer.extend_from_slice(&self.header.src.0);
        put_u16(&mut buffer, self.header.ethertype);
        buffer.extend_from_slice(self.payload.deref());
        let bytes = buffer.freeze();
        assert(contents(bytes) =~= frame_bytes(self@));
        bytes
    }

    pub fn parse(data: &[u8]) -> (result: Result<Self, EthernetParseError>)
        ensures
            match result {
                Ok(frame) => frame_bytes(frame@) == data@,
                Err(error) => data@.len() < ETHERNET_HEADER_LEN,
            },
    {
        Self::parse_bytes(Bytes::copy_from_slice(data))
    }

    /// The frame that some bytes are, unless they are too few.
    pub fn parse_bytes(data: Bytes) -> (result: Result<Self, EthernetParseError>)
        ensures
            match result {
                Ok(frame) => frame_bytes(frame@) == contents(data),
                Err(error) => contents(data).len() < ETHERNET_HEADER_LEN,
            },
    {
        if data.len() < ETHERNET_HEADER_LEN {
            return Err(EthernetParseError::FrameTooShort);
        }
        let d = data.deref();
        let dst = EthernetAddress::new([d[0], d[1], d[2], d[3], d[4], d[5]]);
        let src = EthernetAddress::new([d[6], d[7], d[8], d[9], d[10], d[11]]);
        let ethertype: u16 = join16(d[12], d[13]);
        let payload = slice(&data, ETHERNET_HEADER_LEN, data.len());
        let frame = Self { header: EthernetHeader { dst, src, ethertype }, payload };
        assert(frame_bytes(frame@) =~= contents(data));
        Ok(frame)
    }
}

/// What is sent is what is received: no two frames have the same bytes, so that
/// parsing the bytes of a frame gives that frame.
pub proof fn law_frame_round_trip(frame: FrameView, parsed: FrameView)
    requires
        frame_bytes(parsed) == frame_bytes(frame),
    ensures
        parsed == frame,
        frame_bytes(frame).len() >= ETHERNET_HEADER_LEN,
{
    let a = frame_bytes(frame);
    let b = frame_bytes(parsed);
    assert forall|i: int| 0 <= i < 6 implies frame.header.dst.0[i] == parsed.header.dst.0[i]
        && frame.header.src.0[i] == parsed.header.src.0[i] by {
        assert(a[i] == b[i]);
        assert(a[i + 6] == b[i + 6]);
    }
    assert(frame.header.dst.0 =~= parsed.header.dst.0);
    assert(frame.header.src.0 =~= parsed.header.src.0);
    assert(a[12] == b[12] && a[13] == b[13]);
    assert(num16(a[12], a[13]) == frame.header.ethertype);
    assert(num16(b[12], b[13]) == parsed.header.ethertype);
    assert(a.skip(14) =~= frame.payload);
    assert(b.skip(14) =~= parsed.payload);
}

/// How a frame is laid out as it is sent, and with it how it is read: the address
/// of the receiver first, then that of the sender, the type with the high byte
/// first, and the payload.
pub proof fn law_frame_is_laid_out(frame: FrameView)
    ensures
        ({
            let bytes = frame_bytes(frame);
            &&& bytes.len() == 14 + frame.payload.len()
            &&& bytes.len() == ETHERNET_HEADER_LEN + frame.payload.len()
            &&& bytes.subrange(0, 6) == frame.header.dst.0@
            &&& bytes.subrange(6, 12) == frame.header.src.0@
            &&& bytes[12] * 256 + bytes[13] == frame.header.ethertype
            &&& bytes.skip(14) == frame.payload
        }),
{
    let bytes = frame_bytes(frame);
    assert(bytes.subrange(0, 6) =~= frame.header.dst.0@);
    assert(bytes.subrange(6, 12) =~= frame.header.src.0@);
    assert(bytes[12] == be16(frame.header.ethertype)[0]);
    assert(bytes[13] == be16(frame.header.ethertype)[1]);
    assert(bytes.skip(14) =~= frame.payload);
}

/// The address that means everyone is all ones, the unknown one all zeroes.
pub proof fn law_special_addresses(i: int)
    requires
        0 <= i < 6,
    ensures
        broadcast_address().0[i] == 0xff,
        zero_address().0[i] == 0,
{
}

/// An address as text has 17 characters: two hexadecimal digits for each byte,
/// from which the byte is read again, and a colon before each but the first.
pub proof fn law_address_as_text(bytes: Seq<u8>, i: int)
    requires
        0 <= i < 6,
    ensures
        mac_text(bytes).len() == 17,
        crate::text::hex_digit(mac_text(bytes)[3 * i]) == Some((bytes[i] / 16) as nat),
        crate::text::hex_digit(mac_text(bytes)[3 * i + 1]) == Some((bytes[i] % 16) as nat),
        i < 5 ==> mac_text(bytes)[3 * i + 2] == ':',
{
    let text = mac_text(bytes);
    assert(text[3 * i] == hex_pair(bytes[i])[0] && text[3 * i + 1] == hex_pair(bytes[i])[1]) by {
        if i == 0 {
        } else if i == 1 {
        } else if i == 2 {
        } else if i == 3 {
        } else if i == 4 {
        }
    }
}

} // verus!
