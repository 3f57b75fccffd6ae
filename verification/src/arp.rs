//! ARP messages, which tie IPv4 addresses to Ethernet addresses.
use crate::buffer::{be16, contents, join16, num16, put_u16, put_u8};
use crate::ethernet_frame::{zero_address, EthernetAddress, ETHERTYPE_IPV4};
use bytes::{Bytes, BytesMut};
use std::ops::Deref;
use vstd::prelude::*;

verus! {

pub const ARP_MESSAGE_LEN: usize = 28;

pub const ARP_HARDWARE_TYPE_ETHERNET: u16 = 1;

pub const ARP_PROTOCOL_TYPE_IPV4: u16 = ETHERTYPE_IPV4;

pub const ARP_HARDWARE_ADDRESS_LEN_ETHERNET: u8 = 6;

pub const ARP_PROTOCOL_ADDRESS_LEN_IPV4: u8 = 4;

pub const ARP_OPCODE_REQUEST: u16 = 1;

pub const ARP_OPCODE_REPLY: u16 = 2;

#[derive(Debug, Clone, Copy, PartialEq, Eq, Structural)]
pub enum ArpOperation {
    Request,
    Reply,
}

impl ArpOperation {
    /// The number of an operation.
    pub open spec fn number(self) -> u16 {
        match self {
            ArpOperation::Request => ARP_OPCODE_REQUEST,
            ArpOperation::Reply => ARP_OPCODE_REPLY,
        }
    }

    pub fn opcode(self) -> (opcode: u16)
        ensures
            opcode == self.number(),
    {
        match self {
            Self::Request => ARP_OPCODE_REQUEST,
            Self::Reply => ARP_OPCODE_REPLY,
        }
    }

    pub fn from_opcode(opcode: u16) -> (operation: Option<Self>)
        ensures
            match operation {
                Some(operation) => operation.number() == opcode,
                None => opcode != ARP_OPCODE_REQUEST && opcode != ARP_OPCODE_REPLY,
            },
    {
        if opcode == ARP_OPCODE_REQUEST {
            Some(Self::Request)
        } else if opcode == ARP_OPCODE_REPLY {
            Some(Self::Reply)
        } else {
            None
        }
    }
}

#[derive(Debug, Clone, Copy, PartialEq, Eq)]
pub struct ArpMessage {
    pub operation: ArpOperation,
    pub sender_ethernet_address: EthernetAddress,
    pub sender_ip_address: [u8; 4],
    pub target_ethernet_address: EthernetAddress,
    pub target_ip_address: [u8; 4],
}

#[derive(Debug, Clone, Copy, PartialEq, Eq, Structural)]
pub enum ArpParseError {
    MessageTooShort,
    UnsupportedHardwareType(u16),
    UnsupportedProtocolType(u16),
    UnsupportedHardwareAddressLength(u8),
    UnsupportedProtocolAddressLength(u8),
    UnsupportedOperation(u16),
}

/// A message as it is sent.
pub open spec fn arp_bytes(message: ArpMessage) -> Seq<u8> {
    be16(ARP_HARDWARE_TYPE_ETHERNET) + be16(ARP_PROTOCOL_TYPE_IPV4) + seq![
        ARP_HARDWARE_ADDRESS_LEN_ETHERNET,
        ARP_PROTOCOL_ADDRESS_LEN_IPV4,
    ] + be16(message.operation.number()) + message.sender_ethernet_address.0@
        + message.sender_ip_address@ + message.target_ethernet_address.0@
        + message.target_ip_address@
}

/// Why some bytes are no message, if they are none.
pub open spec fn arp_rejection(data: Seq<u8>) -> Option<ArpParseError> {
    if data.len() < ARP_MESSAGE_LEN {
        Some(ArpParseError::MessageTooShort)
    } else if num16(data[0], data[1]) != ARP_HARDWARE_TYPE_ETHERNET {
        Some(ArpParseError::UnsupportedHardwareType(num16(data[0], data[1]) as u16))
    } else if num16(data[2], data[3]) != ARP_PROTOCOL_TYPE_IPV4 {
        Some(ArpParseError::UnsupportedProtocolType(num16(data[2], data[3]) as u16))
    } else if data[4] != ARP_HARDWARE_ADDRESS_LEN_ETHERNET {
        Some(ArpParseError::UnsupportedHardwareAddressLength(data[4]))
    } else if data[5] != ARP_PROTOCOL_ADDRESS_LEN_IPV4 {
        Some(ArpParseError::UnsupportedProtocolAddressLength(data[5]))
    } else if num16(data[6], data[7]) != ARP_OPCODE_REQUEST && num16(data[6], data[7])
        != ARP_OPCODE_REPLY {
        Some(ArpParseError::UnsupportedOperation(num16(data[6], data[7]) as u16))
    } else {
        None
    }
}

/// The message with which some bytes begin.
pub open spec fn arp_parsed(data: Seq<u8>) -> ArpMessage {
    ArpMessage {
        operation: if num16(data[6], data[7]) == ARP_OPCODE_REQUEST {
            ArpOperation::Request
        } else {
            ArpOperation::Reply
        },
        sender_ethernet_address: EthernetAddress(
            [data[8], data[9], data[10], data[11], data[12], data[13]],
        ),
        sender_ip_address: [data[14], data[15], data[16], data[17]],
        target_ethernet_address: EthernetAddress(
            [data[18], data[19], data[20], data[21], data[22], data[23]],
        ),
        target_ip_address: [data[24], data[25], data[26], data[27]],
    }
}

impl ArpMessage {
    /// Asks who has an IPv4 address.
    pub fn request(
        sender_ethernet_address: EthernetAddress,
        sender_ip_address: [u8; 4],
        target_ip_address: [u8; 4],
    ) -> (message: Self)
        ensures
            message == (ArpMessage {
                operation: ArpOperation::Request,
                sender_ethernet_address,
                sender_ip_address,
                target_ethernet_address: zero_address(),
                target_ip_address,
            }),
    {
        Self {
            operation: ArpOperation::Request,
            sender_ethernet_address,
            sender_ip_address,
            target_ethernet_address: EthernetAddress::zero(),
            target_ip_address,
        }
    }

    /// Tells someone who has an IPv4 address.
    pub fn reply(
        sender_ethernet_address: EthernetAddress,
        sender_ip_address: [u8; 4],
        target_ethernet_address: EthernetAddress,
        target_ip_address: [u8; 4],
    ) -> (message: Self)
        ensures
            message == (ArpMessage {
                operation: ArpOperation::Reply,
                sender_ethernet_address,
                sender_ip_address,
                target_ethernet_address,
                target_ip_address,
            }),
    {
        Self {
            operation: ArpOperation::Reply,
            sender_ethernet_address,
            sender_ip_address,
            target_ethernet_address,
            target_ip_address,
        }
    }

    pub fn is_request(&self) -> (request: bool)
        ensures
            request == (self.operation == ArpOperation::Request),
    {
        self.operation == ArpOperation::Request
    }

    pub fn is_reply(&self) -> (reply: bool)
        ensures
            reply == (self.operation == ArpOperation::Reply),
    {
        self.operation == ArpOperation::Reply
    }

    pub fn serialize(&self) -> (bytes: Bytes)
        ensures
            contents(bytes) == arp_bytes(*self),
    {
        let mut buffer = BytesMut::with_capacity(ARP_MESSAGE_LEN);
        put_u16(&mut buffer, ARP_HARDWARE_TYPE_ETHERNET);
        put_u16(&mut buffer, ARP_PROTOCOL_TYPE_IPV4);
        put_u8(&mut buffer, ARP_HARDWARE_ADDRESS_LEN_ETHERNET);
        put_u8(&mut buffer, ARP_PROTOCOL_ADDRESS_LEN_IPV4);
        put_u16(&mut buffer, self.operation.opcode());
        buffer.extend_from_slice(&self.sender_ethernet_address.0);
        buffer.extend_from_slice(&self.sender_ip_address);
        buffer.extend_from_slice(&self.target_ethernet_address.0);
        buffer.extend_from_slice(&self.target_ip_address);
        let bytes = buffer.freeze();
        assert(contents(bytes) =~= arp_bytes(*self));
        bytes
    }

    pub fn parse(data: &[u8]) -> (result: Result<Self, ArpParseError>)
        ensures
            match result {
                Ok(message) => arp_rejection(data@) is None && message == arp_parsed(data@),
                Err(error) => arp_rejection(data@) == Some(error),
            },
    {
        Self::parse_bytes(Bytes::copy_from_slice(data))
    }

    /// The message with which some bytes begin.
    pub fn parse_bytes(data: Bytes) -> (result: Result<Self, ArpParseError>)
        ensures
            match result {
                Ok(message) => arp_rejection(contents(data)) is None && message == arp_parsed(
                    contents(data),
                ),
                Err(error) => arp_rejection(contents(data)) == Some(error),
            },
    {
        if data.len() < ARP_MESSAGE_LEN {
            return Err(ArpParseError::MessageTooShort);
        }
        let d = data.deref();
        let hardware_type: u16 = join16(d[0], d[1]);
        let protocol_type: u16 = join16(d[2], d[3]);
        let hardware_len: u8 = d[4];
        let protocol_len: u8 = d[5];
        let opcode: u16 = join16(d[6], d[7]);
        if hardware_type != ARP_HARDWARE_TYPE_ETHERNET {
            return Err(ArpParseError::UnsupportedHardwareType(hardware_type));
        }
        if protocol_type != ARP_PROTOCOL_TYPE_IPV4 {
            return Err(ArpParseError::UnsupportedProtocolType(protocol_type));
        }
        if hardware_len != ARP_HARDWARE_ADDRESS_LEN_ETHERNET {
            return Err(ArpParseError::UnsupportedHardwareAddressLength(hardware_len));
        }
        if protocol_len != ARP_PROTOCOL_ADDRESS_LEN_IPV4 {
            return Err(ArpParseError::UnsupportedProtocolAddressLength(protocol_len));
        }
        let operation = match ArpOperation::from_opcode(opcode) {
            Some(operation) => operation,
            None => {
                return Err(ArpParseError::UnsupportedOperation(opcode));
            },
        };
        Ok(Self {
            operation,
            sender_ethernet_address: EthernetAddress::new(
                [d[8], d[9], d[10], d[11], d[12], d[13]],
            ),
            sender_ip_address: [d[14], d[15], d[16], d[17]],
            target_ethernet_address: EthernetAddress::new(
                [d[18], d[19], d[20], d[21], d[22], d[23]],
            ),
            target_ip_address: [d[24], d[25], d[26], d[27]],
        })
    }
}

/// What is sent is what is received: the bytes of a message, whatever follows
/// them, are accepted, and give the message back.
#[verifier::rlimit(30)]
pub proof fn law_arp_round_trip(message: ArpMessage, trailing: Seq<u8>)
    ensures
        arp_rejection(arp_bytes(message) + trailing) is None,
        arp_parsed(arp_bytes(message) + trailing) == message,
{
    let a = arp_bytes(message);
    let all = a + trailing;
    let parsed = arp_parsed(all);
    assert(all[0] == 0 && all[1] == 1 && all[2] == 8 && all[3] == 0);
    assert(all[4] == 6 && all[5] == 4);
    assert(all[6] == 0 && all[7] == message.operation.number());
    assert forall|i: int| 0 <= i < 6 implies #[trigger] message.sender_ethernet_address.0[i]
        == all[8 + i] by {}
    assert forall|i: int| 0 <= i < 4 implies #[trigger] message.sender_ip_address[i] == all[14
        + i] by {}
    assert forall|i: int| 0 <= i < 6 implies #[trigger] message.target_ethernet_address.0[i]
        == all[18 + i] by {}
    assert forall|i: int| 0 <= i < 4 implies #[trigger] message.target_ip_address[i] == all[24
        + i] by {}
    assert(message.sender_ethernet_address.0 =~= parsed.sender_ethernet_address.0);
    assert(message.sender_ip_address =~= parsed.sender_ip_address);
    assert(message.target_ethernet_address.0 =~= parsed.target_ethernet_address.0);
    assert(message.target_ip_address =~= parsed.target_ip_address);
}

/// Where the fields of a message are read, in any message that is accepted.
/// Operation 1 asks, operation 2 answers.
pub proof fn law_fields_stand_at_their_places(data: Seq<u8>)
    requires
        arp_rejection(data) is None,
    ensures
        ({
            let parsed = arp_parsed(data);
            &&& parsed.operation == ArpOperation::Request <==> data[6] == 0 && data[7] == 1
            &&& parsed.operation == ArpOperation::Reply <==> data[6] == 0 && data[7] == 2
            &&& parsed.sender_ethernet_address.0@ == data.subrange(8, 14)
            &&& parsed.sender_ip_address@ == data.subrange(14, 18)
            &&& parsed.target_ethernet_address.0@ == data.subrange(18, 24)
            &&& parsed.target_ip_address@ == data.subrange(24, 28)
        }),
{
    let parsed = arp_parsed(data);
    assert(parsed.sender_ethernet_address.0@ =~= data.subrange(8, 14));
    assert(parsed.sender_ip_address@ =~= data.subrange(14, 18));
    assert(parsed.target_ethernet_address.0@ =~= data.subrange(18, 24));
    assert(parsed.target_ip_address@ =~= data.subrange(24, 28));
}

/// Which bytes begin with a message: at least 28, which tie IPv4 addresses of
/// four bytes to Ethernet addresses of six, and ask or answer. What is wrong first
/// is what is told, with the number found.
pub proof fn law_which_bytes_are_a_message(data: Seq<u8>)
    ensures
        ({
            let told = arp_rejection(data);
            let hardware = data[0] * 256 + data[1];
            let protocol = data[2] * 256 + data[3];
            let operation = data[6] * 256 + data[7];
            let long = data.len() >= 28;
            let ethernet = long && hardware == 1;
            let ipv4 = ethernet && protocol == 0x0800;
            let six = ipv4 && data[4] == 6;
            let four = six && data[5] == 4;
            let known = four && (operation == 1 || operation == 2);
            &&& told == Some(ArpParseError::MessageTooShort) <==> !long
            &&& told is None <==> known
            &&& long && !ethernet <==> told is Some && told->Some_0 is UnsupportedHardwareType
            &&& long && !ethernet ==> told == Some(
                ArpParseError::UnsupportedHardwareType(hardware as u16),
            )
            &&& ethernet && !ipv4 ==> told == Some(
                ArpParseError::UnsupportedProtocolType(protocol as u16),
            )
            &&& ipv4 && !six ==> told == Some(
                ArpParseError::UnsupportedHardwareAddressLength(data[4]),
            )
            &&& six && !four ==> told == Some(
                ArpParseError::UnsupportedProtocolAddressLength(data[5]),
            )
            &&& four && !known ==> told == Some(
                ArpParseError::UnsupportedOperation(operation as u16),
            )
        }),
{
}

/// How a message is laid out as it is sent.
pub proof fn law_message_is_laid_out(message: ArpMessage)
    ensures
        ({
            let bytes = arp_bytes(message);
            &&& bytes.len() == 28
            &&& bytes.take(6) == seq![0u8, 1, 8, 0, 6, 4]
            &&& bytes[6] == 0
            &&& bytes[7] == if message.operation == ArpOperation::Request {
                1u8
            } else {
                2u8
            }
            &&& bytes.subrange(8, 14) == message.sender_ethernet_address.0@
            &&& bytes.subrange(14, 18) == message.sender_ip_address@
            &&& bytes.subrange(18, 24) == message.target_ethernet_address.0@
            &&& bytes.subrange(24, 28) == message.target_ip_address@
        }),
{
    let bytes = arp_bytes(message);
    assert(bytes.take(6) =~= seq![0u8, 1, 8, 0, 6, 4]);
    assert(bytes.subrange(8, 14) =~= message.sender_ethernet_address.0@);
    assert(bytes.subrange(14, 18) =~= message.sender_ip_address@);
    assert(bytes.subrange(18, 24) =~= message.target_ethernet_address.0@);
    assert(bytes.subrange(24, 28) =~= message.target_ip_address@);
}

} // verus!
