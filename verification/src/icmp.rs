//! ICMP messages, as far as an echo needs them.
use crate::buffer::{be16, contents, join16, put_u16, put_u8, set_u16, slice, word, written};
use crate::checksum::{
    checksum_of, internet_checksum, law_damaged_word_is_found, law_inserted_checksum_verifies,
    verify_internet_checksum, with_word, word_sum,
};
use bytes::{Bytes, BytesMut};
use std::ops::Deref;
use vstd::prelude::*;

verus! {

pub const ICMP_ECHO_REPLY: u8 = 0;

pub const ICMP_ECHO_REQUEST: u8 = 8;

const ICMP_ECHO_HEADER_LEN: usize = 8;

#[derive(Debug, PartialEq, Eq)]
pub struct IcmpMessage {
    pub icmp_type: u8,
    pub code: u8,
    pub identifier: u16,
    pub sequence_number: u16,
    pub payload: Bytes,
}

#[derive(Debug, Clone, Copy, PartialEq, Eq, Structural)]
pub enum IcmpParseError {
    MessageTooShort,
    InvalidChecksum,
}

impl IcmpParseError {
    /// The name of the error.
    pub open spec fn text(self) -> Seq<char> {
        match self {
            IcmpParseError::MessageTooShort => "MessageTooShort"@,
            IcmpParseError::InvalidChecksum => "InvalidChecksum"@,
        }
    }

    /// The name of the error.
    pub fn name(self) -> (name: &'static str)
        ensures
            name@ == self.text(),
    {
        match self {
            Self::MessageTooShort => "MessageTooShort",
            Self::InvalidChecksum => "InvalidChecksum",
        }
    }
}

/// What an [`IcmpMessage`] says.
#[verifier::ext_equal]
pub struct IcmpView {
    pub icmp_type: u8,
    pub code: u8,
    pub identifier: u16,
    pub sequence_number: u16,
    pub payload: Seq<u8>,
}

impl View for IcmpMessage {
    type V = IcmpView;

    open spec fn view(&self) -> IcmpView {
        IcmpView {
            icmp_type: self.icmp_type,
            code: self.code,
            identifier: self.identifier,
            sequence_number: self.sequence_number,
            payload: contents(self.payload),
        }
    }
}

/// A message as it is sent, with a given checksum.
pub open spec fn icmp_bytes_with(message: IcmpView, checksum: u16) -> Seq<u8> {
    seq![message.icmp_type, message.code] + be16(checksum) + be16(message.identifier) + be16(
        message.sequence_number,
    ) + message.payload
}

/// A message as it is sent.
pub open spec fn icmp_bytes(message: IcmpView) -> Seq<u8> {
    icmp_bytes_with(message, checksum_of(icmp_bytes_with(message, 0)))
}

/// Why some bytes are no message, if they are none.
pub open spec fn icmp_rejection(data: Seq<u8>) -> Option<IcmpParseError> {
    if data.len() < 8 {
        Some(IcmpParseError::MessageTooShort)
    } else if checksum_of(data) != 0 {
        Some(IcmpParseError::InvalidChecksum)
    } else {
        None
    }
}

/// The message that some bytes are.
pub open spec fn icmp_parsed(data: Seq<u8>) -> IcmpView {
    IcmpView {
        icmp_type: data[0],
        code: data[1],
        identifier: word(data[4], data[5]),
        sequence_number: word(data[6], data[7]),
        payload: data.skip(8),
    }
}

/// The reply to a message: an echo request, and nothing else, is sent back.
pub open spec fn echo_reply(request: IcmpView) -> Option<IcmpView> {
    if request.icmp_type == ICMP_ECHO_REQUEST && request.code == 0 {
        Some(IcmpView { icmp_type: ICMP_ECHO_REPLY, ..request })
    } else {
        None
    }
}

impl Clone for IcmpMessage {
    fn clone(&self) -> (copy: Self)
        ensures
            copy@ == self@,
    {
        Self {
            icmp_type: self.icmp_type,
            code: self.code,
            identifier: self.identifier,
            sequence_number: self.sequence_number,
            payload: self.payload.clone(),
        }
    }
}

impl IcmpMessage {
    pub fn echo_request(identifier: u16, sequence_number: u16, payload: Bytes) -> (message: Self)
        ensures
            message@ == (IcmpView {
                icmp_type: ICMP_ECHO_REQUEST,
                code: 0,
                identifier,
                sequence_number,
                payload: contents(payload),
            }),
    {
        Self { icmp_type: ICMP_ECHO_REQUEST, code: 0, identifier, sequence_number, payload }
    }

    pub fn echo_reply_from_request(request: &Self) -> (reply: Option<Self>)
        ensures
            match reply {
                Some(reply) => echo_reply(request@) == Some(reply@),
                None => echo_reply(request@) is None,
            },
    {
        if request.icmp_type != ICMP_ECHO_REQUEST || request.code != 0 {
            return None;
        }
        Some(
            Self {
                icmp_type: ICMP_ECHO_REPLY,
                code: 0,
                identifier: request.identifier,
                sequence_number: request.sequence_number,
                payload: request.payload.clone(),
            },
        )
    }

    /// The message that some bytes are. Their words have to add up in 32 bits.
    pub fn parse_bytes(bytes: Bytes) -> (result: Result<Self, IcmpParseError>)
        requires
            contents(bytes).len() >= 8 ==> word_sum(contents(bytes)) <= u32::MAX,
        ensures
            match result {
                Ok(message) => icmp_rejection(contents(bytes)) is None && message@ == icmp_parsed(
                    contents(bytes),
                ),
                Err(error) => icmp_rejection(contents(bytes)) == Some(error),
            },
    {
        if bytes.len() < ICMP_ECHO_HEADER_LEN {
            return Err(IcmpParseError::MessageTooShort);
        }
        if !verify_internet_checksum(bytes.deref()) {
            return Err(IcmpParseError::InvalidChecksum);
        }
        let d = bytes.deref();
        let message = Self {
            icmp_type: d[0],
            code: d[1],
            identifier: join16(d[4], d[5]),
            sequence_number: join16(d[6], d[7]),
            payload: slice(&bytes, ICMP_ECHO_HEADER_LEN, bytes.len()),
        };
        assert(message@ =~= icmp_parsed(contents(bytes)));
        Ok(message)
    }

    /// The message as it is sent. Its words have to add up in 32 bits.
    pub fn serialize(&self) -> (bytes: Bytes)
        requires
            8 + self@.payload.len() <= isize::MAX,
            word_sum(icmp_bytes_with(self@, 0)) <= u32::MAX,
        ensures
            contents(bytes) == icmp_bytes(self@),
    {
        let mut buffer = BytesMut::with_capacity(ICMP_ECHO_HEADER_LEN + self.payload.len());
        put_u8(&mut buffer, self.icmp_type);
        put_u8(&mut buffer, self.code);
        put_u16(&mut buffer, 0);
        put_u16(&mut buffer, self.identifier);
        put_u16(&mut buffer, self.sequence_number);
        buffer.extend_from_slice(self.payload.deref());
        assert(written(buffer) =~= icmp_bytes_with(self@, 0));
        let checksum: u16 = internet_checksum(buffer.deref());
        set_u16(&mut buffer, 2, checksum);
        assert(written(buffer) =~= icmp_bytes(self@));
        buffer.freeze()
    }
}

/// What is sent is what is received: the bytes of a message are accepted, and
/// give the message back.
pub proof fn law_icmp_round_trip(message: IcmpView)
    ensures
        icmp_rejection(icmp_bytes(message)) is None,
        icmp_parsed(icmp_bytes(message)) == message,
{
    let blank = icmp_bytes_with(message, 0);
    let checksum = checksum_of(blank);
    let full = icmp_bytes(message);
    law_inserted_checksum_verifies(blank, 2);
    assert(with_word(blank, 2, checksum) =~= full);
    assert(full[4] == be16(message.identifier)[0] && full[5] == be16(message.identifier)[1]);
    assert(full[6] == be16(message.sequence_number)[0] && full[7] == be16(
        message.sequence_number,
    )[1]);
    assert(full.skip(8) =~= message.payload);
}

/// A reply brings back what the request carried.
pub proof fn law_echo_reply(request: IcmpView)
    ensures
        echo_reply(request) is Some <==> request.icmp_type == ICMP_ECHO_REQUEST && request.code
            == 0,
        echo_reply(request) matches Some(reply) ==> {
            &&& reply.icmp_type == ICMP_ECHO_REPLY
            &&& reply.code == 0
            &&& reply.identifier == request.identifier
            &&& reply.sequence_number == request.sequence_number
            &&& reply.payload == request.payload
        },
{
}

/// Damage to one word of a message is found.
pub proof fn law_damaged_message_is_refused(data: Seq<u8>, index: int, damage: u16)
    requires
        icmp_rejection(data) is None,
        0 <= index,
        index % 2 == 0,
        index + 2 <= data.len(),
        damage != word(data[index], data[index + 1]),
        !(damage == 0 && word(data[index], data[index + 1]) == 0xffff),
        !(damage == 0xffff && word(data[index], data[index + 1]) == 0),
    ensures
        icmp_rejection(with_word(data, index, damage)) == Some(IcmpParseError::InvalidChecksum),
{
    law_damaged_word_is_found(data, index, damage);
}

/// Where the fields of a message are read, in any message that is accepted.
pub proof fn law_fields_stand_at_their_places(data: Seq<u8>)
    requires
        data.len() >= 8,
    ensures
        ({
            let parsed = icmp_parsed(data);
            &&& parsed.icmp_type == data[0]
            &&& parsed.code == data[1]
            &&& parsed.identifier == data[4] * 256 + data[5]
            &&& parsed.sequence_number == data[6] * 256 + data[7]
            &&& parsed.payload == data.skip(8)
        }),
{
}

/// Which bytes are a message: at least eight, whose checksum is right.
pub proof fn law_which_bytes_are_a_message(data: Seq<u8>)
    ensures
        icmp_rejection(data) == Some(IcmpParseError::MessageTooShort) <==> data.len() < 8,
        icmp_rejection(data) == Some(IcmpParseError::InvalidChecksum) <==> data.len() >= 8
            && checksum_of(data) != 0,
        icmp_rejection(data) is None <==> data.len() >= 8 && checksum_of(data) == 0,
{
}

/// How a message is laid out as it is sent.
pub proof fn law_message_is_laid_out(message: IcmpView)
    ensures
        ({
            let bytes = icmp_bytes(message);
            &&& bytes.len() == 8 + message.payload.len()
            &&& bytes[0] == message.icmp_type
            &&& bytes[1] == message.code
            &&& checksum_of(bytes) == 0
            &&& bytes[4] * 256 + bytes[5] == message.identifier
            &&& bytes[6] * 256 + bytes[7] == message.sequence_number
            &&& bytes.skip(8) == message.payload
        }),
{
    law_icmp_round_trip(message);
    law_fields_stand_at_their_places(icmp_bytes(message));
}

/// Every echo request, whatever it carries, is sent back as a reply with the
/// type 0; a request has the type 8 and the code 0.
pub proof fn law_every_echo_request_is_answered(
    identifier: u16,
    sequence_number: u16,
    payload: Seq<u8>,
    other: IcmpView,
)
    ensures
        echo_reply(
            IcmpView { icmp_type: 8, code: 0, identifier, sequence_number, payload },
        ) == Some(IcmpView { icmp_type: 0, code: 0, identifier, sequence_number, payload }),
        other.icmp_type != 8 || other.code != 0 ==> echo_reply(other) is None,
{
}

/// What is told of bytes that are no message.
pub proof fn law_what_is_told_of_messages()
    ensures
        IcmpParseError::MessageTooShort.text() == "MessageTooShort"@,
        IcmpParseError::InvalidChecksum.text() == "InvalidChecksum"@,
{
}

} // verus!
