//! What the two ends of a TCP byte stream tell each other.
use crate::buffer::contents;
use crate::wrapping_integers::Wrap32;
use bytes::Bytes;
use vstd::prelude::*;

verus! {

/// A segment sent from a TCP sender to a TCP receiver.
///
/// SYN and FIN each occupy one sequence number, and so does every payload byte.
#[derive(Debug, PartialEq, Eq)]
pub struct TcpSenderMessage {
    /// The sequence number of SYN where `syn` is set, otherwise that of the
    /// first payload byte or of FIN.
    pub seqno: Wrap32,
    /// Marks the beginning of the byte stream.
    pub syn: bool,
    /// The bytes of the stream that the segment carries.
    pub payload: Bytes,
    /// Marks the end of the byte stream.
    pub fin: bool,
    /// Gives the stream up because of an error.
    pub rst: bool,
}

/// What a [`TcpSenderMessage`] says.
#[verifier::ext_equal]
pub struct SenderMessageView {
    pub seqno: Wrap32,
    pub syn: bool,
    pub payload: Seq<u8>,
    pub fin: bool,
    pub rst: bool,
}

/// One for a flag that is set.
pub open spec fn flag(set: bool) -> nat {
    if set {
        1
    } else {
        0
    }
}

impl SenderMessageView {
    /// How many sequence numbers the segment occupies.
    pub open spec fn sequence_length(self) -> nat {
        flag(self.syn) + self.payload.len() + flag(self.fin)
    }
}

impl View for TcpSenderMessage {
    type V = SenderMessageView;

    open spec fn view(&self) -> SenderMessageView {
        SenderMessageView {
            seqno: self.seqno,
            syn: self.syn,
            payload: contents(self.payload),
            fin: self.fin,
            rst: self.rst,
        }
    }
}

impl Clone for TcpSenderMessage {
    fn clone(&self) -> (copy: Self)
        ensures
            copy@ == self@,
    {
        Self {
            seqno: self.seqno,
            syn: self.syn,
            payload: self.payload.clone(),
            fin: self.fin,
            rst: self.rst,
        }
    }
}

impl TcpSenderMessage {
    /// A message that occupies no sequence number.
    pub fn new(seqno: Wrap32) -> (message: Self)
        ensures
            message@ == (SenderMessageView {
                seqno,
                syn: false,
                payload: Seq::empty(),
                fin: false,
                rst: false,
            }),
    {
        Self { seqno, syn: false, payload: Bytes::new(), fin: false, rst: false }
    }

    /// How many sequence numbers the segment occupies.
    pub fn sequence_length(&self) -> (length: u64)
        requires
            self@.sequence_length() <= u64::MAX,
        ensures
            length == self@.sequence_length(),
    {
        let syn: u64 = if self.syn {
            1
        } else {
            0
        };
        let fin: u64 = if self.fin {
            1
        } else {
            0
        };
        syn + self.payload.len() as u64 + fin
    }

    /// Whether the message occupies no sequence number. Such a message serves to
    /// carry an acknowledgement; it is not retransmitted.
    pub fn is_empty_in_sequence_space(&self) -> (empty: bool)
        ensures
            empty == (self@.sequence_length() == 0),
    {
        !self.syn && self.payload.is_empty() && !self.fin
    }
}

/// What a TCP receiver tells the sender of the other side.
#[derive(Debug, Clone, Copy, PartialEq, Eq)]
pub struct TcpReceiverMessage {
    /// The next sequence number that the receiver needs, `None` before it has
    /// seen a SYN.
    pub ackno: Option<Wrap32>,
    /// How many more sequence numbers the receiver takes.
    pub window_size: u16,
    /// Gives the stream up because of an error.
    pub rst: bool,
}

impl Default for TcpReceiverMessage {
    fn default() -> (message: Self)
        ensures
            message == (TcpReceiverMessage { ackno: None, window_size: 0, rst: false }),
    {
        Self { ackno: None, window_size: 0, rst: false }
    }
}

/// A message occupies one sequence number for each byte of its payload, one for
/// the SYN and one for the FIN.
pub proof fn law_what_occupies_sequence_numbers(message: SenderMessageView)
    ensures
        message.syn && message.fin ==> message.sequence_length() == message.payload.len() + 2,
        message.syn != message.fin ==> message.sequence_length() == message.payload.len() + 1,
        !message.syn && !message.fin ==> message.sequence_length() == message.payload.len(),
{
}

} // verus!
