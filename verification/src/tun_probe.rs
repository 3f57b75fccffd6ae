//! What is printed of packets that pass by.
use crate::ipv4_datagram::{DatagramView, Ipv4Datagram, IPV4_PROTOCOL_TCP};
use crate::text::{decimal, fmt_ip, ip_text, push_decimal};
use vstd::prelude::*;
use vstd::string::StringExecFns;

verus! {

/// The name of a protocol.
pub open spec fn protocol_text(protocol: u8) -> Seq<char> {
    if protocol == IPV4_PROTOCOL_TCP {
        "TCP"@
    } else if protocol == 1 {
        "ICMP"@
    } else if protocol == 17 {
        "UDP"@
    } else {
        "OTHER"@
    }
}

/// The line that tells of a datagram.
pub open spec fn probe_text(datagram: DatagramView) -> Seq<char> {
    "IPv4: "@ + ip_text(datagram.header.src.0@) + " -> "@ + ip_text(datagram.header.dst.0@)
        + " proto="@ + protocol_text(datagram.header.protocol) + " payload_len="@ + decimal(
        datagram.payload.len(),
    )
}

/// The name of a protocol.
pub fn protocol_name(protocol: u8) -> (name: &'static str)
    ensures
        name@ == protocol_text(protocol),
{
    if protocol == IPV4_PROTOCOL_TCP {
        "TCP"
    } else if protocol == 1 {
        "ICMP"
    } else if protocol == 17 {
        "UDP"
    } else {
        "OTHER"
    }
}

/// The line that tells of a datagram.
pub fn probe_line(datagram: &Ipv4Datagram) -> (line: String)
    ensures
        line@ == probe_text(datagram@),
{
    let mut line = String::from_str("IPv4: ");
    line.append(fmt_ip(datagram.header.src.octets()).as_str());
    line.append(" -> ");
    line.append(fmt_ip(datagram.header.dst.octets()).as_str());
    line.append(" proto=");
    line.append(protocol_name(datagram.header.protocol));
    line.append(" payload_len=");
    push_decimal(&mut line, datagram.payload.len() as u64);
    line
}

/// What is printed of a datagram: its addresses, the name of its protocol, of
/// which three are known by their numbers, and the length of its payload.
pub proof fn law_what_is_printed_of_datagrams(datagram: DatagramView)
    ensures
        ({
            let protocol = datagram.header.protocol;
            probe_text(datagram) == "IPv4: "@ + ip_text(datagram.header.src.0@) + " -> "@ + ip_text(
                datagram.header.dst.0@,
            ) + " proto="@ + (if protocol == 6 {
                "TCP"@
            } else if protocol == 1 {
                "ICMP"@
            } else if protocol == 17 {
                "UDP"@
            } else {
                "OTHER"@
            }) + " payload_len="@ + decimal(datagram.payload.len())
        }),
{
}

} // verus!
