//! A small, verified TCP/IP stack: byte streams, TCP, IPv4, ICMP, ARP and
//! Ethernet, from the wire format up to a host that holds one connection.
pub mod arp;
pub mod buffer;
pub mod byte_stream;
pub mod checksum;
pub mod ethernet_frame;
pub mod host_cli;
pub mod icmp;
pub mod ifreq;
pub mod ip_host;
pub mod ipv4_datagram;
pub mod network_interface;
pub mod pcap;
pub mod reassembler;
pub mod router;
pub mod tap_host;
pub mod tcp_connection;
pub mod tcp_ipv4;
pub mod tcp_message;
pub mod tcp_receiver;
pub mod tcp_segment;
pub mod tcp_sender;
pub mod text;
pub mod tun_probe;
pub mod webget;
pub mod wrapping_integers;
