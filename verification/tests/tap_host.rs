use bytes::Bytes;
use minnow_rs::ethernet_frame::{EthernetAddress, EthernetFrame, ETHERTYPE_ARP};
use minnow_rs::icmp::{IcmpMessage, ICMP_ECHO_REPLY};
use minnow_rs::ip_host::{IpHost, IpHostConfig};
use minnow_rs::ipv4_datagram::{Ipv4AddrBytes, Ipv4Datagram};
use minnow_rs::network_interface::NetworkInterface;
use minnow_rs::tap_host::{deliver_next, send_to_interface};
use minnow_rs::wrapping_integers::Wrap32;

const LOCAL: [u8; 4] = [10, 0, 0, 1];
const PEER: [u8; 4] = [10, 0, 0, 2];

fn mac(n: u8) -> EthernetAddress {
    EthernetAddress::new([2, 0, 0, 0, 0, n])
}

fn host() -> IpHost {
    IpHost::new(IpHostConfig::tcp_demo(LOCAL, PEER, 1, 2, Wrap32::new(0)))
}

#[test]
fn ping_is_answered_over_the_link() {
    let mut interface = NetworkInterface::new(mac(1), Ipv4AddrBytes::new(LOCAL));
    let mut host = host();
    let ping = IcmpMessage::echo_request(3, 4, Bytes::from_static(b"ping"));
    let datagram = Ipv4Datagram::new_icmp(PEER, LOCAL, ping.serialize());

    interface.learn_arp_mapping(Ipv4AddrBytes::new(PEER), mac(2));
    interface.recv_frame(EthernetFrame::ipv4(mac(1), mac(2), datagram.serialize()));

    assert_eq!(deliver_next(&mut interface, &mut host).unwrap().len(), 2);
    assert!(deliver_next(&mut interface, &mut host).is_none());

    let frame = interface.pop_frame().unwrap();
    assert_eq!(frame.header.dst, mac(2));

    let reply = Ipv4Datagram::parse_bytes(frame.payload).unwrap();
    assert_eq!(reply.header.dst, Ipv4AddrBytes::new(PEER));

    let pong = IcmpMessage::parse_bytes(reply.payload).unwrap();
    assert_eq!(pong.icmp_type, ICMP_ECHO_REPLY);
    assert_eq!(pong.payload, Bytes::from_static(b"ping"));
}

#[test]
fn output_waits_until_the_peer_is_found() {
    let mut interface = NetworkInterface::new(mac(1), Ipv4AddrBytes::new(LOCAL));
    let mut host = host();

    send_to_interface(&mut interface, host.connect().datagrams);

    assert_eq!(interface.pending_len(), 1);
    assert_eq!(interface.pop_frame().unwrap().header.ethertype, ETHERTYPE_ARP);

    interface.learn_arp_mapping(Ipv4AddrBytes::new(PEER), mac(2));
    assert_eq!(interface.frames_out_len(), 1);
}
