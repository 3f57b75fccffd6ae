use bytes::Bytes;
use minnow_rs::arp::{ArpMessage, ArpOperation};
use minnow_rs::ethernet_frame::{
    EthernetAddress, EthernetFrame, ETHERTYPE_ARP, ETHERTYPE_IPV4,
};
use minnow_rs::ipv4_datagram::{Ipv4AddrBytes, Ipv4Datagram};
use minnow_rs::network_interface::{
    NetworkInterface, ARP_CACHE_TTL_MS, PENDING_DATAGRAM_TTL_MS,
};

fn my_mac() -> EthernetAddress {
    EthernetAddress::new([0x02, 0x00, 0x00, 0x00, 0x00, 0x01])
}

fn peer_mac() -> EthernetAddress {
    EthernetAddress::new([0x02, 0x00, 0x00, 0x00, 0x00, 0x02])
}

fn other_mac() -> EthernetAddress {
    EthernetAddress::new([0x02, 0x00, 0x00, 0x00, 0x00, 0x03])
}

fn my_ip() -> Ipv4AddrBytes {
    Ipv4AddrBytes::new([169, 254, 144, 2])
}

fn peer_ip() -> Ipv4AddrBytes {
    Ipv4AddrBytes::new([169, 254, 144, 1])
}

fn other_ip() -> Ipv4AddrBytes {
    Ipv4AddrBytes::new([10, 0, 0, 99])
}

fn interface() -> NetworkInterface {
    NetworkInterface::new(my_mac(), my_ip())
}

fn datagram(payload: &'static [u8]) -> Ipv4Datagram {
    Ipv4Datagram::new_tcp(
        my_ip().octets(),
        peer_ip().octets(),
        Bytes::from_static(payload),
    )
}

fn arp_reply_from_peer() -> EthernetFrame {
    let arp = ArpMessage::reply(peer_mac(), peer_ip().octets(), my_mac(), my_ip().octets());

    EthernetFrame::arp(my_mac(), peer_mac(), arp.serialize())
}

#[test]
fn cache_hit_sends_ipv4_frame_immediately() {
    let mut iface = interface();

    iface.learn_arp_mapping(peer_ip(), peer_mac());

    iface.send_datagram(datagram(b"abc"), peer_ip());

    assert_eq!(iface.frames_out_len(), 1);

    let frame = iface.pop_frame().unwrap();

    assert_eq!(frame.header.dst, peer_mac());
    assert_eq!(frame.header.src, my_mac());
    assert_eq!(frame.header.ethertype, ETHERTYPE_IPV4);

    let parsed = Ipv4Datagram::parse_bytes(frame.payload).unwrap();

    assert_eq!(parsed.payload, Bytes::from_static(b"abc"));
}

#[test]
fn cache_miss_sends_arp_request_and_queues_datagram() {
    let mut iface = interface();

    iface.send_datagram(datagram(b"abc"), peer_ip());

    assert_eq!(iface.frames_out_len(), 1);
    assert_eq!(iface.pending_len(), 1);

    let frame = iface.pop_frame().unwrap();

    assert_eq!(frame.header.dst, EthernetAddress::broadcast());
    assert_eq!(frame.header.src, my_mac());
    assert_eq!(frame.header.ethertype, ETHERTYPE_ARP);

    let arp = ArpMessage::parse_bytes(frame.payload).unwrap();

    assert_eq!(arp.operation, ArpOperation::Request);
    assert_eq!(arp.sender_ethernet_address, my_mac());
    assert_eq!(arp.sender_ip_address, my_ip().octets());
    assert_eq!(arp.target_ethernet_address, EthernetAddress::zero());
    assert_eq!(arp.target_ip_address, peer_ip().octets());
}

#[test]
fn repeated_datagrams_within_cooldown_do_not_send_duplicate_arp_requests() {
    let mut iface = interface();

    iface.send_datagram(datagram(b"one"), peer_ip());
    iface.send_datagram(datagram(b"two"), peer_ip());
    iface.send_datagram(datagram(b"three"), peer_ip());

    assert_eq!(iface.frames_out_len(), 1);
    assert_eq!(iface.pending_len(), 1);

    let frame = iface.pop_frame().unwrap();
    let arp = ArpMessage::parse_bytes(frame.payload).unwrap();

    assert_eq!(arp.operation, ArpOperation::Request);
}

#[test]
fn after_pending_expires_new_datagram_can_trigger_new_arp_request() {
    let mut iface = interface();

    iface.send_datagram(datagram(b"one"), peer_ip());

    assert_eq!(iface.frames_out_len(), 1);
    assert_eq!(iface.pending_len(), 1);

    iface.pop_frame();

    iface.tick(PENDING_DATAGRAM_TTL_MS);

    assert_eq!(iface.pending_len(), 0);

    iface.send_datagram(datagram(b"two"), peer_ip());

    assert_eq!(iface.frames_out_len(), 1);
    assert_eq!(iface.pending_len(), 1);
}

#[test]
fn arp_reply_learns_mapping_and_flushes_queued_datagrams() {
    let mut iface = interface();

    iface.send_datagram(datagram(b"one"), peer_ip());
    iface.send_datagram(datagram(b"two"), peer_ip());

    assert_eq!(iface.frames_out_len(), 1);
    assert_eq!(iface.pending_len(), 1);

    iface.pop_frame();

    iface.recv_frame(arp_reply_from_peer());

    assert_eq!(iface.pending_len(), 0);
    assert_eq!(iface.arp_cache_len(), 1);
    assert_eq!(iface.lookup_ethernet_address(peer_ip()), Some(peer_mac()));

    assert_eq!(iface.frames_out_len(), 2);

    let first = iface.pop_frame().unwrap();
    let second = iface.pop_frame().unwrap();

    assert_eq!(first.header.dst, peer_mac());
    assert_eq!(second.header.dst, peer_mac());
    assert_eq!(first.header.ethertype, ETHERTYPE_IPV4);
    assert_eq!(second.header.ethertype, ETHERTYPE_IPV4);

    let first_datagram = Ipv4Datagram::parse_bytes(first.payload).unwrap();
    let second_datagram = Ipv4Datagram::parse_bytes(second.payload).unwrap();

    assert_eq!(first_datagram.payload, Bytes::from_static(b"one"));
    assert_eq!(second_datagram.payload, Bytes::from_static(b"two"));
}

#[test]
fn arp_request_for_my_ip_gets_reply_and_learns_sender() {
    let mut iface = interface();

    let request = ArpMessage::request(peer_mac(), peer_ip().octets(), my_ip().octets());

    let frame = EthernetFrame::arp(EthernetAddress::broadcast(), peer_mac(), request.serialize());

    iface.recv_frame(frame);

    assert_eq!(iface.lookup_ethernet_address(peer_ip()), Some(peer_mac()));
    assert_eq!(iface.frames_out_len(), 1);

    let reply_frame = iface.pop_frame().unwrap();

    assert_eq!(reply_frame.header.dst, peer_mac());
    assert_eq!(reply_frame.header.src, my_mac());
    assert_eq!(reply_frame.header.ethertype, ETHERTYPE_ARP);

    let reply = ArpMessage::parse_bytes(reply_frame.payload).unwrap();

    assert_eq!(reply.operation, ArpOperation::Reply);
    assert_eq!(reply.sender_ethernet_address, my_mac());
    assert_eq!(reply.sender_ip_address, my_ip().octets());
    assert_eq!(reply.target_ethernet_address, peer_mac());
    assert_eq!(reply.target_ip_address, peer_ip().octets());
}

#[test]
fn arp_request_for_someone_else_is_learned_but_not_replied_to() {
    let mut iface = interface();

    let request = ArpMessage::request(peer_mac(), peer_ip().octets(), other_ip().octets());

    let frame = EthernetFrame::arp(EthernetAddress::broadcast(), peer_mac(), request.serialize());

    iface.recv_frame(frame);

    assert_eq!(iface.lookup_ethernet_address(peer_ip()), Some(peer_mac()));
    assert_eq!(iface.frames_out_len(), 0);
}

#[test]
fn ipv4_frame_for_me_is_accepted() {
    let mut iface = interface();

    let dgram = datagram(b"hello");
    let frame = EthernetFrame::ipv4(my_mac(), peer_mac(), dgram.serialize());

    iface.recv_frame(frame);

    assert_eq!(iface.datagrams_in_len(), 1);

    let received = iface.pop_datagram().unwrap();

    assert_eq!(received.payload, Bytes::from_static(b"hello"));
}

#[test]
fn broadcast_ipv4_frame_is_accepted() {
    let mut iface = interface();

    let dgram = datagram(b"hello");
    let frame = EthernetFrame::ipv4(EthernetAddress::broadcast(), peer_mac(), dgram.serialize());

    iface.recv_frame(frame);

    assert_eq!(iface.datagrams_in_len(), 1);
}

#[test]
fn frame_not_for_me_is_ignored() {
    let mut iface = interface();

    let dgram = datagram(b"hello");
    let frame = EthernetFrame::ipv4(other_mac(), peer_mac(), dgram.serialize());

    iface.recv_frame(frame);

    assert_eq!(iface.datagrams_in_len(), 0);
    assert_eq!(iface.frames_out_len(), 0);
}

#[test]
fn malformed_ipv4_frame_is_ignored() {
    let mut iface = interface();

    let frame = EthernetFrame::ipv4(
        my_mac(),
        peer_mac(),
        Bytes::from_static(b"not-an-ipv4-packet"),
    );

    iface.recv_frame(frame);

    assert_eq!(iface.datagrams_in_len(), 0);
}

#[test]
fn malformed_arp_frame_is_ignored() {
    let mut iface = interface();

    let frame = EthernetFrame::arp(my_mac(), peer_mac(), Bytes::from_static(b"too-short"));

    iface.recv_frame(frame);

    assert_eq!(iface.frames_out_len(), 0);
    assert_eq!(iface.arp_cache_len(), 0);
}

#[test]
fn arp_cache_entry_expires_after_30_seconds() {
    let mut iface = interface();

    iface.learn_arp_mapping(peer_ip(), peer_mac());

    assert!(iface.has_arp_cache_entry(peer_ip()));

    iface.tick(ARP_CACHE_TTL_MS - 1);

    assert!(iface.has_arp_cache_entry(peer_ip()));

    iface.tick(1);

    assert!(!iface.has_arp_cache_entry(peer_ip()));
}

#[test]
fn learning_existing_arp_mapping_refreshes_ttl() {
    let mut iface = interface();

    iface.learn_arp_mapping(peer_ip(), peer_mac());

    iface.tick(ARP_CACHE_TTL_MS - 1);

    assert!(iface.has_arp_cache_entry(peer_ip()));

    iface.learn_arp_mapping(peer_ip(), peer_mac());

    iface.tick(1);

    assert!(iface.has_arp_cache_entry(peer_ip()));
}

#[test]
fn arp_reply_for_unrelated_ip_is_still_learned() {
    let mut iface = interface();

    let reply = ArpMessage::reply(
        other_mac(),
        other_ip().octets(),
        peer_mac(),
        peer_ip().octets(),
    );

    let frame = EthernetFrame::arp(my_mac(), other_mac(), reply.serialize());

    iface.recv_frame(frame);

    assert_eq!(iface.lookup_ethernet_address(other_ip()), Some(other_mac()));
}

#[test]
fn two_interfaces_find_each_other() {
    let mut asking = interface();
    let mut asked = NetworkInterface::new(peer_mac(), peer_ip());

    asking.send_datagram(datagram(b"hello"), peer_ip());
    asked.recv_frame(asking.pop_frame().unwrap());
    asking.recv_frame(asked.pop_frame().unwrap());

    assert_eq!(asked.lookup_ethernet_address(my_ip()), Some(my_mac()));
    assert_eq!(asking.lookup_ethernet_address(peer_ip()), Some(peer_mac()));

    asked.recv_frame(asking.pop_frame().unwrap());

    assert_eq!(asked.pop_datagram().unwrap(), datagram(b"hello"));
    assert!(asked.pop_datagram().is_none());
    assert!(asking.pop_frame().is_none());
}

#[test]
fn time_may_pass_in_pieces() {
    let mut iface = interface();

    iface.learn_arp_mapping(peer_ip(), peer_mac());
    iface.send_datagram(datagram(b"x"), other_ip());

    for _ in 0..4_999 {
        iface.tick(1);
    }
    assert_eq!(iface.pending_len(), 1);
    iface.tick(1);
    assert_eq!(iface.pending_len(), 0);
    assert_eq!(iface.arp_cache_len(), 1);
    iface.tick(u64::MAX);
    assert_eq!(iface.arp_cache_len(), 0);
}

#[test]
fn frame_of_another_type_is_ignored() {
    let mut iface = interface();

    iface.recv_frame(EthernetFrame::new(my_mac(), peer_mac(), 0x86dd, datagram(b"x").serialize()));

    assert_eq!(iface.datagrams_in_len(), 0);
    assert_eq!(iface.frames_out_len(), 0);
    assert_eq!(iface.ethernet_address(), my_mac());
    assert_eq!(iface.ip_address(), my_ip());
}

#[test]
fn each_next_hop_is_asked_for() {
    let mut iface = interface();

    iface.send_datagram(datagram(b"x"), other_ip());
    iface.send_datagram(datagram(b"x"), peer_ip());
    iface.tick(4_999);
    iface.send_datagram(datagram(b"y"), peer_ip());

    assert_eq!(iface.frames_out_len(), 2);
    assert_eq!(iface.pending_len(), 2);
}

#[test]
fn within_five_seconds_of_a_request_no_other_goes_out() {
    let mut iface = interface();

    iface.send_datagram(datagram(b"a"), peer_ip());
    assert_eq!(iface.frames_out_len(), 1);

    iface.tick(2_000);
    iface.send_datagram(datagram(b"b"), peer_ip());
    iface.tick(2_999);
    iface.send_datagram(datagram(b"c"), peer_ip());

    assert_eq!(iface.frames_out_len(), 1);
    assert_eq!(iface.pending_len(), 1);

    iface.tick(1);
    assert_eq!(iface.pending_len(), 0);

    iface.send_datagram(datagram(b"d"), peer_ip());
    assert_eq!(iface.frames_out_len(), 2);

    iface.recv_frame(arp_reply_from_peer());
    iface.send_datagram(datagram(b"e"), peer_ip());

    let types: Vec<u16> = (0..4)
        .map(|_| iface.pop_frame().unwrap().header.ethertype)
        .collect();

    assert_eq!(types, [ETHERTYPE_ARP, ETHERTYPE_ARP, ETHERTYPE_IPV4, ETHERTYPE_IPV4]);
    assert!(iface.pop_frame().is_none());
}
