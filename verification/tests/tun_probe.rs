use bytes::Bytes;
use minnow_rs::ipv4_datagram::Ipv4Datagram;
use minnow_rs::tun_probe::{probe_line, protocol_name};

#[test]
fn datagrams_are_told_of_in_a_line() {
    let mut datagram =
        Ipv4Datagram::new_tcp([10, 0, 0, 1], [255, 254, 3, 40], Bytes::from_static(b"12345"));

    assert_eq!(
        probe_line(&datagram),
        "IPv4: 10.0.0.1 -> 255.254.3.40 proto=TCP payload_len=5"
    );

    datagram.header.protocol = 17;
    datagram.payload = Bytes::new();
    assert_eq!(
        probe_line(&datagram),
        "IPv4: 10.0.0.1 -> 255.254.3.40 proto=UDP payload_len=0"
    );
}

#[test]
fn protocols_have_names() {
    assert_eq!(protocol_name(6), "TCP");
    assert_eq!(protocol_name(1), "ICMP");
    assert_eq!(protocol_name(17), "UDP");
    assert_eq!(protocol_name(2), "OTHER");
}
