use minnow_rs::pcap::{global_header, packet_record, PcapLinkType};

fn capture(link_type: PcapLinkType, packet: &[u8]) -> Vec<u8> {
    let mut bytes = global_header(link_type);

    bytes.extend(packet_record(0x1_2345_6789, 0x000a_bcde, packet).unwrap());
    bytes
}

#[test]
fn writes_classic_pcap_with_raw_linktype() {
    let packet = [
        0x45, 0x00, 0x00, 0x14, 0, 0, 0x40, 0, 64, 1, 0, 0, 127, 0, 0, 1, 127, 0, 0, 1,
    ];
    let bytes = capture(PcapLinkType::RawIpv4, &packet);

    assert_eq!(&bytes[0..4], &[0xd4, 0xc3, 0xb2, 0xa1]);
    assert_eq!(
        u32::from_le_bytes(bytes[20..24].try_into().unwrap()),
        PcapLinkType::RawIpv4.code()
    );
    assert_eq!(
        u32::from_le_bytes(bytes[32..36].try_into().unwrap()),
        packet.len() as u32
    );
    assert_eq!(&bytes[40..], &packet);
}

#[test]
fn writes_ethernet_linktype() {
    let bytes = capture(PcapLinkType::Ethernet, &[0xff; 14]);

    assert_eq!(
        u32::from_le_bytes(bytes[20..24].try_into().unwrap()),
        PcapLinkType::Ethernet.code()
    );
}

#[test]
fn capture_is_exact() {
    let bytes = capture(PcapLinkType::RawIpv4, &[7, 8]);

    assert_eq!(
        bytes,
        vec![
            0xd4, 0xc3, 0xb2, 0xa1, 2, 0, 4, 0, 0, 0, 0, 0, 0, 0, 0, 0, 0xff, 0xff, 0, 0, 101, 0,
            0, 0, 0x89, 0x67, 0x45, 0x23, 0xde, 0xbc, 0x0a, 0, 2, 0, 0, 0, 2, 0, 0, 0, 7, 8,
        ]
    );
    assert_eq!(PcapLinkType::Ethernet.code(), 1);
}
