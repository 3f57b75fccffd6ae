use minnow_rs::checksum::{
    internet_checksum, tcp_checksum_ipv4, verify_internet_checksum, InternetChecksum,
};

#[test]
fn checksum_of_empty_data_is_ffff() {
    assert_eq!(internet_checksum(&[]), 0xffff);
}

#[test]
fn checksum_handles_even_length_data() {
    let data = [0x00, 0x01, 0xf2, 0x03];

    assert_eq!(internet_checksum(&data), 0x0dfb);
}

#[test]
fn checksum_handles_odd_length_data() {
    let data = [0x00, 0x01, 0xf2];

    assert_eq!(internet_checksum(&data), 0x0dfe);
}

#[test]
fn checksum_verifies_header_with_checksum_inserted() {
    let mut data = vec![0x45, 0x00, 0x00, 0x14, 0x00, 0x00, 0x40, 0x00];
    data.extend_from_slice(&[64, 6, 0x00, 0x00]);
    data.extend_from_slice(&[127, 0, 0, 1]);
    data.extend_from_slice(&[127, 0, 0, 1]);

    let checksum = internet_checksum(&data);

    data[10] = (checksum >> 8) as u8;
    data[11] = checksum as u8;

    assert!(verify_internet_checksum(&data));
}

#[test]
fn incremental_checksum_matches_one_shot() {
    let data = b"hello world";

    let mut incremental = InternetChecksum::new();
    incremental.add_bytes(&data[..3]);
    incremental.add_bytes(&data[3..8]);
    incremental.add_bytes(&data[8..]);

    assert_eq!(incremental.checksum(), internet_checksum(data));
}

#[test]
fn tcp_checksum_ipv4_is_stable() {
    let src = [10, 0, 0, 1];
    let dst = [10, 0, 0, 2];

    let mut tcp = vec![0u8; 20];
    tcp[0..2].copy_from_slice(&1234u16.to_be_bytes());
    tcp[2..4].copy_from_slice(&80u16.to_be_bytes());
    tcp[12] = 5u8 << 4;

    let csum = tcp_checksum_ipv4(src, dst, &tcp);

    tcp[16..18].copy_from_slice(&csum.to_be_bytes());

    assert_eq!(tcp_checksum_ipv4(src, dst, &tcp), 0);
}

#[test]
fn pieces_add_up_to_the_whole_wherever_they_are_cut() {
    let data: Vec<u8> = (0..=40).map(|i: u8| i.wrapping_mul(37)).collect();

    for cut in 0..=data.len() {
        let mut checksum = InternetChecksum::default();

        checksum.add_bytes(&data[..cut]);
        checksum.add_bytes(&[]);
        checksum.add_bytes(&data[cut..]);
        assert_eq!(checksum.checksum(), internet_checksum(&data));
    }
}

#[test]
fn carries_are_added_back_in() {
    assert_eq!(internet_checksum(&[0xff, 0xff, 0x00, 0x01]), 0xfffe);
    assert_eq!(internet_checksum(&[0xff, 0xff]), 0);
    assert_eq!(internet_checksum(&[0xff; 65536]), 0);
    assert_eq!(internet_checksum(&[0x80, 0x00, 0x80, 0x00]), 0xfffe);
}

#[test]
fn damaged_bytes_do_not_verify() {
    assert!(verify_internet_checksum(&[0x12, 0x34, 0xed, 0xcb]));
    assert!(!verify_internet_checksum(&[0x12, 0x34, 0xed, 0xca]));
    assert!(!verify_internet_checksum(&[]));
}

#[test]
fn tcp_checksum_covers_addresses_and_length() {
    let segment = [0u8; 20];

    // Addresses 10.0.0.1 and 10.0.0.2, protocol 6, length 20.
    assert_eq!(
        tcp_checksum_ipv4([10, 0, 0, 1], [10, 0, 0, 2], &segment),
        !(0x0a00 + 0x0001 + 0x0a00 + 0x0002 + 6 + 20)
    );
}
