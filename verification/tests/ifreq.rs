use minnow_rs::ifreq::{
    ifreq_name_to_string, validate_interface_name, IfReq, InterfaceNameError, IFNAMSIZ,
};

#[test]
fn ifreq_uses_tap_flags() {
    let flags = (libc::IFF_TAP | libc::IFF_NO_PI) as libc::c_short;
    let ifreq = IfReq::new("tap144", flags).unwrap();

    assert_eq!(ifreq_name_to_string(&ifreq.ifr_name), "tap144");
    assert_eq!(ifreq.ifr_flags, flags);
}

#[test]
fn rejects_invalid_interface_names() {
    assert!(IfReq::new("", 0).is_err());
    assert!(IfReq::new("tap\0bad", 0).is_err());
    assert!(IfReq::new(&"a".repeat(libc::IFNAMSIZ), 0).is_err());
}

#[test]
fn rejects_empty_interface_name() {
    assert!(IfReq::new("", 0).is_err());
}

#[test]
fn rejects_interface_name_with_nul() {
    assert!(IfReq::new("tun\0bad", 0).is_err());
}

#[test]
fn rejects_too_long_interface_name() {
    let name = "a".repeat(libc::IFNAMSIZ);

    assert!(IfReq::new(&name, 0).is_err());
}

#[test]
fn accepts_maximum_valid_interface_name_length() {
    let name = "a".repeat(libc::IFNAMSIZ - 1);

    let ifreq = IfReq::new(&name, 123).unwrap();

    assert_eq!(ifreq_name_to_string(&ifreq.ifr_name), name);
    assert_eq!(ifreq.ifr_flags, 123);
}

#[test]
fn ifreq_stores_name_and_flags() {
    let flags = (libc::IFF_TUN | libc::IFF_NO_PI) as libc::c_short;

    let ifreq = IfReq::new("tun144", flags).unwrap();

    assert_eq!(ifreq_name_to_string(&ifreq.ifr_name), "tun144");
    assert_eq!(ifreq.ifr_flags, flags);
}

#[test]
fn names_are_refused_for_a_reason() {
    assert_eq!(validate_interface_name(""), Err(InterfaceNameError::Empty));
    assert_eq!(
        validate_interface_name("a name that is long\0"),
        Err(InterfaceNameError::ContainsNul)
    );
    assert_eq!(
        validate_interface_name("a name that is long"),
        Err(InterfaceNameError::TooLong)
    );
    assert_eq!(validate_interface_name("eth0"), Ok(()));
    assert_eq!(IFNAMSIZ, libc::IFNAMSIZ);
}

#[test]
fn names_are_measured_in_bytes() {
    assert!(IfReq::new("ääääääää", 0).is_err());

    let ifreq = IfReq::new("äääääää", 0).unwrap();

    assert_eq!(ifreq_name_to_string(&ifreq.ifr_name), "äääääää");
}

#[test]
fn name_that_is_no_text_is_read_as_far_as_possible() {
    let mut name = [b'x'; 16];

    name[1] = 0xff;
    name[3] = 0;
    assert_eq!(ifreq_name_to_string(&name), "x\u{fffd}x");
    name[1] = b'y';
    name[3] = b'z';
    assert_eq!(ifreq_name_to_string(&name), "xyxzxxxxxxxxxxxx");
}
