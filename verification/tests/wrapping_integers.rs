use minnow_rs::wrapping_integers::{Wrap32, MODULUS};

#[test]
fn raw_value_round_trip() {
    let value = Wrap32::new(123);

    assert_eq!(value.raw_value(), 123);
}

#[test]
fn wrap_without_overflow() {
    let isn = Wrap32::new(1_000);

    assert_eq!(Wrap32::wrap(0, isn), Wrap32::new(1_000));
    assert_eq!(Wrap32::wrap(5, isn), Wrap32::new(1_005));
}

#[test]
fn wrap_crosses_u32_boundary() {
    let isn = Wrap32::new(u32::MAX - 1);

    assert_eq!(Wrap32::wrap(0, isn), Wrap32::new(u32::MAX - 1));
    assert_eq!(Wrap32::wrap(1, isn), Wrap32::new(u32::MAX));
    assert_eq!(Wrap32::wrap(2, isn), Wrap32::new(0));
    assert_eq!(Wrap32::wrap(3, isn), Wrap32::new(1));
}

#[test]
fn unwrap_without_wraparound() {
    let isn = Wrap32::new(1_000);
    let seqno = Wrap32::new(1_005);

    assert_eq!(seqno.unwrap(isn, 4), 5);
}

#[test]
fn unwrap_selects_first_era_near_small_checkpoint() {
    let isn = Wrap32::new(0);
    let seqno = Wrap32::new(17);

    assert_eq!(seqno.unwrap(isn, 20), 17);
}

#[test]
fn unwrap_selects_later_era_near_large_checkpoint() {
    let isn = Wrap32::new(0);
    let seqno = Wrap32::new(17);

    assert_eq!(seqno.unwrap(isn, MODULUS + 20), MODULUS + 17);
}

#[test]
fn unwrap_handles_wrapped_isn() {
    let isn = Wrap32::new(u32::MAX - 1);

    assert_eq!(Wrap32::new(0).unwrap(isn, 2), 2);
    assert_eq!(Wrap32::new(1).unwrap(isn, 3), 3);
}

#[test]
fn wrap_and_unwrap_round_trip_across_multiple_eras() {
    let isn = Wrap32::new(9_876);
    let absolute = 3 * MODULUS + 123;

    let wrapped = Wrap32::wrap(absolute, isn);

    assert_eq!(wrapped.unwrap(isn, absolute), absolute);
}

#[test]
fn unwrap_keeps_to_the_era_of_the_checkpoint_between_two_equally_close_numbers() {
    let zero = Wrap32::new(0);

    assert_eq!(Wrap32::new(0x8000_0000).unwrap(zero, 0), 0x8000_0000);
    assert_eq!(Wrap32::new(0).unwrap(zero, 0x8000_0000), 0);
    assert_eq!(Wrap32::new(0).unwrap(zero, 0x8000_0001), 1 << 32);
}

#[test]
fn unwrap_stays_within_64_bits() {
    let zero = Wrap32::new(0);

    assert_eq!(Wrap32::new(0xffff_ffff).unwrap(zero, u64::MAX), u64::MAX);
    assert_eq!(Wrap32::new(0).unwrap(zero, u64::MAX), u64::MAX - 0xffff_ffff);
    assert_eq!(Wrap32::new(0xffff_ffff).unwrap(zero, 0), 0xffff_ffff);
}

#[test]
fn unwrapping_and_wrapping_gives_the_sequence_number_back() {
    let zero = Wrap32::new(77);
    let seqno = Wrap32::new(12);

    for checkpoint in [0, 1, 0x8000_0000, 1 << 40, u64::MAX] {
        assert_eq!(Wrap32::wrap(seqno.unwrap(zero, checkpoint), zero), seqno);
    }
}

#[test]
fn default_sequence_number_is_zero() {
    assert_eq!(Wrap32::default(), Wrap32::new(0));
    assert_eq!(Wrap32::default().raw_value(), 0);
}
