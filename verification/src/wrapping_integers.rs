//! Sequence numbers that wrap around at 32 bits, and the 64-bit numbers that
//! they stand for.
use vstd::prelude::*;

verus! {

/// How many 32-bit sequence numbers there are.
pub const MODULUS: u64 = 0x1_0000_0000;

/// A 32-bit sequence number that counts from an arbitrary zero point and starts
/// over at zero after the largest one.
#[derive(Debug, Clone, Copy, Default, PartialEq, Eq, PartialOrd, Ord, Hash, Structural)]
pub struct Wrap32(pub u32);

/// The distance between two numbers.
pub open spec fn distance(a: int, b: int) -> int {
    if a <= b {
        b - a
    } else {
        a - b
    }
}

/// The sequence number of the absolute number `absolute_seqno`, where absolute
/// numbers count from `zero_point`.
pub open spec fn wrapped(absolute_seqno: int, zero_point: Wrap32) -> Wrap32 {
    Wrap32(((zero_point.0 + absolute_seqno) % 0x1_0000_0000) as u32)
}

/// Whether `absolute` is what `seqno` stands for next to `checkpoint`: of all
/// 64-bit numbers whose sequence number it is, the one closest to the
/// checkpoint, and of two equally close ones that in the checkpoint's own run
/// of 2^32 numbers.
pub open spec fn is_unwrapped(
    seqno: Wrap32,
    zero_point: Wrap32,
    checkpoint: u64,
    absolute: u64,
) -> bool {
    &&& wrapped(absolute as int, zero_point) == seqno
    &&& forall|other: u64| #[trigger] wrapped(other as int, zero_point) == seqno ==> {
        ||| distance(absolute as int, checkpoint as int) < distance(
            other as int,
            checkpoint as int,
        )
        ||| other == absolute
        ||| distance(absolute as int, checkpoint as int) == distance(
            other as int,
            checkpoint as int,
        ) && absolute / 0x1_0000_0000 == checkpoint / 0x1_0000_0000
    }
}

/// The number that `seqno` stands for next to `checkpoint`.
pub open spec fn unwrapped(seqno: Wrap32, zero_point: Wrap32, checkpoint: u64) -> u64 {
    choose|absolute: u64| is_unwrapped(seqno, zero_point, checkpoint, absolute)
}

impl Wrap32 {
    pub fn new(raw_value: u32) -> (seqno: Self)
        ensures
            seqno.0 == raw_value,
    {
        Self(raw_value)
    }

    pub fn raw_value(self) -> (raw: u32)
        ensures
            raw == self.0,
    {
        self.0
    }

    /// The sequence number of an absolute number.
    pub fn wrap(absolute_seqno: u64, zero_point: Self) -> (seqno: Self)
        ensures
            seqno == wrapped(absolute_seqno as int, zero_point),
    {
        assert(#[verifier::truncate] (absolute_seqno as u32) == absolute_seqno % 0x1_0000_0000)
            by (bit_vector);
        Self(zero_point.0.wrapping_add(#[verifier::truncate] (absolute_seqno as u32)))
    }

    /// The absolute number that this sequence number stands for, next to one
    /// that is known to be near.
    pub fn unwrap(self, zero_point: Self, checkpoint: u64) -> (absolute: u64)
        ensures
            is_unwrapped(self, zero_point, checkpoint, absolute),
            absolute == unwrapped(self, zero_point, checkpoint),
    {
        let offset: u64 = self.0.wrapping_sub(zero_point.0) as u64;
        let era_start: u64 = checkpoint / 0x1_0000_0000 * 0x1_0000_0000;
        let current: u64 = era_start + offset;

        let mut best: u64 = current;
        let mut best_distance: u64 = abs_diff(current, checkpoint);

        if let Some(previous) = current.checked_sub(MODULUS) {
            let distance: u64 = abs_diff(previous, checkpoint);
            if distance < best_distance {
                best = previous;
                best_distance = distance;
            }
        }
        if let Some(next) = current.checked_add(MODULUS) {
            let distance: u64 = abs_diff(next, checkpoint);
            if distance < best_distance {
                best = next;
            }
        }
        proof {
            assert(offset == (self.0 - zero_point.0) % 0x1_0000_0000);
            assert(best == closest(self, zero_point, checkpoint));
            lemma_closest(self, zero_point, checkpoint);
            lemma_unwrapped_unique(self, zero_point, checkpoint, best);
        }
        best
    }
}

/// The distance between two numbers.
fn abs_diff(a: u64, b: u64) -> (d: u64)
    ensures
        d == distance(a as int, b as int),
{
    if a <= b {
        b - a
    } else {
        a - b
    }
}

/// A sequence number belongs to those absolute numbers that are as far from the
/// zero point, up to multiples of 2^32.
proof fn lemma_wrapped_iff(seqno: Wrap32, zero_point: Wrap32, absolute: int)
    ensures
        wrapped(absolute, zero_point) == seqno <==> absolute % 0x1_0000_0000 == (seqno.0
            - zero_point.0) % 0x1_0000_0000,
{
}

/// At most one number is what a sequence number stands for next to a checkpoint.
proof fn lemma_unwrapped_unique(
    seqno: Wrap32,
    zero_point: Wrap32,
    checkpoint: u64,
    absolute: u64,
)
    requires
        is_unwrapped(seqno, zero_point, checkpoint, absolute),
    ensures
        unwrapped(seqno, zero_point, checkpoint) == absolute,
{
    let chosen = unwrapped(seqno, zero_point, checkpoint);
    assert(is_unwrapped(seqno, zero_point, checkpoint, chosen));
    assert(wrapped(chosen as int, zero_point) == seqno);
    lemma_wrapped_iff(seqno, zero_point, chosen as int);
    lemma_wrapped_iff(seqno, zero_point, absolute as int);
}

/// Of the numbers with a sequence number, that in the checkpoint's own run of
/// 2^32 numbers, or the one before or behind it where that is closer.
spec fn closest(seqno: Wrap32, zero_point: Wrap32, checkpoint: u64) -> int {
    let offset = (seqno.0 - zero_point.0) % 0x1_0000_0000;
    let current = checkpoint as int / 0x1_0000_0000 * 0x1_0000_0000 + offset;
    let near = distance(current, checkpoint as int);
    if current >= 0x1_0000_0000 && distance(current - 0x1_0000_0000, checkpoint as int) < near {
        current - 0x1_0000_0000
    } else if current + 0x1_0000_0000 <= u64::MAX && distance(
        current + 0x1_0000_0000,
        checkpoint as int,
    ) < near {
        current + 0x1_0000_0000
    } else {
        current
    }
}

proof fn lemma_closest(seqno: Wrap32, zero_point: Wrap32, checkpoint: u64)
    ensures
        0 <= closest(seqno, zero_point, checkpoint) <= u64::MAX,
        is_unwrapped(
            seqno,
            zero_point,
            checkpoint,
            closest(seqno, zero_point, checkpoint) as u64,
        ),
{
    let offset = (seqno.0 - zero_point.0) % 0x1_0000_0000;
    let current = checkpoint as int / 0x1_0000_0000 * 0x1_0000_0000 + offset;
    let best = closest(seqno, zero_point, checkpoint);
    lemma_wrapped_iff(seqno, zero_point, best);
    assert forall|other: u64| #[trigger] wrapped(other as int, zero_point) == seqno implies {
        ||| distance(best, checkpoint as int) < distance(other as int, checkpoint as int)
        ||| other == best
        ||| distance(best, checkpoint as int) == distance(other as int, checkpoint as int) && best
            / 0x1_0000_0000 == checkpoint as int / 0x1_0000_0000
    } by {
        lemma_wrapped_iff(seqno, zero_point, other as int);
        let eras = other as int / 0x1_0000_0000 - current / 0x1_0000_0000;
        assert(other == current + eras * 0x1_0000_0000);
    }
}

/// Every sequence number stands for some number next to any checkpoint.
pub proof fn lemma_unwrapped_exists(seqno: Wrap32, zero_point: Wrap32, checkpoint: u64)
    ensures
        is_unwrapped(seqno, zero_point, checkpoint, unwrapped(seqno, zero_point, checkpoint)),
{
    lemma_closest(seqno, zero_point, checkpoint);
    assert(is_unwrapped(
        seqno,
        zero_point,
        checkpoint,
        closest(seqno, zero_point, checkpoint) as u64,
    ));
}

/// Wrapping undoes unwrapping: whatever the checkpoint, the number that a
/// sequence number stands for has that sequence number.
pub proof fn law_wrap_of_unwrap(seqno: Wrap32, zero_point: Wrap32, checkpoint: u64)
    ensures
        wrapped(unwrapped(seqno, zero_point, checkpoint) as int, zero_point) == seqno,
{
    lemma_unwrapped_exists(seqno, zero_point, checkpoint);
}

/// Unwrapping undoes wrapping: an absolute number is found again from its
/// sequence number by any checkpoint less than 2^31 away from it.
pub proof fn law_unwrap_of_wrap(absolute: u64, zero_point: Wrap32, checkpoint: u64)
    requires
        distance(absolute as int, checkpoint as int) < 0x8000_0000,
    ensures
        unwrapped(wrapped(absolute as int, zero_point), zero_point, checkpoint) == absolute,
{
    let seqno = wrapped(absolute as int, zero_point);
    lemma_wrapped_iff(seqno, zero_point, absolute as int);
    assert forall|other: u64| #[trigger]
        wrapped(other as int, zero_point) == seqno implies other == absolute || distance(
        absolute as int,
        checkpoint as int,
    ) < distance(other as int, checkpoint as int) by {
        lemma_wrapped_iff(seqno, zero_point, other as int);
    }
    lemma_unwrapped_unique(seqno, zero_point, checkpoint, absolute);
}

/// Sequence numbers count on from the zero point, one by one, and from the
/// largest one go on with zero.
pub proof fn law_wrapping_counts(absolute: u64, zero_point: Wrap32)
    ensures
        wrapped(0, zero_point) == zero_point,
        wrapped(absolute + 1, zero_point).0 == if wrapped(absolute as int, zero_point).0
            == 0xffff_ffff {
            0int
        } else {
            wrapped(absolute as int, zero_point).0 + 1
        },
{
}

/// Of all numbers with a sequence number, the nearest to the checkpoint is meant.
/// Of two equally near ones it is the one in the checkpoint's own run of 2^32
/// numbers.
pub proof fn law_unwrapping_finds_the_nearest(
    seqno: Wrap32,
    zero_point: Wrap32,
    checkpoint: u64,
    other: u64,
)
    requires
        wrapped(other as int, zero_point) == seqno,
    ensures
        ({
            let found = unwrapped(seqno, zero_point, checkpoint);
            let near = if found <= checkpoint {
                checkpoint - found
            } else {
                found - checkpoint
            };
            let far = if other <= checkpoint {
                checkpoint - other
            } else {
                other - checkpoint
            };
            &&& wrapped(found as int, zero_point) == seqno
            &&& near <= far
            &&& near == far && found != other ==> found / 0x1_0000_0000 == checkpoint
                / 0x1_0000_0000
        }),
{
    lemma_unwrapped_exists(seqno, zero_point, checkpoint);
}

} // verus!
