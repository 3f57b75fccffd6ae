//! The checksum of the Internet protocols: the one's complement of the one's
//! complement sum of 16-bit words.
use crate::buffer::{be16, join16, num16};
use vstd::prelude::*;

verus! {

/// The sum of the 16-bit words of which both bytes are there.
pub open spec fn pair_sum(data: Seq<u8>) -> nat
    decreases data.len(),
{
    if data.len() < 2 {
        0
    } else {
        (num16(data[0], data[1]) + pair_sum(data.skip(2))) as nat
    }
}

/// The byte without a partner, where the number of bytes is odd.
pub open spec fn odd_rest(data: Seq<u8>) -> Seq<u8> {
    if data.len() % 2 == 1 {
        seq![data.last()]
    } else {
        Seq::empty()
    }
}

/// The sum of the 16-bit words, of which the last is filled up with a zero byte.
pub open spec fn word_sum(data: Seq<u8>) -> nat {
    if data.len() % 2 == 1 {
        pair_sum(data) + data.last() as nat * 256
    } else {
        pair_sum(data)
    }
}

/// A sum with its carries added back in until it fits into 16 bits: the number
/// up to 65535 that is equal to it modulo 65535, zero for zero alone.
pub open spec fn folded(sum: nat) -> nat {
    if sum == 0 {
        0
    } else {
        (sum - 1) as nat % 65535 + 1
    }
}

/// The checksum that belongs to a sum.
pub open spec fn complement(sum: nat) -> u16 {
    (0xffff - folded(sum)) as u16
}

/// The checksum of some bytes.
pub open spec fn checksum_of(data: Seq<u8>) -> u16 {
    complement(word_sum(data))
}

/// The bytes in front of a TCP segment that its checksum covers too: the
/// addresses, the protocol number and the length of the segment.
pub open spec fn pseudo_header(src_ip: Seq<u8>, dst_ip: Seq<u8>, len: u16) -> Seq<u8> {
    src_ip + dst_ip + seq![0u8, 6u8] + be16(len)
}

/// The checksum of a TCP segment between two IPv4 addresses.
pub open spec fn tcp_checksum_of(src_ip: Seq<u8>, dst_ip: Seq<u8>, segment: Seq<u8>) -> u16 {
    checksum_of(pseudo_header(src_ip, dst_ip, segment.len() as u16) + segment)
}

/// Adds up bytes for a checksum, piece by piece.
#[derive(Debug, Clone, Copy)]
pub struct InternetChecksum {
    sum: u32,
    odd_byte: Option<u8>,
}

impl Default for InternetChecksum {
    fn default() -> (checksum: Self)
        ensures
            checksum.sum() == 0,
            checksum.odd() == Seq::<u8>::empty(),
    {
        Self::new()
    }
}

impl InternetChecksum {
    /// The sum of the 16-bit words so far.
    pub closed spec fn sum(&self) -> nat {
        self.sum as nat
    }

    /// The byte that waits for its partner, if there is one.
    pub closed spec fn odd(&self) -> Seq<u8> {
        match self.odd_byte {
            Some(byte) => seq![byte],
            None => Seq::empty(),
        }
    }

    pub fn new() -> (checksum: Self)
        ensures
            checksum.sum() == 0,
            checksum.odd() == Seq::<u8>::empty(),
    {
        Self { sum: 0, odd_byte: None }
    }

    /// Adds bytes. Where the bytes before ended with half a word, these go on
    /// with the other half.
    pub fn add_bytes(&mut self, data: &[u8])
        requires
            old(self).sum() + pair_sum(old(self).odd() + data@) <= u32::MAX,
        ensures
            final(self).sum() == old(self).sum() + pair_sum(old(self).odd() + data@),
            final(self).odd() == odd_rest(old(self).odd() + data@),
    {
        let ghost all = self.odd() + data@;
        let ghost goal = self.sum() + pair_sum(all);
        let mut index: usize = 0;
        if let Some(high) = self.odd_byte {
            if data.len() == 0 {
                assert(all =~= seq![high]);
                return ;
            }
            assert(all[0] == high && all[1] == data@[0]);
            assert(all.skip(2) =~= data@.skip(1));
            self.sum = self.sum + join16(high, data[0]) as u32;
            self.odd_byte = None;
            index = 1;
        } else {
            assert(all =~= data@);
            assert(data@.skip(0) =~= data@);
        }
        while data.len() - index >= 2
            invariant
                index <= data@.len(),
                self.odd_byte is None,
                self.sum + pair_sum(data@.skip(index as int)) == goal,
                goal <= u32::MAX,
                (data@.len() - index) % 2 == all.len() % 2,
                all.len() > 0 && data@.len() > 0 ==> all.last() == data@.last(),
            decreases data@.len() - index,
        {
            let ghost rest = data@.skip(index as int);
            assert(rest.skip(2) =~= data@.skip(index + 2));
            self.sum = self.sum + join16(data[index], data[index + 1]) as u32;
            index = index + 2;
        }
        if index < data.len() {
            self.odd_byte = Some(data[index]);
        }
    }

    /// The checksum of all bytes added.
    pub fn checksum(self) -> (checksum: u16)
        requires
            self.sum() + word_sum(self.odd()) <= u32::MAX,
        ensures
            checksum == complement(self.sum() + word_sum(self.odd())),
    {
        let mut sum: u32 = self.sum;
        if let Some(high) = self.odd_byte {
            assert(pair_sum(self.odd()) == 0);
            sum = sum + join16(high, 0) as u32;
        } else {
            assert(pair_sum(self.odd()) == 0);
        }
        let ghost total = sum as nat;
        while sum >> 16 != 0
            invariant
                folded(sum as nat) == folded(total),
            decreases sum,
        {
            assert(sum >> 16 == sum / 0x1_0000) by (bit_vector);
            assert(sum & 0xffff == sum % 0x1_0000) by (bit_vector);
            proof {
                lemma_fold(sum as nat);
            }
            sum = (sum & 0xffff) + (sum >> 16);
        }
        assert(sum >> 16 == sum / 0x1_0000) by (bit_vector);
        let low: u16 = sum as u16;
        assert(!low == 0xffff - low) by (bit_vector);
        !low
    }
}

/// The checksum of some bytes.
pub fn internet_checksum(data: &[u8]) -> (checksum: u16)
    requires
        word_sum(data@) <= u32::MAX,
    ensures
        checksum == checksum_of(data@),
{
    let mut checksum = InternetChecksum::new();
    assert(checksum.odd() + data@ =~= data@);
    checksum.add_bytes(data);
    proof {
        lemma_odd_rest(data@);
    }
    checksum.checksum()
}

/// Whether bytes that contain their own checksum are intact: the checksum of
/// all of them is then zero.
pub fn verify_internet_checksum(data: &[u8]) -> (valid: bool)
    requires
        word_sum(data@) <= u32::MAX,
    ensures
        valid == (checksum_of(data@) == 0),
{
    internet_checksum(data) == 0
}

/// The checksum of a TCP segment between two IPv4 addresses.
pub fn tcp_checksum_ipv4(src_ip: [u8; 4], dst_ip: [u8; 4], tcp_segment: &[u8]) -> (checksum: u16)
    requires
        tcp_segment@.len() <= u16::MAX,
    ensures
        checksum == tcp_checksum_of(src_ip@, dst_ip@, tcp_segment@),
{
    let tcp_len: u16 = tcp_segment.len() as u16;
    let protocol: [u8; 2] = [0, 6];
    let length: [u8; 2] = [(tcp_len / 256) as u8, (tcp_len % 256) as u8];
    let ghost header = pseudo_header(src_ip@, dst_ip@, tcp_len);
    let ghost all = header + tcp_segment@;
    proof {
        lemma_word_sum_bound(all);
    }
    let mut checksum = InternetChecksum::new();
    proof {
        lemma_add(Seq::empty(), src_ip@, all);
        assert(Seq::<u8>::empty() + src_ip@ =~= src_ip@);
    }
    checksum.add_bytes(&src_ip);
    proof {
        lemma_add(src_ip@, dst_ip@, all);
    }
    checksum.add_bytes(&dst_ip);
    proof {
        assert(protocol@ =~= seq![0u8, 6u8]);
        lemma_add(src_ip@ + dst_ip@, protocol@, all);
    }
    checksum.add_bytes(&protocol);
    proof {
        assert(length@ =~= be16(tcp_len));
        lemma_add(src_ip@ + dst_ip@ + protocol@, length@, all);
    }
    checksum.add_bytes(&length);
    proof {
        lemma_add(header, tcp_segment@, all);
    }
    checksum.add_bytes(tcp_segment);
    proof {
        lemma_odd_rest(all);
    }
    checksum.checksum()
}

/// What is added up so far does not exceed what all bytes add up to.
proof fn lemma_add(done: Seq<u8>, next: Seq<u8>, all: Seq<u8>)
    requires
        (done + next).len() <= all.len(),
        done + next =~= all.take((done + next).len() as int),
    ensures
        pair_sum(done) + pair_sum(odd_rest(done) + next) == pair_sum(done + next),
        odd_rest(odd_rest(done) + next) == odd_rest(done + next),
        pair_sum(done + next) <= pair_sum(all),
        done.len() == 0 ==> pair_sum(done) == 0 && odd_rest(done) == Seq::<u8>::empty(),
{
    law_adding_in_pieces(done, next);
    let both = done + next;
    law_adding_in_pieces(both, all.skip(both.len() as int));
    assert(both + all.skip(both.len() as int) =~= all);
}

/// Adding the carries back in does not change what a sum folds to.
proof fn lemma_fold(sum: nat)
    requires
        sum >= 0x1_0000,
    ensures
        folded(sum % 0x1_0000 + sum / 0x1_0000) == folded(sum),
        sum % 0x1_0000 + sum / 0x1_0000 < sum,
{
    let high = sum / 0x1_0000;
    let less = (sum % 0x1_0000 + high - 1) as int;
    assert(sum - 1 == less + high * 65535);
    vstd::arithmetic::div_mod::lemma_mod_multiples_vanish(high as int, less, 65535);
    assert(65535 * high + less == sum - 1);
}

proof fn lemma_odd_rest(data: Seq<u8>)
    ensures
        pair_sum(data) + word_sum(odd_rest(data)) == word_sum(data),
{
    assert(pair_sum(odd_rest(data)) == 0);
}

/// No more than 65535 for each word, so 131074 bytes always add up in 32 bits.
pub proof fn lemma_word_sum_bound(data: Seq<u8>)
    ensures
        pair_sum(data) <= 65535 * (data.len() / 2),
        word_sum(data) <= 65535 * ((data.len() + 1) / 2),
    decreases data.len(),
{
    if data.len() >= 2 {
        lemma_word_sum_bound(data.skip(2));
    }
}

/// Smaller bytes add up to less.
pub proof fn lemma_smaller_bytes(small: Seq<u8>, large: Seq<u8>)
    requires
        small.len() == large.len(),
        forall|i: int| 0 <= i < small.len() ==> (#[trigger] small[i]) <= large[i],
    ensures
        pair_sum(small) <= pair_sum(large),
        word_sum(small) <= word_sum(large),
    decreases small.len(),
{
    if small.len() >= 2 {
        assert forall|i: int| 0 <= i < small.skip(2).len() implies (#[trigger] small.skip(2)[i])
            <= large.skip(2)[i] by {
            assert(small[i + 2] <= large[i + 2]);
        }
        lemma_smaller_bytes(small.skip(2), large.skip(2));
        assert(small[0] <= large[0] && small[1] <= large[1]);
    }
    if small.len() % 2 == 1 {
        assert(small[small.len() - 1] <= large[small.len() - 1]);
    }
}

/// Adding bytes in pieces, wherever they are cut, is adding them at once.
pub proof fn law_adding_in_pieces(first: Seq<u8>, second: Seq<u8>)
    ensures
        pair_sum(first) + pair_sum(odd_rest(first) + second) == pair_sum(first + second),
        odd_rest(odd_rest(first) + second) == odd_rest(first + second),
    decreases first.len(),
{
    let all = first + second;
    if first.len() == 0 {
        assert(odd_rest(first) + second =~= second);
        assert(all =~= second);
    } else if first.len() == 1 {
        assert(odd_rest(first) + second =~= all);
    } else {
        law_adding_in_pieces(first.skip(2), second);
        assert(odd_rest(first) =~= odd_rest(first.skip(2)));
        assert(all.skip(2) =~= first.skip(2) + second);
        if second.len() > 0 {
            assert(all.last() == second.last());
            assert((first.skip(2) + second).last() == second.last());
        } else {
            assert(all =~= first);
            assert(first.skip(2) + second =~= first.skip(2));
        }
    }
}

/// The bytes with another word at an index.
pub open spec fn with_word(data: Seq<u8>, index: int, word: u16) -> Seq<u8> {
    data.update(index, be16(word)[0]).update(index + 1, be16(word)[1])
}

/// Another word in the place of one changes the sum by the difference.
pub proof fn lemma_word_replaced(data: Seq<u8>, index: int, word: u16)
    requires
        0 <= index,
        index % 2 == 0,
        index + 2 <= data.len(),
    ensures
        word_sum(with_word(data, index, word)) + num16(data[index], data[index + 1]) == word_sum(
            data,
        ) + word,
    decreases index,
{
    let put = with_word(data, index, word);
    if index == 0 {
        assert(put.skip(2) =~= data.skip(2));
        assert(num16(be16(word)[0], be16(word)[1]) == word);
    } else {
        let rest = data.skip(2);
        lemma_word_replaced(rest, index - 2, word);
        assert(put.skip(2) =~= with_word(rest, index - 2, word));
        if data.len() % 2 == 1 {
            assert(put.last() == data.last());
            assert(rest.last() == data.last());
            assert(put.skip(2).last() == data.last());
        }
    }
}

/// Damage to one word is found: where bytes verify, they do not verify any more
/// with another word in the place of one. Only the words of all zeroes and all
/// ones cannot be told apart.
pub proof fn law_damaged_word_is_found(data: Seq<u8>, index: int, word: u16)
    requires
        0 <= index,
        index % 2 == 0,
        index + 2 <= data.len(),
        checksum_of(data) == 0,
        word != num16(data[index], data[index + 1]),
        !(word == 0 && num16(data[index], data[index + 1]) == 0xffff),
        !(word == 0xffff && num16(data[index], data[index + 1]) == 0),
    ensures
        checksum_of(with_word(data, index, word)) != 0,
{
    lemma_word_replaced(data, index, word);
    let sum = word_sum(data);
    let damaged = word_sum(with_word(data, index, word));
    let times = (sum - 1) as nat / 65535;
    assert(sum == 65535 * times + 65535);
    if checksum_of(with_word(data, index, word)) == 0 {
        let others = (damaged - 1) as nat / 65535;
        assert(damaged == 65535 * others + 65535);
        assert(damaged - sum == 65535 * (others - times)) by (nonlinear_arith)
            requires
                sum == 65535 * times + 65535,
                damaged == 65535 * others + 65535,
        ;
    }
}

/// Bytes verify once their checksum is put in the place of a zero word.
pub proof fn law_inserted_checksum_verifies(data: Seq<u8>, index: int)
    requires
        0 <= index,
        index % 2 == 0,
        index + 2 <= data.len(),
        data[index] == 0,
        data[index + 1] == 0,
    ensures
        checksum_of(with_word(data, index, checksum_of(data))) == 0,
{
    let sum = word_sum(data);
    let word = checksum_of(data);
    lemma_word_replaced(data, index, word);
    let total = (sum + word) as nat;
    assert(folded(total) == 0xffff) by {
        if sum > 0 {
            let times = (sum - 1) as nat / 65535;
            assert(sum - 1 == 65535 * times + (sum - 1) as nat % 65535);
            assert(total - 1 == 65535 * times + 65534);
            vstd::arithmetic::div_mod::lemma_mod_multiples_vanish(times as int, 65534, 65535);
        }
    }
}

/// A TCP segment verifies once its checksum is put in the place of a zero word.
pub proof fn law_inserted_tcp_checksum_verifies(
    src_ip: Seq<u8>,
    dst_ip: Seq<u8>,
    segment: Seq<u8>,
    index: int,
)
    requires
        src_ip.len() == 4,
        dst_ip.len() == 4,
        segment.len() <= u16::MAX,
        0 <= index,
        index % 2 == 0,
        index + 2 <= segment.len(),
        segment[index] == 0,
        segment[index + 1] == 0,
    ensures
        tcp_checksum_of(
            src_ip,
            dst_ip,
            with_word(segment, index, tcp_checksum_of(src_ip, dst_ip, segment)),
        ) == 0,
{
    let header = pseudo_header(src_ip, dst_ip, segment.len() as u16);
    let all = header + segment;
    let word = checksum_of(all);
    law_inserted_checksum_verifies(all, 12 + index);
    assert(with_word(all, 12 + index, word) =~= header + with_word(segment, index, word));
}

/// Damage to one word of a TCP segment is found.
pub proof fn law_damaged_segment_word_is_found(
    src_ip: Seq<u8>,
    dst_ip: Seq<u8>,
    segment: Seq<u8>,
    index: int,
    word: u16,
)
    requires
        src_ip.len() == 4,
        dst_ip.len() == 4,
        0 <= index,
        index % 2 == 0,
        index + 2 <= segment.len(),
        tcp_checksum_of(src_ip, dst_ip, segment) == 0,
        word != num16(segment[index], segment[index + 1]),
        !(word == 0 && num16(segment[index], segment[index + 1]) == 0xffff),
        !(word == 0xffff && num16(segment[index], segment[index + 1]) == 0),
    ensures
        tcp_checksum_of(src_ip, dst_ip, with_word(segment, index, word)) != 0,
{
    let header = pseudo_header(src_ip, dst_ip, segment.len() as u16);
    let all = header + segment;
    law_damaged_word_is_found(all, 12 + index, word);
    assert(with_word(all, 12 + index, word) =~= header + with_word(segment, index, word));
}

/// What the checksum is: it adds up with the words of the bytes to a multiple of
/// 65535. One word more in front takes its value off, modulo 65535; without bytes
/// it is 65535, a last byte without a partner counts as the high one of a word,
/// and it is 65535 for zeroes alone.
pub proof fn law_checksum_balances_the_words(high: u8, low: u8, rest: Seq<u8>)
    ensures
        checksum_of(Seq::empty()) == 0xffff,
        checksum_of(seq![high]) == 0xffff - high * 256,
        (checksum_of(seq![high, low] + rest) + (high * 256 + low) - checksum_of(rest)) % 65535 == 0,
        checksum_of(seq![high, low] + rest) == 0xffff <==> high == 0 && low == 0 && checksum_of(
            rest,
        ) == 0xffff,
{
    let all = seq![high, low] + rest;
    let word = (high * 256 + low) as nat;
    assert(all.skip(2) =~= rest);
    assert(pair_sum(all) == word + pair_sum(rest));
    if rest.len() % 2 == 1 {
        assert(all.last() == rest.last());
    }
    let sum = word_sum(rest);
    assert(word_sum(all) == word + sum);
    assert(word_sum(seq![high]) == high * 256) by {
        assert(pair_sum(seq![high]) == 0);
    }
    assert(word_sum(Seq::empty()) == 0);
    lemma_folded(sum);
    lemma_folded(word + sum);
    lemma_folded((high * 256) as nat);
    let a = (word + sum - folded(word + sum)) / 65535;
    let b = (sum - folded(sum)) / 65535;
    assert(word + sum - folded(word + sum) == 65535 * a);
    assert(sum - folded(sum) == 65535 * b);
    let difference = (checksum_of(all) + word - checksum_of(rest)) as int;
    assert(difference == word + folded(sum) - folded(word + sum));
    assert(difference == 65535 * (a - b)) by (nonlinear_arith)
        requires
            word + sum - folded(word + sum) == 65535 * a,
            sum - folded(sum) == 65535 * b,
            difference == word + folded(sum) - folded(word + sum),
    ;
    assert(difference % 65535 == 0) by {
        vstd::arithmetic::div_mod::lemma_mod_multiples_basic(a - b, 65535);
    }
}

/// Folding changes a sum by a multiple of 65535, and a sum that fits not at all.
proof fn lemma_folded(sum: nat)
    ensures
        folded(sum) <= 65535,
        (sum - folded(sum)) % 65535 == 0,
        sum <= 65535 ==> folded(sum) == sum,
        folded(sum) == 0 <==> sum == 0,
{
    if sum > 0 {
        let times = (sum - 1) as nat / 65535;
        assert(sum - folded(sum) == 65535 * times);
        vstd::arithmetic::div_mod::lemma_mod_multiples_basic(times as int, 65535);
    }
}

/// The checksum of a TCP segment covers the addresses between which it goes, the
/// protocol number 6 and its length in front of its bytes.
pub proof fn law_segment_checksum_covers_the_addresses(
    src_ip: [u8; 4],
    dst_ip: [u8; 4],
    segment: Seq<u8>,
)
    requires
        segment.len() <= u16::MAX,
    ensures
        ({
            let high = (segment.len() / 256) as u8;
            let low = (segment.len() % 256) as u8;
            tcp_checksum_of(src_ip@, dst_ip@, segment) == checksum_of(
                seq![
                    src_ip[0],
                    src_ip[1],
                    src_ip[2],
                    src_ip[3],
                    dst_ip[0],
                    dst_ip[1],
                    dst_ip[2],
                    dst_ip[3],
                    0u8,
                    6u8,
                    high,
                    low,
                ] + segment,
            )
        }),
{
    let high = (segment.len() / 256) as u8;
    let low = (segment.len() % 256) as u8;
    let front = seq![
        src_ip[0],
        src_ip[1],
        src_ip[2],
        src_ip[3],
        dst_ip[0],
        dst_ip[1],
        dst_ip[2],
        dst_ip[3],
        0u8,
        6u8,
        high,
        low,
    ];
    assert(pseudo_header(src_ip@, dst_ip@, segment.len() as u16) =~= front);
}

} // verus!
