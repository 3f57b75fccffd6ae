//! Numbers and addresses as text, and text as numbers.
use vstd::prelude::*;
use vstd::string::{StrSliceExecFns, StringExecFns};

verus! {

/// The digits up to fifteen.
pub open spec fn digit_char(digit: int) -> char {
    if digit <= 0 {
        '0'
    } else if digit == 1 {
        '1'
    } else if digit == 2 {
        '2'
    } else if digit == 3 {
        '3'
    } else if digit == 4 {
        '4'
    } else if digit == 5 {
        '5'
    } else if digit == 6 {
        '6'
    } else if digit == 7 {
        '7'
    } else if digit == 8 {
        '8'
    } else if digit == 9 {
        '9'
    } else if digit == 10 {
        'a'
    } else if digit == 11 {
        'b'
    } else if digit == 12 {
        'c'
    } else if digit == 13 {
        'd'
    } else if digit == 14 {
        'e'
    } else {
        'f'
    }
}

/// A byte as two hexadecimal digits.
pub open spec fn hex_pair(byte: u8) -> Seq<char> {
    seq![digit_char(byte as int / 16), digit_char(byte as int % 16)]
}

/// A number in decimal.
pub open spec fn decimal(number: nat) -> Seq<char>
    decreases number,
{
    if number < 10 {
        seq![digit_char(number as int)]
    } else {
        decimal(number / 10).push(digit_char(number as int % 10))
    }
}

/// Adds one digit to a text.
fn push_digit(text: &mut String, digit: u8)
    requires
        digit < 16,
    ensures
        final(text)@ == old(text)@.push(digit_char(digit as int)),
{
    let s = match digit {
        0 => "0",
        1 => "1",
        2 => "2",
        3 => "3",
        4 => "4",
        5 => "5",
        6 => "6",
        7 => "7",
        8 => "8",
        9 => "9",
        10 => "a",
        11 => "b",
        12 => "c",
        13 => "d",
        14 => "e",
        _ => "f",
    };
    proof {
        reveal_strlit("0");
        reveal_strlit("1");
        reveal_strlit("2");
        reveal_strlit("3");
        reveal_strlit("4");
        reveal_strlit("5");
        reveal_strlit("6");
        reveal_strlit("7");
        reveal_strlit("8");
        reveal_strlit("9");
        reveal_strlit("a");
        reveal_strlit("b");
        reveal_strlit("c");
        reveal_strlit("d");
        reveal_strlit("e");
        reveal_strlit("f");
        assert(s@ =~= seq![digit_char(digit as int)]);
    }
    text.append(s);
    assert(text@ =~= old(text)@.push(digit_char(digit as int)));
}

/// Adds a byte to a text, in hexadecimal.
pub(crate) fn push_hex(text: &mut String, byte: u8)
    ensures
        final(text)@ == old(text)@ + hex_pair(byte),
{
    push_digit(text, byte / 16);
    push_digit(text, byte % 16);
    assert(text@ =~= old(text)@ + hex_pair(byte));
}

/// Adds a number to a text, in decimal.
pub(crate) fn push_decimal(text: &mut String, number: u64)
    ensures
        final(text)@ == old(text)@ + decimal(number as nat),
    decreases number,
{
    if number >= 10 {
        push_decimal(text, number / 10);
    }
    push_digit(text, (number % 10) as u8);
    assert(text@ =~= old(text)@ + decimal(number as nat));
}

/// What `String::from_utf8_lossy` makes of some bytes.
pub uninterp spec fn lossy_text(bytes: Seq<u8>) -> Seq<char>;

/// `String::from_utf8_lossy` reads bytes as UTF-8. Where they are none, it puts
/// replacement characters in the place of what it cannot read.
#[verifier::external_body]
pub(crate) fn from_utf8_lossy(bytes: &[u8]) -> (text: String)
    ensures
        text@ == lossy_text(bytes@),
        vstd::utf8::valid_utf8(bytes@) ==> text@ == vstd::utf8::decode_utf8(bytes@),
{
    String::from_utf8_lossy(bytes).into_owned()
}

/// `std::fmt::Formatter`, to which a type writes its text.
#[verifier::external_type_specification]
#[verifier::external_body]
pub struct ExFormatter<'a>(std::fmt::Formatter<'a>);

/// `std::fmt::Error`, which a formatter gives where it does not take a text.
#[verifier::external_type_specification]
#[verifier::external_body]
pub struct ExFormatError(std::fmt::Error);

/// The text that a formatter has taken so far, piece behind piece.
pub uninterp spec fn taken(formatter: std::fmt::Formatter<'_>) -> Seq<char>;

/// `Formatter::write_str` hands a text on, as it is, to what the formatter writes
/// to. Where that takes it, it stands behind what was taken before. Whether it
/// does rests with what the formatter writes to, and is not stated.
pub assume_specification<'a>[ std::fmt::Formatter::<'a>::write_str ](
    formatter: &mut std::fmt::Formatter<'a>,
    data: &str,
) -> (result: std::fmt::Result)
    ensures
        result is Ok ==> taken(*final(formatter)) == taken(*old(formatter)) + data@,
;

/// The characters of a text.
pub(crate) fn chars_of(text: &str) -> (chars: Vec<char>)
    ensures
        chars@ == text@,
{
    let mut chars: Vec<char> = Vec::new();
    let count: usize = text.unicode_len();
    let mut index: usize = 0;
    while index < count
        invariant
            index <= count,
            count == text@.len(),
            chars@ == text@.take(index as int),
        decreases count - index,
    {
        chars.push(text.get_char(index));
        assert(text@.take(index + 1) =~= text@.take(index as int).push(text@[index as int]));
        index = index + 1;
    }
    assert(text@.take(count as int) =~= text@);
    chars
}

/// Whether two texts are the same.
pub(crate) fn same_text(a: &str, b: &str) -> (same: bool)
    ensures
        same == (a@ == b@),
{
    let count: usize = a.unicode_len();
    if count != b.unicode_len() {
        return false;
    }
    let mut index: usize = 0;
    while index < count
        invariant
            index <= count,
            count == a@.len(),
            count == b@.len(),
            forall|i: int| 0 <= i < index ==> a@[i] == b@[i],
        decreases count - index,
    {
        if a.get_char(index) != b.get_char(index) {
            return false;
        }
        index = index + 1;
    }
    assert(a@ =~= b@);
    true
}

/// What a character stands for as a decimal digit.
pub open spec fn decimal_digit(c: char) -> Option<nat> {
    if '0' <= c && c <= '9' {
        Some((c as u32 - '0' as u32) as nat)
    } else {
        None
    }
}

/// What a character stands for as a hexadecimal digit.
pub open spec fn hex_digit(c: char) -> Option<nat> {
    if '0' <= c && c <= '9' {
        Some((c as u32 - '0' as u32) as nat)
    } else if 'a' <= c && c <= 'f' {
        Some((c as u32 - 'a' as u32 + 10) as nat)
    } else if 'A' <= c && c <= 'F' {
        Some((c as u32 - 'A' as u32 + 10) as nat)
    } else {
        None
    }
}

/// Why a text is no number.
#[derive(Debug, Clone, Copy, PartialEq, Eq, Structural)]
pub enum NumberError {
    Empty,
    InvalidDigit,
    PosOverflow,
}

impl NumberError {
    pub open spec fn text(self) -> Seq<char> {
        match self {
            NumberError::Empty => "cannot parse integer from empty string"@,
            NumberError::InvalidDigit => "invalid digit found in string"@,
            NumberError::PosOverflow => "number too large to fit in target type"@,
        }
    }

    pub fn message(self) -> (message: &'static str)
        ensures
            message@ == self.text(),
    {
        match self {
            Self::Empty => "cannot parse integer from empty string",
            Self::InvalidDigit => "invalid digit found in string",
            Self::PosOverflow => "number too large to fit in target type",
        }
    }
}

/// Reads digits behind a number, as long as it does not exceed a bound.
pub open spec fn read_digits(digits: Seq<char>, number: nat, max: nat) -> Result<nat, NumberError>
    decreases digits.len(),
{
    if digits.len() == 0 {
        Ok(number)
    } else {
        match decimal_digit(digits[0]) {
            None => Err(NumberError::InvalidDigit),
            Some(digit) => if number * 10 + digit > max {
                Err(NumberError::PosOverflow)
            } else {
                read_digits(digits.drop_first(), number * 10 + digit, max)
            },
        }
    }
}

/// Reads a number in decimal, with a plus sign or without.
pub open spec fn read_number(text: Seq<char>, max: nat) -> Result<nat, NumberError> {
    if text.len() == 0 {
        Err(NumberError::Empty)
    } else if text == seq!['+'] {
        Err(NumberError::InvalidDigit)
    } else if text[0] == '+' {
        read_digits(text.drop_first(), 0, max)
    } else {
        read_digits(text, 0, max)
    }
}

/// Reads a number in decimal out of some characters of a text.
pub(crate) fn parse_number(chars: &Vec<char>, begin: usize, end: usize, max: u32) -> (result:
    Result<u32, NumberError>)
    requires
        begin <= end <= chars@.len(),
    ensures
        match result {
            Ok(number) => number <= max && read_number(
                chars@.subrange(begin as int, end as int),
                max as nat,
            ) == Ok::<nat, NumberError>(number as nat),
            Err(error) => read_number(chars@.subrange(begin as int, end as int), max as nat)
                == Err::<nat, NumberError>(error),
        },
{
    let ghost text = chars@.subrange(begin as int, end as int);
    if begin == end {
        return Err(NumberError::Empty);
    }
    let mut index: usize = begin;
    if chars[begin] == '+' {
        if end - begin == 1 {
            assert(text =~= seq!['+']);
            return Err(NumberError::InvalidDigit);
        }
        index = begin + 1;
        assert(text.drop_first() =~= chars@.subrange(index as int, end as int));
        assert(text.len() != seq!['+'].len());
    } else {
        assert(text[0] == chars@[begin as int]);
    }
    let mut number: u32 = 0;
    let ghost digits = chars@.subrange(index as int, end as int);
    while index < end
        invariant
            index <= end <= chars@.len(),
            number <= max,
            read_digits(digits, 0, max as nat) == read_digits(
                chars@.subrange(index as int, end as int),
                number as nat,
                max as nat,
            ),
            read_number(text, max as nat) == read_digits(digits, 0, max as nat),
            text == chars@.subrange(begin as int, end as int),
        decreases end - index,
    {
        let ghost left = chars@.subrange(index as int, end as int);
        assert(left[0] == chars@[index as int]);
        assert(left.drop_first() =~= chars@.subrange(index + 1, end as int));
        let c = chars[index];
        if !('0' <= c && c <= '9') {
            return Err(NumberError::InvalidDigit);
        }
        let digit: u64 = (c as u32 - '0' as u32) as u64;
        let next: u64 = number as u64 * 10 + digit;
        if next > max as u64 {
            return Err(NumberError::PosOverflow);
        }
        number = next as u32;
        index = index + 1;
    }
    assert(chars@.subrange(index as int, end as int).len() == 0);
    Ok(number)
}

/// Reading one more digit.
proof fn lemma_read_push(digits: Seq<char>, c: char, number: nat, max: nat)
    ensures
        read_digits(digits.push(c), number, max) == match read_digits(digits, number, max) {
            Ok(read) => read_digits(seq![c], read, max),
            Err(error) => Err(error),
        },
    decreases digits.len(),
{
    let all = digits.push(c);
    if digits.len() == 0 {
        assert(all =~= seq![c]);
    } else {
        assert(all.drop_first() =~= digits.drop_first().push(c));
        match decimal_digit(digits[0]) {
            Some(digit) => {
                lemma_read_push(digits.drop_first(), c, number * 10 + digit, max);
            },
            None => {},
        }
    }
}

/// A number that is read does not exceed the bound.
pub proof fn law_number_is_bounded(text: Seq<char>, max: nat)
    ensures
        read_number(text, max) matches Ok(number) ==> number <= max,
{
    if text.len() > 0 {
        lemma_digits_bounded(text, 0, max);
        lemma_digits_bounded(text.drop_first(), 0, max);
    }
}

proof fn lemma_digits_bounded(digits: Seq<char>, number: nat, max: nat)
    requires
        number <= max,
    ensures
        read_digits(digits, number, max) matches Ok(read) ==> read <= max,
    decreases digits.len(),
{
    if digits.len() > 0 {
        match decimal_digit(digits[0]) {
            Some(digit) => {
                if number * 10 + digit <= max {
                    lemma_digits_bounded(digits.drop_first(), number * 10 + digit, max);
                }
            },
            None => {},
        }
    }
}

/// Digits as they are written are digits.
pub proof fn lemma_decimal_digits(number: nat)
    ensures
        decimal(number).len() > 0,
        forall|i: int|
            0 <= i < decimal(number).len() ==> decimal_digit(
                #[trigger] decimal(number)[i],
            ) is Some,
    decreases number,
{
    if number >= 10 {
        lemma_decimal_digits(number / 10);
        let shorter = decimal(number / 10);
        let all = decimal(number);
        assert forall|i: int| 0 <= i < all.len() implies decimal_digit(
            #[trigger] all[i],
        ) is Some by {
            if i < shorter.len() {
                assert(all[i] == shorter[i]);
            }
        }
    }
}

/// Reading undoes writing: a number written in decimal is read as itself.
pub proof fn law_number_round_trip(number: nat, max: nat)
    requires
        number <= max,
    ensures
        read_number(decimal(number), max) == Ok::<nat, NumberError>(number),
    decreases number,
{
    lemma_decimal_digits(number);
    assert(decimal_digit(decimal(number)[0]) is Some);
    assert(decimal_digit('+') is None);
    assert(seq!['+'][0] == '+');
    lemma_read_decimal(number, max);
}

proof fn lemma_read_decimal(number: nat, max: nat)
    requires
        number <= max,
    ensures
        read_digits(decimal(number), 0, max) == Ok::<nat, NumberError>(number),
    decreases number,
{
    reveal_with_fuel(read_digits, 2);
    let digit = digit_char(number as int % 10);
    assert(decimal_digit(digit) == Some((number % 10) as nat));
    if number < 10 {
        assert(decimal(number).drop_first().len() == 0);
    } else {
        lemma_read_decimal(number / 10, max);
        lemma_read_push(decimal(number / 10), digit, 0, max);
        assert(seq![digit].drop_first().len() == 0);
    }
}

/// An IPv4 address as text: four numbers with dots between them.
pub open spec fn ip_text(ip: Seq<u8>) -> Seq<char> {
    decimal(ip[0] as nat) + seq!['.'] + decimal(ip[1] as nat) + seq!['.'] + decimal(ip[2] as nat)
        + seq!['.'] + decimal(ip[3] as nat)
}

/// The first place of a character in a text, from a given place on.
fn find(chars: &Vec<char>, from: usize, c: char) -> (place: Option<usize>)
    requires
        from <= chars@.len(),
    ensures
        match place {
            Some(place) => from <= place < chars@.len() && chars@[place as int] == c && forall|
                i: int,
            |
                from <= i < place ==> chars@[i] != c,
            None => forall|i: int| from <= i < chars@.len() ==> chars@[i] != c,
        },
{
    let mut index: usize = from;
    while index < chars.len()
        invariant
            from <= index <= chars@.len(),
            forall|i: int| from <= i < index ==> chars@[i] != c,
        decreases chars@.len() - index,
    {
        if chars[index] == c {
            return Some(index);
        }
        index = index + 1;
    }
    None
}

/// Reads an IPv4 address. Only the text that an address is written as is read.
pub(crate) fn read_ip(text: &str) -> (ip: Option<[u8; 4]>)
    ensures
        match ip {
            Some(ip) => text@ == ip_text(ip@),
            None => forall|other: [u8; 4]| text@ != #[trigger] ip_text(other@),
        },
{
    let ip = guess_ip(text);
    if let Some(ip) = ip {
        if same_text(fmt_ip(ip).as_str(), text) {
            return Some(ip);
        }
    }
    None
}

/// Reads four numbers with dots between them.
fn guess_ip(text: &str) -> (ip: Option<[u8; 4]>)
    ensures
        forall|other: [u8; 4]|
            text@ == #[trigger] ip_text(other@) ==> ip is Some && text@ == ip_text(ip->Some_0@),
{
    let ghost meant = choose|other: [u8; 4]| text@ == #[trigger] ip_text(other@);
    let ghost is_ip = text@ == ip_text(meant@);
    proof {
        lemma_dots(meant@);
    }
    let chars = chars_of(text);
    let len: usize = chars.len();
    let first: usize = match find(&chars, 0, '.') {
        Some(place) => place,
        None => {
            return None;
        },
    };
    assert(is_ip ==> first == dots(meant@).0);
    let second: usize = match find(&chars, first + 1, '.') {
        Some(place) => place,
        None => {
            return None;
        },
    };
    assert(is_ip ==> second == dots(meant@).1);
    let third: usize = match find(&chars, second + 1, '.') {
        Some(place) => place,
        None => {
            return None;
        },
    };
    assert(is_ip ==> third == dots(meant@).2);
    proof {
        law_number_round_trip(meant[0] as nat, 255);
        law_number_round_trip(meant[1] as nat, 255);
        law_number_round_trip(meant[2] as nat, 255);
        law_number_round_trip(meant[3] as nat, 255);
    }
    let a: u8 = match parse_number(&chars, 0, first, 255) {
        Ok(number) => number as u8,
        Err(_) => {
            return None;
        },
    };
    let b: u8 = match parse_number(&chars, first + 1, second, 255) {
        Ok(number) => number as u8,
        Err(_) => {
            return None;
        },
    };
    let c: u8 = match parse_number(&chars, second + 1, third, 255) {
        Ok(number) => number as u8,
        Err(_) => {
            return None;
        },
    };
    let d: u8 = match parse_number(&chars, third + 1, len, 255) {
        Ok(number) => number as u8,
        Err(_) => {
            return None;
        },
    };
    let ip: [u8; 4] = [a, b, c, d];
    assert(is_ip ==> ip =~= meant);
    Some(ip)
}

/// Where the dots of an address stand.
spec fn dots(ip: Seq<u8>) -> (int, int, int) {
    let a = decimal(ip[0] as nat).len() as int;
    let b = a + 1 + decimal(ip[1] as nat).len();
    let c = b + 1 + decimal(ip[2] as nat).len();
    (a, b, c)
}

/// The dots of an address stand between its numbers, and nowhere else.
proof fn lemma_dots(ip: Seq<u8>)
    ensures
        ({
            let text = ip_text(ip);
            let (a, b, c) = dots(ip);
            &&& 0 < a && a + 1 < b && b + 1 < c && c + 1 < text.len()
            &&& text[a] == '.' && text[b] == '.' && text[c] == '.'
            &&& text.subrange(0, a) == decimal(ip[0] as nat)
            &&& text.subrange(a + 1, b) == decimal(ip[1] as nat)
            &&& text.subrange(b + 1, c) == decimal(ip[2] as nat)
            &&& text.subrange(c + 1, text.len() as int) == decimal(ip[3] as nat)
            &&& forall|i: int|
                0 <= i < text.len() && i != a && i != b && i != c ==> (#[trigger] text[i]) != '.'
        }),
{
    let text = ip_text(ip);
    let (a, b, c) = dots(ip);
    lemma_decimal_digits(ip[0] as nat);
    lemma_decimal_digits(ip[1] as nat);
    lemma_decimal_digits(ip[2] as nat);
    lemma_decimal_digits(ip[3] as nat);
    assert(text.subrange(0, a) =~= decimal(ip[0] as nat));
    assert(text.subrange(a + 1, b) =~= decimal(ip[1] as nat));
    assert(text.subrange(b + 1, c) =~= decimal(ip[2] as nat));
    assert(text.subrange(c + 1, text.len() as int) =~= decimal(ip[3] as nat));
    assert(decimal_digit('.') is None);
    assert forall|i: int| 0 <= i < text.len() && i != a && i != b && i != c implies (
    #[trigger] text[i]) != '.' by {
        if i < a {
            assert(text[i] == decimal(ip[0] as nat)[i]);
        } else if i < b {
            assert(text[i] == decimal(ip[1] as nat)[i - a - 1]);
        } else if i < c {
            assert(text[i] == decimal(ip[2] as nat)[i - b - 1]);
        } else {
            assert(text[i] == decimal(ip[3] as nat)[i - c - 1]);
        }
    }
}

/// An IPv4 address as text.
pub fn fmt_ip(ip: [u8; 4]) -> (text: String)
    ensures
        text@ == ip_text(ip@),
{
    let mut text = String::new();
    proof {
        reveal_strlit(".");
        assert("."@ =~= seq!['.']);
    }
    push_decimal(&mut text, ip[0] as u64);
    assert(text@ =~= decimal(ip[0] as nat));
    text.append(".");
    push_decimal(&mut text, ip[1] as u64);
    text.append(".");
    push_decimal(&mut text, ip[2] as u64);
    text.append(".");
    push_decimal(&mut text, ip[3] as u64);
    text
}

/// No two addresses are written the same.
pub proof fn law_addresses_have_their_own_text(a: [u8; 4], b: [u8; 4])
    requires
        ip_text(a@) == ip_text(b@),
    ensures
        a == b,
{
    lemma_dots(a@);
    lemma_dots(b@);
    let text = ip_text(a@);
    let (a1, a2, a3) = dots(a@);
    let (b1, b2, b3) = dots(b@);
    assert(a1 == b1 && a2 == b2 && a3 == b3);
    assert forall|i: int| 0 <= i < 4 implies a[i] == b[i] by {
        law_number_round_trip(a[i] as nat, 255);
        law_number_round_trip(b[i] as nat, 255);
    }
    assert(a =~= b);
}

/// How numbers are written: a digit for those below ten, and otherwise the digits
/// of the tenth part and behind them the last digit. The digits are the characters
/// from '0' on.
pub proof fn law_digits_of_a_number(number: nat)
    ensures
        decimal(number).len() > 0,
        decimal(number).last() as u32 == '0' as u32 + number % 10,
        number < 10 ==> decimal(number).len() == 1,
        number >= 10 ==> decimal(number).drop_last() == decimal(number / 10),
{
    if number >= 10 {
        assert(decimal(number).drop_last() =~= decimal(number / 10));
    }
}

/// How bytes are written in hexadecimal: the two digits from '0' on, and from ten
/// on those from 'a' on, the higher first.
pub proof fn law_digits_of_a_byte(byte: u8)
    ensures
        hex_pair(byte).len() == 2,
        byte / 16 < 10 ==> hex_pair(byte)[0] as u32 == '0' as u32 + byte / 16,
        byte / 16 >= 10 ==> hex_pair(byte)[0] as u32 == 'a' as u32 + byte / 16 - 10,
        byte % 16 < 10 ==> hex_pair(byte)[1] as u32 == '0' as u32 + byte % 16,
        byte % 16 >= 10 ==> hex_pair(byte)[1] as u32 == 'a' as u32 + byte % 16 - 10,
{
}

/// What characters stand for as digits. Hexadecimal ones may be large or small.
pub proof fn law_what_digits_stand_for(c: char)
    ensures
        '0' <= c && c <= '9' ==> decimal_digit(c) == Some((c as u32 - 48) as nat) && hex_digit(c)
            == Some((c as u32 - 48) as nat),
        'a' <= c && c <= 'f' ==> hex_digit(c) == Some((c as u32 - 87) as nat),
        'A' <= c && c <= 'F' ==> hex_digit(c) == Some((c as u32 - 55) as nat),
        !('0' <= c && c <= '9') ==> decimal_digit(c) is None,
        !('0' <= c && c <= '9') && !('a' <= c && c <= 'f') && !('A' <= c && c <= 'F')
            ==> hex_digit(c) is None,
{
}

/// How numbers are read, digit by digit. Without characters, or with a sign alone,
/// there is no number. A digit is a number, with a plus sign in front or without.
/// Another digit behind a number makes ten times the number and the digit, where
/// that does not exceed the bound. What is wrong first is what is told.
pub proof fn law_numbers_are_read_digit_by_digit(text: Seq<char>, c: char, max: nat)
    ensures
        read_number(Seq::empty(), max) == Err::<nat, NumberError>(NumberError::Empty),
        read_number(seq!['+'], max) == Err::<nat, NumberError>(NumberError::InvalidDigit),
        c != '+' ==> read_number(seq![c], max) == match decimal_digit(c) {
            Some(digit) => if digit <= max {
                Ok(digit)
            } else {
                Err(NumberError::PosOverflow)
            },
            None => Err(NumberError::InvalidDigit),
        },
        read_number(seq!['+', c], max) == match decimal_digit(c) {
            Some(digit) => if digit <= max {
                Ok(digit)
            } else {
                Err(NumberError::PosOverflow)
            },
            None => Err(NumberError::InvalidDigit),
        },
        text.len() > 0 && text != seq!['+'] ==> read_number(text.push(c), max) == match read_number(
            text,
            max,
        ) {
            Ok(number) => match decimal_digit(c) {
                Some(digit) => if number * 10 + digit <= max {
                    Ok((number * 10 + digit) as nat)
                } else {
                    Err(NumberError::PosOverflow)
                },
                None => Err(NumberError::InvalidDigit),
            },
            Err(error) => Err(error),
        },
{
    reveal_with_fuel(read_digits, 2);
    assert(seq![c].drop_first() =~= Seq::empty());
    assert(seq!['+', c].drop_first() =~= seq![c]);
    assert(seq![c][0] == c);
    assert(seq!['+', c][0] == '+');
    assert(seq!['+', c].len() != seq!['+'].len());
    assert(c != '+' ==> seq![c] != seq!['+']) by {
        assert(seq!['+'][0] == '+');
    }
    if text.len() > 0 && text != seq!['+'] {
        let all = text.push(c);
        assert(all.len() > 1);
        assert(all != seq!['+']);
        if text[0] == '+' {
            assert(all.drop_first() =~= text.drop_first().push(c));
            lemma_read_push(text.drop_first(), c, 0, max);
        } else {
            lemma_read_push(text, c, 0, max);
        }
    }
}

/// How an address is written: its four bytes in decimal, in order, with a dot
/// between them.
pub proof fn law_address_is_written_in_order(a: u8, b: u8, c: u8, d: u8)
    ensures
        ip_text(seq![a, b, c, d]) == decimal(a as nat).push('.') + decimal(b as nat).push('.')
            + decimal(c as nat).push('.') + decimal(d as nat),
{
    assert(ip_text(seq![a, b, c, d]) =~= decimal(a as nat).push('.') + decimal(b as nat).push('.')
        + decimal(c as nat).push('.') + decimal(d as nat));
}

/// What is told of a text that is no number.
pub proof fn law_what_is_told_of_numbers()
    ensures
        NumberError::Empty.text() == "cannot parse integer from empty string"@,
        NumberError::InvalidDigit.text() == "invalid digit found in string"@,
        NumberError::PosOverflow.text() == "number too large to fit in target type"@,
{
}

} // verus!
