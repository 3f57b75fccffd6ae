//! What the host programs share: their arguments, and what they print.
use crate::ethernet_frame::{joined, lemma_mac_text, mac_text, EthernetAddress};
use crate::ifreq::{DEFAULT_TAP_NAME, DEFAULT_TUN_NAME};
use crate::ip_host::{EventView, IpHostEvent};
use crate::tcp_segment::{TcpSegment, TcpSegmentView};
use crate::text::{
    chars_of, decimal, digit_char, from_utf8_lossy, hex_digit, hex_pair, ip_text,
    law_addresses_have_their_own_text, lossy_text, parse_number, push_decimal, read_ip,
    read_number, same_text, NumberError,
};
use crate::wrapping_integers::Wrap32;
use std::ops::Deref;
use vstd::prelude::*;
use vstd::string::{StrSliceExecFns, StringExecFns};
use vstd::utf8::{decode_utf8, encode_scalar, encode_utf8, valid_utf8};

pub use crate::text::fmt_ip;

verus! {

/// What the user of a program does: write a line, or end the input.
#[derive(Debug)]
pub enum AppEvent {
    Data(Vec<u8>),
    Close,
}

/// The event of a line that was read: its bytes, with the end of line.
pub fn line_event(line: &str) -> (event: AppEvent)
    ensures
        event is Data,
        event->Data_0@ == encode_utf8(line@.push('\n')),
{
    let mut text = String::from_str(line);
    proof {
        reveal_strlit("\n");
    }
    text.append("\n");
    assert(text@ =~= line@.push('\n'));
    AppEvent::Data(text.as_str().as_bytes_vec())
}

/// Why the arguments of a program are refused.
#[derive(Debug, PartialEq, Eq)]
pub enum CliError {
    MissingValue(String),
    UnknownArgument(String),
    InvalidIpv4,
    InvalidNumber(NumberError),
    ZeroPort,
    MacShape,
    MacOctetLength,
    SameAddress,
    SamePort,
}

/// What a [`CliError`] says.
pub enum CliErrorView {
    MissingValue(Seq<char>),
    UnknownArgument(Seq<char>),
    InvalidIpv4,
    InvalidNumber(NumberError),
    ZeroPort,
    MacShape,
    MacOctetLength,
    SameAddress,
    SamePort,
}

impl View for CliError {
    type V = CliErrorView;

    open spec fn view(&self) -> CliErrorView {
        match *self {
            CliError::MissingValue(option) => CliErrorView::MissingValue(option@),
            CliError::UnknownArgument(argument) => CliErrorView::UnknownArgument(argument@),
            CliError::InvalidIpv4 => CliErrorView::InvalidIpv4,
            CliError::InvalidNumber(error) => CliErrorView::InvalidNumber(error),
            CliError::ZeroPort => CliErrorView::ZeroPort,
            CliError::MacShape => CliErrorView::MacShape,
            CliError::MacOctetLength => CliErrorView::MacOctetLength,
            CliError::SameAddress => CliErrorView::SameAddress,
            CliError::SamePort => CliErrorView::SamePort,
        }
    }
}

impl CliErrorView {
    /// What the user is told.
    pub open spec fn text(self) -> Seq<char> {
        match self {
            CliErrorView::MissingValue(option) => "missing value for "@ + option,
            CliErrorView::UnknownArgument(argument) => "unknown argument: "@ + argument,
            CliErrorView::InvalidIpv4 => "invalid IPv4 address syntax"@,
            CliErrorView::InvalidNumber(error) => error.text(),
            CliErrorView::ZeroPort => "TCP port cannot be zero"@,
            CliErrorView::MacShape => "MAC address must have six colon-separated octets"@,
            CliErrorView::MacOctetLength => "MAC address octets must be two hex digits"@,
            CliErrorView::SameAddress => "local IP and peer IP must be different"@,
            CliErrorView::SamePort => "local port and peer port should be different"@,
        }
    }
}

impl CliError {
    /// What the user is told.
    pub fn message(&self) -> (message: String)
        ensures
            message@ == self@.text(),
    {
        match self {
            Self::MissingValue(option) => {
                let mut message = String::from_str("missing value for ");
                message.append(option.as_str());
                message
            },
            Self::UnknownArgument(argument) => {
                let mut message = String::from_str("unknown argument: ");
                message.append(argument.as_str());
                message
            },
            Self::InvalidIpv4 => String::from_str("invalid IPv4 address syntax"),
            Self::InvalidNumber(error) => String::from_str(error.message()),
            Self::ZeroPort => String::from_str("TCP port cannot be zero"),
            Self::MacShape => String::from_str("MAC address must have six colon-separated octets"),
            Self::MacOctetLength => String::from_str("MAC address octets must be two hex digits"),
            Self::SameAddress => String::from_str("local IP and peer IP must be different"),
            Self::SamePort => String::from_str("local port and peer port should be different"),
        }
    }
}

/// The address that a text is.
pub open spec fn ip_from(text: Seq<char>) -> Result<[u8; 4], CliErrorView> {
    if exists|ip: [u8; 4]| text == #[trigger] ip_text(ip@) {
        Ok(choose|ip: [u8; 4]| text == #[trigger] ip_text(ip@))
    } else {
        Err(CliErrorView::InvalidIpv4)
    }
}

/// The port that a text is: a number of 16 bits, but not zero.
pub open spec fn port_from(text: Seq<char>) -> Result<u16, CliErrorView> {
    match read_number(text, 65535) {
        Ok(number) => if number == 0 {
            Err(CliErrorView::ZeroPort)
        } else {
            Ok(number as u16)
        },
        Err(error) => Err(CliErrorView::InvalidNumber(error)),
    }
}

/// The sequence number that a text is.
pub open spec fn isn_from(text: Seq<char>) -> Result<Wrap32, CliErrorView> {
    match read_number(text, 0xffff_ffff) {
        Ok(number) => Ok(Wrap32(number as u32)),
        Err(error) => Err(CliErrorView::InvalidNumber(error)),
    }
}

/// The pieces of a text between separators.
pub open spec fn split(text: Seq<char>, separator: char) -> Seq<Seq<char>>
    decreases text.len(),
{
    if text.len() == 0 {
        seq![Seq::empty()]
    } else {
        let before = split(text.drop_last(), separator);
        if text.last() == separator {
            before.push(Seq::empty())
        } else {
            before.drop_last().push(before.last().push(text.last()))
        }
    }
}

/// The byte that a piece of an Ethernet address is: two hexadecimal digits, or
/// one behind a plus sign. A piece has to be two bytes long.
pub open spec fn octet_from(piece: Seq<char>) -> Result<u8, CliErrorView> {
    if encode_utf8(piece).len() != 2 {
        Err(CliErrorView::MacOctetLength)
    } else if piece.len() == 2 && hex_digit(piece[0]) is Some && hex_digit(piece[1]) is Some {
        Ok((hex_digit(piece[0])->Some_0 * 16 + hex_digit(piece[1])->Some_0) as u8)
    } else if piece.len() == 2 && piece[0] == '+' && hex_digit(piece[1]) is Some {
        Ok(hex_digit(piece[1])->Some_0 as u8)
    } else {
        Err(CliErrorView::InvalidNumber(NumberError::InvalidDigit))
    }
}

/// The bytes that some pieces are, up to the first that is none.
pub open spec fn octets_from(pieces: Seq<Seq<char>>) -> Result<Seq<u8>, CliErrorView>
    decreases pieces.len(),
{
    if pieces.len() == 0 {
        Ok(Seq::empty())
    } else {
        match octets_from(pieces.drop_last()) {
            Ok(before) => match octet_from(pieces.last()) {
                Ok(octet) => Ok(before.push(octet)),
                Err(error) => Err(error),
            },
            Err(error) => Err(error),
        }
    }
}

/// The bytes of the Ethernet address that a text is: six of them with colons
/// between them.
pub open spec fn mac_from(text: Seq<char>) -> Result<Seq<u8>, CliErrorView> {
    if split(text, ':').len() != 6 {
        Err(CliErrorView::MacShape)
    } else {
        octets_from(split(text, ':'))
    }
}

/// The argument at a place, which an option needs.
pub fn require_arg<'a>(args: &'a [String], index: usize, flag: &str) -> (result: Result<
    &'a str,
    CliError,
>)
    ensures
        match result {
            Ok(value) => index < args@.len() && value@ == args@[index as int]@,
            Err(error) => index >= args@.len() && error@ == CliErrorView::MissingValue(flag@),
        },
{
    if index < args.len() {
        Ok(args[index].as_str())
    } else {
        Err(CliError::MissingValue(String::from_str(flag)))
    }
}

pub fn parse_ipv4(value: &str) -> (result: Result<[u8; 4], CliError>)
    ensures
        match result {
            Ok(ip) => ip_from(value@) == Ok::<[u8; 4], CliErrorView>(ip),
            Err(error) => ip_from(value@) == Err::<[u8; 4], CliErrorView>(error@),
        },
        match result {
            Ok(ip) => value@ == ip_text(ip@),
            Err(_) => forall|ip: [u8; 4]| value@ != #[trigger] ip_text(ip@),
        },
{
    match read_ip(value) {
        Some(ip) => {
            proof {
                let chosen = choose|other: [u8; 4]| value@ == #[trigger] ip_text(other@);
                assert(value@ == ip_text(ip@));
                law_addresses_have_their_own_text(chosen, ip);
            }
            Ok(ip)
        },
        None => Err(CliError::InvalidIpv4),
    }
}

pub fn parse_port(value: &str) -> (result: Result<u16, CliError>)
    ensures
        match result {
            Ok(port) => {
                &&& port != 0
                &&& read_number(value@, 65535) == Ok::<nat, NumberError>(port as nat)
                &&& port_from(value@) == Ok::<u16, CliErrorView>(port)
            },
            Err(error) => port_from(value@) == Err::<u16, CliErrorView>(error@),
        },
{
    let chars = chars_of(value);
    assert(chars@.subrange(0, chars@.len() as int) =~= value@);
    match parse_number(&chars, 0, chars.len(), 65535) {
        Ok(number) => {
            if number == 0 {
                Err(CliError::ZeroPort)
            } else {
                Ok(number as u16)
            }
        },
        Err(error) => Err(CliError::InvalidNumber(error)),
    }
}

/// Reads a sequence number.
fn parse_isn(value: &str) -> (result: Result<Wrap32, CliError>)
    ensures
        match result {
            Ok(isn) => isn_from(value@) == Ok::<Wrap32, CliErrorView>(isn),
            Err(error) => isn_from(value@) == Err::<Wrap32, CliErrorView>(error@),
        },
{
    let chars = chars_of(value);
    assert(chars@.subrange(0, chars@.len() as int) =~= value@);
    match parse_number(&chars, 0, chars.len(), u32::MAX) {
        Ok(number) => Ok(Wrap32::new(number)),
        Err(error) => Err(CliError::InvalidNumber(error)),
    }
}

/// What each of these vectors holds.
spec fn pieces_of(pieces: Seq<Vec<char>>) -> Seq<Seq<char>> {
    Seq::new(pieces.len(), |i: int| pieces[i]@)
}

/// The pieces of a text between separators.
fn split_text(text: &str, separator: char) -> (pieces: Vec<Vec<char>>)
    ensures
        pieces_of(pieces@) == split(text@, separator),
{
    let chars = chars_of(text);
    let mut pieces: Vec<Vec<char>> = Vec::new();
    let mut current: Vec<char> = Vec::new();
    let mut index: usize = 0;
    assert(pieces_of(pieces@).push(current@) =~= split(chars@.take(0), separator)) by {
        assert(chars@.take(0).len() == 0);
        assert(current@ =~= Seq::empty());
    }
    while index < chars.len()
        invariant
            index <= chars@.len(),
            pieces_of(pieces@).push(current@) == split(chars@.take(index as int), separator),
        decreases chars@.len() - index,
    {
        let ghost seen = chars@.take(index + 1);
        let ghost before = pieces_of(pieces@);
        let ghost part = current@;
        assert(seen.drop_last() =~= chars@.take(index as int));
        assert(before.push(part).drop_last() =~= before);
        let c = chars[index];
        if c == separator {
            pieces.push(current);
            current = Vec::new();
            assert(pieces_of(pieces@) =~= before.push(part));
            assert(current@ =~= Seq::empty());
        } else {
            current.push(c);
        }
        index = index + 1;
    }
    assert(chars@.take(index as int) =~= text@);
    let ghost before = pieces_of(pieces@);
    let ghost part = current@;
    pieces.push(current);
    assert(pieces_of(pieces@) =~= before.push(part));
    pieces
}

/// How many bytes a character takes in UTF-8.
fn utf8_len(c: char) -> (len: usize)
    ensures
        len == encode_scalar(c as u32).len(),
        1 <= len <= 4,
{
    let scalar: u32 = c as u32;
    if scalar <= 0x7f {
        1
    } else if scalar <= 0x7ff {
        2
    } else if scalar <= 0xffff {
        3
    } else {
        4
    }
}

/// What a character stands for as a hexadecimal digit.
fn hex_value(c: char) -> (value: Option<u8>)
    ensures
        match value {
            Some(value) => hex_digit(c) == Some(value as nat) && value < 16,
            None => hex_digit(c) is None,
        },
{
    if '0' <= c && c <= '9' {
        Some((c as u32 - '0' as u32) as u8)
    } else if 'a' <= c && c <= 'f' {
        Some((c as u32 - 'a' as u32 + 10) as u8)
    } else if 'A' <= c && c <= 'F' {
        Some((c as u32 - 'A' as u32 + 10) as u8)
    } else {
        None
    }
}

/// How many bytes each of the first characters takes at least.
proof fn lemma_utf8_len(piece: Seq<char>)
    ensures
        encode_utf8(piece).len() >= piece.len(),
        piece.len() == 1 ==> encode_utf8(piece).len() == encode_scalar(piece[0] as u32).len(),
        piece.len() == 2 ==> encode_utf8(piece).len() == encode_scalar(piece[0] as u32).len()
            + encode_scalar(piece[1] as u32).len(),
    decreases piece.len(),
{
    if piece.len() > 0 {
        let rest = piece.drop_first();
        lemma_utf8_len(rest);
        assert(encode_scalar(piece[0] as u32).len() >= 1);
        if rest.len() == 1 {
            assert(rest[0] == piece[1]);
        }
    }
}

/// Reads one byte of an Ethernet address.
fn parse_octet(piece: &Vec<char>) -> (result: Result<u8, CliError>)
    ensures
        match result {
            Ok(octet) => octet_from(piece@) == Ok::<u8, CliErrorView>(octet),
            Err(error) => octet_from(piece@) == Err::<u8, CliErrorView>(error@),
        },
{
    proof {
        lemma_utf8_len(piece@);
    }
    if piece.len() == 1 {
        if utf8_len(piece[0]) != 2 {
            return Err(CliError::MacOctetLength);
        }
        return Err(CliError::InvalidNumber(NumberError::InvalidDigit));
    }
    if piece.len() != 2 || utf8_len(piece[0]) + utf8_len(piece[1]) != 2 {
        return Err(CliError::MacOctetLength);
    }
    match (hex_value(piece[0]), hex_value(piece[1])) {
        (Some(high), Some(low)) => Ok(high * 16 + low),
        (None, Some(low)) => {
            if piece[0] == '+' {
                Ok(low)
            } else {
                Err(CliError::InvalidNumber(NumberError::InvalidDigit))
            }
        },
        _ => Err(CliError::InvalidNumber(NumberError::InvalidDigit)),
    }
}

/// Reads an Ethernet address.
pub fn parse_mac(value: &str) -> (result: Result<EthernetAddress, CliError>)
    ensures
        match result {
            Ok(address) => mac_from(value@) == Ok::<Seq<u8>, CliErrorView>(address.0@),
            Err(error) => mac_from(value@) == Err::<Seq<u8>, CliErrorView>(error@),
        },
{
    let pieces = split_text(value, ':');
    let ghost all = split(value@, ':');
    if pieces.len() != 6 {
        return Err(CliError::MacShape);
    }
    let mut octets: [u8; 6] = [0; 6];
    let mut index: usize = 0;
    assert(octets@.take(0) =~= Seq::empty());
    assert(all.take(0).len() == 0);
    while index < 6
        invariant
            index <= 6,
            pieces@.len() == 6,
            all == pieces_of(pieces@),
            all == split(value@, ':'),
            octets_from(all.take(index as int)) == Ok::<Seq<u8>, CliErrorView>(
                octets@.take(index as int),
            ),
        decreases 6 - index,
    {
        let ghost before = octets@;
        assert(all.take(index + 1).drop_last() =~= all.take(index as int));
        assert(all.take(index + 1).last() == pieces@[index as int]@);
        match parse_octet(&pieces[index]) {
            Ok(octet) => {
                octets[index] = octet;
                assert(octets@.take(index + 1) =~= before.take(index as int).push(octet));
            },
            Err(error) => {
                proof {
                    lemma_first_error(all, index + 1);
                }
                return Err(error);
            },
        }
        index = index + 1;
    }
    assert(all.take(6) =~= all);
    assert(octets@.take(6) =~= octets@);
    Ok(EthernetAddress::new(octets))
}

/// Where some of the first pieces are no bytes, the first of these is what counts.
proof fn lemma_first_error(pieces: Seq<Seq<char>>, len: int)
    requires
        0 <= len <= pieces.len(),
        octets_from(pieces.take(len)) is Err,
    ensures
        octets_from(pieces) == octets_from(pieces.take(len)),
    decreases pieces.len(),
{
    if len == pieces.len() {
        assert(pieces.take(len) =~= pieces);
    } else {
        assert(pieces.drop_last().take(len) =~= pieces.take(len));
        lemma_first_error(pieces.drop_last(), len);
    }
}

/// The programs that run a host: over a TUN interface, with a capture or
/// without, or over a TAP interface.
#[derive(Debug, Clone, Copy, PartialEq, Eq, Structural)]
pub enum HostProgram {
    TcpIpv4,
    TunHost,
    TapHost,
}

/// What a host program is told by its arguments.
#[derive(Debug)]
pub struct HostOptions {
    pub device_name: String,
    pub local_mac: EthernetAddress,
    pub local_ip: [u8; 4],
    pub peer_ip: [u8; 4],
    pub local_port: u16,
    pub peer_port: u16,
    pub isn: Wrap32,
    pub pcap_path: Option<String>,
}

/// What [`HostOptions`] say.
#[verifier::ext_equal]
pub struct OptionsView {
    pub device_name: Seq<char>,
    pub local_mac: Seq<u8>,
    pub local_ip: [u8; 4],
    pub peer_ip: [u8; 4],
    pub local_port: u16,
    pub peer_port: u16,
    pub isn: Wrap32,
    pub pcap_path: Option<Seq<char>>,
}

impl View for HostOptions {
    type V = OptionsView;

    open spec fn view(&self) -> OptionsView {
        OptionsView {
            device_name: self.device_name@,
            local_mac: self.local_mac.0@,
            local_ip: self.local_ip,
            peer_ip: self.peer_ip,
            local_port: self.local_port,
            peer_port: self.peer_port,
            isn: self.isn,
            pcap_path: match self.pcap_path {
                Some(path) => Some(path@),
                None => None,
            },
        }
    }
}

/// What the arguments of a program come to.
#[derive(Debug)]
pub enum ParsedArgs {
    Help,
    Run(HostOptions),
}

/// What [`ParsedArgs`] say.
pub enum ParsedView {
    Help,
    Run(OptionsView),
}

impl View for ParsedArgs {
    type V = ParsedView;

    open spec fn view(&self) -> ParsedView {
        match *self {
            ParsedArgs::Help => ParsedView::Help,
            ParsedArgs::Run(options) => ParsedView::Run(options@),
        }
    }
}

impl HostProgram {
    /// The option that names the interface.
    pub open spec fn device_option(self) -> Seq<char> {
        match self {
            HostProgram::TapHost => "--tap"@,
            _ => "--tun"@,
        }
    }

    /// What a program does without arguments.
    pub open spec fn defaults(self) -> OptionsView {
        OptionsView {
            device_name: match self {
                HostProgram::TapHost => DEFAULT_TAP_NAME@,
                _ => DEFAULT_TUN_NAME@,
            },
            local_mac: seq![0x02u8, 0, 0, 0, 0, 0x02],
            local_ip: [169, 254, 144, 2],
            peer_ip: [169, 254, 144, 1],
            local_port: 50_000,
            peer_port: 9_090,
            isn: Wrap32(1_000_000),
            pcap_path: None,
        }
    }

    /// Whether a program knows an option.
    pub open spec fn knows(self, option: Seq<char>) -> bool {
        ||| option == self.device_option()
        ||| option == "--local-ip"@
        ||| option == "--peer-ip"@
        ||| option == "--local-port"@
        ||| option == "--peer-port"@
        ||| option == "--isn"@
        ||| option == "--local-mac"@ && self == HostProgram::TapHost
        ||| option == "--pcap"@ && self != HostProgram::TcpIpv4
    }

    fn device_flag(self) -> (option: &'static str)
        ensures
            option@ == self.device_option(),
    {
        match self {
            Self::TapHost => "--tap",
            _ => "--tun",
        }
    }

    fn default_options(self) -> (options: HostOptions)
        ensures
            options@ == self.defaults(),
    {
        let device_name = match self {
            Self::TapHost => DEFAULT_TAP_NAME,
            _ => DEFAULT_TUN_NAME,
        };
        let local_mac = EthernetAddress::new([0x02, 0, 0, 0, 0, 0x02]);
        assert(local_mac.0@ =~= seq![0x02u8, 0, 0, 0, 0, 0x02]);
        HostOptions {
            device_name: String::from_str(device_name),
            local_mac,
            local_ip: [169, 254, 144, 2],
            peer_ip: [169, 254, 144, 1],
            local_port: 50_000,
            peer_port: 9_090,
            isn: Wrap32::new(1_000_000),
            pcap_path: None,
        }
    }

    fn has_option(self, option: &str) -> (known: bool)
        ensures
            known == self.knows(option@),
    {
        same_text(option, self.device_flag()) || same_text(option, "--local-ip") || same_text(
            option,
            "--peer-ip",
        ) || same_text(option, "--local-port") || same_text(option, "--peer-port") || same_text(
            option,
            "--isn",
        ) || (same_text(option, "--local-mac") && self == Self::TapHost) || (same_text(
            option,
            "--pcap",
        ) && self != Self::TcpIpv4)
    }

    /// What a program is told once an option has a value.
    pub open spec fn with_option(
        self,
        options: OptionsView,
        option: Seq<char>,
        value: Seq<char>,
    ) -> Result<OptionsView, CliErrorView> {
        if option == self.device_option() {
            Ok(OptionsView { device_name: value, ..options })
        } else if option == "--local-mac"@ {
            match mac_from(value) {
                Ok(local_mac) => Ok(OptionsView { local_mac, ..options }),
                Err(error) => Err(error),
            }
        } else if option == "--local-ip"@ {
            match ip_from(value) {
                Ok(local_ip) => Ok(OptionsView { local_ip, ..options }),
                Err(error) => Err(error),
            }
        } else if option == "--peer-ip"@ {
            match ip_from(value) {
                Ok(peer_ip) => Ok(OptionsView { peer_ip, ..options }),
                Err(error) => Err(error),
            }
        } else if option == "--local-port"@ {
            match port_from(value) {
                Ok(local_port) => Ok(OptionsView { local_port, ..options }),
                Err(error) => Err(error),
            }
        } else if option == "--peer-port"@ {
            match port_from(value) {
                Ok(peer_port) => Ok(OptionsView { peer_port, ..options }),
                Err(error) => Err(error),
            }
        } else if option == "--isn"@ {
            match isn_from(value) {
                Ok(isn) => Ok(OptionsView { isn, ..options }),
                Err(error) => Err(error),
            }
        } else {
            Ok(OptionsView { pcap_path: Some(value), ..options })
        }
    }

    fn set_option(self, options: HostOptions, option: &str, value: &str) -> (result: Result<
        HostOptions,
        CliError,
    >)
        ensures
            match result {
                Ok(set) => self.with_option(options@, option@, value@) == Ok::<
                    OptionsView,
                    CliErrorView,
                >(set@),
                Err(error) => self.with_option(options@, option@, value@) == Err::<
                    OptionsView,
                    CliErrorView,
                >(error@),
            },
    {
        let mut set = options;
        if same_text(option, self.device_flag()) {
            set.device_name = String::from_str(value);
        } else if same_text(option, "--local-mac") {
            match parse_mac(value) {
                Ok(local_mac) => {
                    set.local_mac = local_mac;
                },
                Err(error) => {
                    return Err(error);
                },
            }
        } else if same_text(option, "--local-ip") {
            match parse_ipv4(value) {
                Ok(local_ip) => {
                    set.local_ip = local_ip;
                },
                Err(error) => {
                    return Err(error);
                },
            }
        } else if same_text(option, "--peer-ip") {
            match parse_ipv4(value) {
                Ok(peer_ip) => {
                    set.peer_ip = peer_ip;
                },
                Err(error) => {
                    return Err(error);
                },
            }
        } else if same_text(option, "--local-port") {
            match parse_port(value) {
                Ok(local_port) => {
                    set.local_port = local_port;
                },
                Err(error) => {
                    return Err(error);
                },
            }
        } else if same_text(option, "--peer-port") {
            match parse_port(value) {
                Ok(peer_port) => {
                    set.peer_port = peer_port;
                },
                Err(error) => {
                    return Err(error);
                },
            }
        } else if same_text(option, "--isn") {
            match parse_isn(value) {
                Ok(isn) => {
                    set.isn = isn;
                },
                Err(error) => {
                    return Err(error);
                },
            }
        } else {
            set.pcap_path = Some(String::from_str(value));
        }
        Ok(set)
    }

    /// What arguments come to, behind others that have told something already.
    /// They are read from left to right up to the first error or call for help.
    pub open spec fn read_args(self, options: OptionsView, args: Seq<Seq<char>>) -> Result<
        ParsedView,
        CliErrorView,
    >
        decreases args.len(),
    {
        if args.len() == 0 {
            if options.local_ip == options.peer_ip {
                Err(CliErrorView::SameAddress)
            } else if options.local_port == options.peer_port {
                Err(CliErrorView::SamePort)
            } else {
                Ok(ParsedView::Run(options))
            }
        } else if args[0] == "--help"@ || args[0] == "-h"@ {
            Ok(ParsedView::Help)
        } else if !self.knows(args[0]) {
            Err(CliErrorView::UnknownArgument(args[0]))
        } else if args.len() == 1 {
            Err(CliErrorView::MissingValue(args[0]))
        } else {
            match self.with_option(options, args[0], args[1]) {
                Ok(more) => self.read_args(more, args.skip(2)),
                Err(error) => Err(error),
            }
        }
    }
}

/// The arguments of a program behind its own name.
pub open spec fn arguments(args: Seq<String>) -> Seq<Seq<char>> {
    if args.len() == 0 {
        Seq::empty()
    } else {
        Seq::new((args.len() - 1) as nat, |i: int| args[i + 1]@)
    }
}

/// Reads the arguments of a program, the first of which is its own name.
pub fn parse_args(program: HostProgram, args: &[String]) -> (result: Result<ParsedArgs, CliError>)
    ensures
        match result {
            Ok(parsed) => program.read_args(program.defaults(), arguments(args@)) == Ok::<
                ParsedView,
                CliErrorView,
            >(parsed@),
            Err(error) => program.read_args(program.defaults(), arguments(args@)) == Err::<
                ParsedView,
                CliErrorView,
            >(error@),
        },
{
    let mut options = program.default_options();
    let ghost texts = arguments(args@);
    let ghost goal = program.read_args(program.defaults(), texts);
    let mut index: usize = 1;
    assert(texts.skip(0) =~= texts);
    while index < args.len()
        invariant
            1 <= index,
            index <= args@.len() || index == 1,
            texts == arguments(args@),
            goal == program.read_args(program.defaults(), texts),
            goal == program.read_args(options@, texts.skip(index - 1)),
        decreases args@.len() - index,
    {
        let ghost left = texts.skip(index - 1);
        assert(left[0] == args@[index as int]@);
        let option = args[index].as_str();
        if same_text(option, "--help") || same_text(option, "-h") {
            return Ok(ParsedArgs::Help);
        }
        if !program.has_option(option) {
            return Err(CliError::UnknownArgument(String::from_str(option)));
        }
        index = index + 1;
        let value = match require_arg(args, index, option) {
            Ok(value) => value,
            Err(error) => {
                return Err(error);
            },
        };
        assert(left[1] == args@[index as int]@);
        assert(left.skip(2) =~= texts.skip(index as int));
        match program.set_option(options, option, value) {
            Ok(set) => {
                options = set;
            },
            Err(error) => {
                return Err(error);
            },
        }
        index = index + 1;
    }
    assert(texts.skip(index - 1).len() == 0);
    if crate::ipv4_datagram::same_address(options.local_ip, options.peer_ip) {
        return Err(CliError::SameAddress);
    }
    if options.local_port == options.peer_port {
        return Err(CliError::SamePort);
    }
    Ok(ParsedArgs::Run(options))
}

/// A truth value as text.
pub open spec fn bool_text(value: bool) -> Seq<char> {
    if value {
        "true"@
    } else {
        "false"@
    }
}

/// An acknowledgement as text.
pub open spec fn ack_text(ackno: Option<Wrap32>) -> Seq<char> {
    match ackno {
        Some(ackno) => "Some("@ + decimal(ackno.0 as nat) + ")"@,
        None => "None"@,
    }
}

/// A line that tells of a segment, behind an arrow that tells where it goes.
pub open spec fn segment_text(arrow: Seq<char>, segment: TcpSegmentView) -> Seq<char> {
    arrow + " TCP "@ + decimal(segment.header.src_port as nat) + " -> "@ + decimal(
        segment.header.dst_port as nat,
    ) + " seq="@ + decimal(segment.header.seqno.0 as nat) + " ack="@ + ack_text(
        segment.header.ackno,
    ) + " SYN="@ + bool_text(segment.header.syn) + " FIN="@ + bool_text(segment.header.fin)
        + " RST="@ + bool_text(segment.header.rst) + " win="@ + decimal(
        segment.header.window_size as nat,
    ) + " payload="@ + decimal(segment.payload.len())
}

/// A line that tells of a ping, behind what it is.
pub open spec fn ping_text(
    what: Seq<char>,
    src_ip: [u8; 4],
    dst_ip: [u8; 4],
    identifier: u16,
    sequence_number: u16,
    payload_len: nat,
) -> Seq<char> {
    what + ip_text(src_ip@) + " -> "@ + ip_text(dst_ip@) + " id="@ + decimal(identifier as nat)
        + " seq="@ + decimal(sequence_number as nat) + " payload="@ + decimal(payload_len)
}

/// The line that tells of an event. Payload is no line: it goes out as it is.
pub open spec fn event_text(event: EventView) -> Option<Seq<char>> {
    match event {
        EventView::IncomingTcp(segment) => Some(segment_text("<<"@, segment)),
        EventView::OutgoingTcp(segment) => Some(segment_text(">>"@, segment)),
        EventView::TcpPayload(payload) => None,
        EventView::EchoRequest {
            src_ip,
            dst_ip,
            identifier,
            sequence_number,
            payload_len,
        } => Some(
            ping_text(
                "<< ICMP echo request "@,
                src_ip,
                dst_ip,
                identifier,
                sequence_number,
                payload_len,
            ),
        ),
        EventView::EchoReply { src_ip, dst_ip, identifier, sequence_number, payload_len } => Some(
            ping_text(
                ">> ICMP echo reply "@,
                src_ip,
                dst_ip,
                identifier,
                sequence_number,
                payload_len,
            ),
        ),
        EventView::MalformedIpv4(reason) => Some("ignored malformed IPv4 packet: "@ + reason),
        EventView::MalformedTcp(reason) => Some("ignored malformed TCP segment: "@ + reason),
        EventView::MalformedEcho(reason) => Some("ignored malformed ICMP message: "@ + reason),
    }
}

fn push_bool(text: &mut String, value: bool)
    ensures
        final(text)@ == old(text)@ + bool_text(value),
{
    if value {
        text.append("true");
    } else {
        text.append("false");
    }
}

fn push_ack(text: &mut String, ackno: Option<Wrap32>)
    ensures
        final(text)@ == old(text)@ + ack_text(ackno),
{
    match ackno {
        Some(ackno) => {
            text.append("Some(");
            push_decimal(text, ackno.raw_value() as u64);
            text.append(")");
            assert(text@ =~= old(text)@ + ack_text(Some(ackno)));
        },
        None => {
            text.append("None");
        },
    }
}

/// A line that tells of a segment.
pub fn segment_line(arrow: &str, segment: &TcpSegment) -> (line: String)
    ensures
        line@ == segment_text(arrow@, segment@),
{
    let mut line = String::from_str(arrow);
    line.append(" TCP ");
    push_decimal(&mut line, segment.header.src_port as u64);
    line.append(" -> ");
    push_decimal(&mut line, segment.header.dst_port as u64);
    line.append(" seq=");
    push_decimal(&mut line, segment.header.seqno.raw_value() as u64);
    line.append(" ack=");
    push_ack(&mut line, segment.header.ackno);
    line.append(" SYN=");
    push_bool(&mut line, segment.header.syn);
    line.append(" FIN=");
    push_bool(&mut line, segment.header.fin);
    line.append(" RST=");
    push_bool(&mut line, segment.header.rst);
    line.append(" win=");
    push_decimal(&mut line, segment.header.window_size as u64);
    line.append(" payload=");
    push_decimal(&mut line, segment.payload.len() as u64);
    line
}

/// A line that tells of a ping.
fn ping_line(
    what: &str,
    src_ip: [u8; 4],
    dst_ip: [u8; 4],
    identifier: u16,
    sequence_number: u16,
    payload_len: usize,
) -> (line: String)
    ensures
        line@ == ping_text(
            what@,
            src_ip,
            dst_ip,
            identifier,
            sequence_number,
            payload_len as nat,
        ),
{
    let mut line = String::from_str(what);
    line.append(fmt_ip(src_ip).as_str());
    line.append(" -> ");
    line.append(fmt_ip(dst_ip).as_str());
    line.append(" id=");
    push_decimal(&mut line, identifier as u64);
    line.append(" seq=");
    push_decimal(&mut line, sequence_number as u64);
    line.append(" payload=");
    push_decimal(&mut line, payload_len as u64);
    line
}

/// What is printed of an event: a line for the user, or text of the peer.
#[derive(Debug, PartialEq, Eq)]
pub enum Printed {
    Line(String),
    PeerText(String),
}

fn reason_line(what: &str, reason: &String) -> (line: String)
    ensures
        line@ == what@ + reason@,
{
    let mut line = String::from_str(what);
    line.append(reason.as_str());
    line
}

/// What is printed of an event.
pub fn event_output(event: &IpHostEvent) -> (printed: Printed)
    ensures
        match printed {
            Printed::Line(line) => event_text(event@) == Some(line@),
            Printed::PeerText(text) => event@ matches EventView::TcpPayload(payload) && {
                &&& text@ == lossy_text(payload)
                &&& valid_utf8(payload) ==> text@ == decode_utf8(payload)
            },
        },
{
    match event {
        IpHostEvent::IncomingTcp(segment) => Printed::Line(segment_line("<<", segment)),
        IpHostEvent::OutgoingTcp(segment) => Printed::Line(segment_line(">>", segment)),
        IpHostEvent::TcpPayload(payload) => Printed::PeerText(from_utf8_lossy(payload.deref())),
        IpHostEvent::IcmpEchoRequest {
            src_ip,
            dst_ip,
            identifier,
            sequence_number,
            payload_len,
        } => Printed::Line(
            ping_line(
                "<< ICMP echo request ",
                *src_ip,
                *dst_ip,
                *identifier,
                *sequence_number,
                *payload_len,
            ),
        ),
        IpHostEvent::IcmpEchoReply {
            src_ip,
            dst_ip,
            identifier,
            sequence_number,
            payload_len,
        } => Printed::Line(
            ping_line(
                ">> ICMP echo reply ",
                *src_ip,
                *dst_ip,
                *identifier,
                *sequence_number,
                *payload_len,
            ),
        ),
        IpHostEvent::IgnoredMalformedIpv4(reason) => Printed::Line(
            reason_line("ignored malformed IPv4 packet: ", reason),
        ),
        IpHostEvent::IgnoredMalformedTcp(reason) => Printed::Line(
            reason_line("ignored malformed TCP segment: ", reason),
        ),
        IpHostEvent::IgnoredMalformedIcmp(reason) => Printed::Line(
            reason_line("ignored malformed ICMP message: ", reason),
        ),
    }
}

/// Reading an address undoes writing it.
pub proof fn law_address_round_trip(ip: [u8; 4])
    ensures
        ip_from(ip_text(ip@)) == Ok::<[u8; 4], CliErrorView>(ip),
{
    let text = ip_text(ip@);
    let chosen = choose|other: [u8; 4]| text == #[trigger] ip_text(other@);
    assert(text == ip_text(ip@));
    law_addresses_have_their_own_text(chosen, ip);
}

/// Every port but zero is read as it is written.
pub proof fn law_port_round_trip(port: u16)
    ensures
        port > 0 ==> port_from(decimal(port as nat)) == Ok::<u16, CliErrorView>(port),
        port_from(decimal(0)) == Err::<u16, CliErrorView>(CliErrorView::ZeroPort),
{
    crate::text::law_number_round_trip(port as nat, 65535);
    crate::text::law_number_round_trip(0, 65535);
}

/// A port that is read is never zero, and the number is the port.
pub proof fn law_port_is_not_zero(text: Seq<char>)
    ensures
        port_from(text) matches Ok(port) ==> port != 0 && read_number(text, 65535) == Ok::<
            nat,
            NumberError,
        >(port as nat),
{
    crate::text::law_number_is_bounded(text, 65535);
}

/// A program runs only with two different addresses and two different ports.
pub proof fn law_both_ends_differ(
    program: HostProgram,
    options: OptionsView,
    args: Seq<Seq<char>>,
)
    ensures
        program.read_args(options, args) matches Ok(ParsedView::Run(read)) ==> read.local_ip
            != read.peer_ip && read.local_port != read.peer_port,
    decreases args.len(),
{
    if args.len() >= 2 {
        match program.with_option(options, args[0], args[1]) {
            Ok(more) => {
                law_both_ends_differ(program, more, args.skip(2));
            },
            Err(_) => {},
        }
    }
}

/// Reading an Ethernet address undoes writing it.
pub proof fn law_mac_round_trip(address: EthernetAddress)
    ensures
        mac_from(mac_text(address.0@)) == Ok::<Seq<u8>, CliErrorView>(address.0@),
{
    let bytes = address.0@;
    let pieces = hex_pairs(bytes, 6);
    lemma_mac_text(bytes);
    lemma_split_joined(bytes, 6);
    assert forall|i: int| 0 <= i < 6 implies octet_from(#[trigger] pieces[i]) == Ok::<
        u8,
        CliErrorView,
    >(bytes[i]) by {
        lemma_hex_pair(bytes[i]);
    }
    lemma_octets(bytes, pieces, 6);
    assert(pieces.take(6) =~= pieces);
    assert(bytes.take(6) =~= bytes);
}

/// The first bytes in hexadecimal, one by one.
spec fn hex_pairs(bytes: Seq<u8>, count: nat) -> Seq<Seq<char>> {
    Seq::new(count, |i: int| hex_pair(bytes[i]))
}

/// The pieces between the colons of an address are its bytes in hexadecimal.
proof fn lemma_split_joined(bytes: Seq<u8>, count: nat)
    requires
        count > 0,
    ensures
        split(joined(bytes, count), ':') == hex_pairs(bytes, count),
    decreases count,
{
    let piece = hex_pair(bytes[count - 1]);
    lemma_hex_pair(bytes[count - 1]);
    if count == 1 {
        let empty = Seq::<char>::empty();
        lemma_split_piece(empty, piece);
        assert(empty + piece =~= piece);
        assert(split(empty, ':').drop_last() =~= Seq::empty());
        assert(split(piece, ':') =~= hex_pairs(bytes, 1));
    } else {
        let fewer = (count - 1) as nat;
        lemma_split_joined(bytes, fewer);
        lemma_split_next(joined(bytes, fewer), piece, hex_pairs(bytes, fewer));
        assert(hex_pairs(bytes, fewer).push(piece) =~= hex_pairs(bytes, count));
    }
}

/// A byte in hexadecimal is read as that byte, and holds no colon.
proof fn lemma_hex_pair(byte: u8)
    ensures
        octet_from(hex_pair(byte)) == Ok::<u8, CliErrorView>(byte),
        forall|i: int| 0 <= i < hex_pair(byte).len() ==> hex_pair(byte)[i] != ':',
{
    let high = byte as int / 16;
    let low = byte as int % 16;
    let pair = hex_pair(byte);
    lemma_utf8_len(pair);
    assert(hex_digit(digit_char(high)) == Some(high as nat));
    assert(hex_digit(digit_char(low)) == Some(low as nat));
    assert(hex_digit(':') is None);
}

/// Characters that are no separator belong to the last piece.
proof fn lemma_split_piece(text: Seq<char>, piece: Seq<char>)
    requires
        forall|i: int| 0 <= i < piece.len() ==> piece[i] != ':',
    ensures
        split(text, ':').len() > 0,
        split(text + piece, ':') == split(text, ':').drop_last().push(
            split(text, ':').last() + piece,
        ),
    decreases text.len() + piece.len(),
{
    let all = text + piece;
    if text.len() > 0 {
        lemma_split_piece(text.drop_last(), Seq::empty());
    }
    if piece.len() == 0 {
        assert(all =~= text);
        assert(split(text, ':').last() + piece =~= split(text, ':').last());
        assert(split(text, ':').drop_last().push(split(text, ':').last()) =~= split(text, ':'));
    } else {
        lemma_split_piece(text, piece.drop_last());
        assert(all.drop_last() =~= text + piece.drop_last());
        assert(all.last() == piece.last());
        let before = split(text, ':').drop_last();
        let last = split(text, ':').last();
        assert(before.push(last + piece.drop_last()).drop_last() =~= before);
        assert((last + piece.drop_last()).push(piece.last()) =~= last + piece);
    }
}

/// One more piece behind a separator.
proof fn lemma_split_next(text: Seq<char>, piece: Seq<char>, pieces: Seq<Seq<char>>)
    requires
        split(text, ':') == pieces,
        forall|i: int| 0 <= i < piece.len() ==> piece[i] != ':',
    ensures
        split(text + seq![':'] + piece, ':') == pieces.push(piece),
{
    let longer = text + seq![':'];
    assert(longer.drop_last() =~= text);
    assert(split(longer, ':') == pieces.push(Seq::empty()));
    lemma_split_piece(longer, piece);
    assert(pieces.push(Seq::empty()).drop_last() =~= pieces);
    assert(Seq::<char>::empty() + piece =~= piece);
}

/// Pieces that are bytes one by one are those bytes together.
proof fn lemma_octets(bytes: Seq<u8>, pieces: Seq<Seq<char>>, count: int)
    requires
        0 <= count <= pieces.len(),
        bytes.len() == pieces.len(),
        forall|i: int|
            0 <= i < pieces.len() ==> octet_from(#[trigger] pieces[i]) == Ok::<u8, CliErrorView>(
                bytes[i],
            ),
    ensures
        octets_from(pieces.take(count)) == Ok::<Seq<u8>, CliErrorView>(bytes.take(count)),
    decreases count,
{
    if count == 0 {
        assert(bytes.take(0) =~= Seq::empty());
    } else {
        lemma_octets(bytes, pieces, count - 1);
        assert(pieces.take(count).drop_last() =~= pieces.take(count - 1));
        assert(pieces.take(count).last() == pieces[count - 1]);
        assert(bytes.take(count) =~= bytes.take(count - 1).push(bytes[count - 1]));
    }
}

/// No two options are the same text.
proof fn lemma_options_differ()
    ensures
        "--tun"@ != "--tap"@,
        "--tun"@ != "--local-ip"@,
        "--tun"@ != "--peer-ip"@,
        "--tun"@ != "--local-port"@,
        "--tun"@ != "--peer-port"@,
        "--tun"@ != "--isn"@,
        "--tun"@ != "--local-mac"@,
        "--tun"@ != "--pcap"@,
        "--tun"@ != "--help"@,
        "--tun"@ != "-h"@,
        "--tap"@ != "--local-ip"@,
        "--tap"@ != "--peer-ip"@,
        "--tap"@ != "--local-port"@,
        "--tap"@ != "--peer-port"@,
        "--tap"@ != "--isn"@,
        "--tap"@ != "--local-mac"@,
        "--tap"@ != "--pcap"@,
        "--tap"@ != "--help"@,
        "--tap"@ != "-h"@,
        "--local-ip"@ != "--peer-ip"@,
        "--local-ip"@ != "--local-port"@,
        "--local-ip"@ != "--peer-port"@,
        "--local-ip"@ != "--isn"@,
        "--local-ip"@ != "--local-mac"@,
        "--local-ip"@ != "--pcap"@,
        "--local-ip"@ != "--help"@,
        "--local-ip"@ != "-h"@,
        "--peer-ip"@ != "--local-port"@,
        "--peer-ip"@ != "--peer-port"@,
        "--peer-ip"@ != "--isn"@,
        "--peer-ip"@ != "--local-mac"@,
        "--peer-ip"@ != "--pcap"@,
        "--peer-ip"@ != "--help"@,
        "--peer-ip"@ != "-h"@,
        "--local-port"@ != "--peer-port"@,
        "--local-port"@ != "--isn"@,
        "--local-port"@ != "--local-mac"@,
        "--local-port"@ != "--pcap"@,
        "--local-port"@ != "--help"@,
        "--local-port"@ != "-h"@,
        "--peer-port"@ != "--isn"@,
        "--peer-port"@ != "--local-mac"@,
        "--peer-port"@ != "--pcap"@,
        "--peer-port"@ != "--help"@,
        "--peer-port"@ != "-h"@,
        "--isn"@ != "--local-mac"@,
        "--isn"@ != "--pcap"@,
        "--isn"@ != "--help"@,
        "--isn"@ != "-h"@,
        "--local-mac"@ != "--pcap"@,
        "--local-mac"@ != "--help"@,
        "--local-mac"@ != "-h"@,
        "--pcap"@ != "--help"@,
        "--pcap"@ != "-h"@,
        "--help"@ != "-h"@,
{
    reveal_strlit("--tun");
    reveal_strlit("--tap");
    reveal_strlit("--local-ip");
    reveal_strlit("--peer-ip");
    reveal_strlit("--local-port");
    reveal_strlit("--peer-port");
    reveal_strlit("--isn");
    reveal_strlit("--local-mac");
    reveal_strlit("--pcap");
    reveal_strlit("--help");
    reveal_strlit("-h");
    assert("--tun"@[3] != "--tap"@[3]);
    assert("--tun"@.len() != "--local-ip"@.len());
    assert("--tun"@.len() != "--peer-ip"@.len());
    assert("--tun"@.len() != "--local-port"@.len());
    assert("--tun"@.len() != "--peer-port"@.len());
    assert("--tun"@[2] != "--isn"@[2]);
    assert("--tun"@.len() != "--local-mac"@.len());
    assert("--tun"@.len() != "--pcap"@.len());
    assert("--tun"@.len() != "--help"@.len());
    assert("--tun"@.len() != "-h"@.len());
    assert("--tap"@.len() != "--local-ip"@.len());
    assert("--tap"@.len() != "--peer-ip"@.len());
    assert("--tap"@.len() != "--local-port"@.len());
    assert("--tap"@.len() != "--peer-port"@.len());
    assert("--tap"@[2] != "--isn"@[2]);
    assert("--tap"@.len() != "--local-mac"@.len());
    assert("--tap"@.len() != "--pcap"@.len());
    assert("--tap"@.len() != "--help"@.len());
    assert("--tap"@.len() != "-h"@.len());
    assert("--local-ip"@.len() != "--peer-ip"@.len());
    assert("--local-ip"@.len() != "--local-port"@.len());
    assert("--local-ip"@.len() != "--peer-port"@.len());
    assert("--local-ip"@.len() != "--isn"@.len());
    assert("--local-ip"@.len() != "--local-mac"@.len());
    assert("--local-ip"@.len() != "--pcap"@.len());
    assert("--local-ip"@.len() != "--help"@.len());
    assert("--local-ip"@.len() != "-h"@.len());
    assert("--peer-ip"@.len() != "--local-port"@.len());
    assert("--peer-ip"@.len() != "--peer-port"@.len());
    assert("--peer-ip"@.len() != "--isn"@.len());
    assert("--peer-ip"@.len() != "--local-mac"@.len());
    assert("--peer-ip"@.len() != "--pcap"@.len());
    assert("--peer-ip"@.len() != "--help"@.len());
    assert("--peer-ip"@.len() != "-h"@.len());
    assert("--local-port"@.len() != "--peer-port"@.len());
    assert("--local-port"@.len() != "--isn"@.len());
    assert("--local-port"@.len() != "--local-mac"@.len());
    assert("--local-port"@.len() != "--pcap"@.len());
    assert("--local-port"@.len() != "--help"@.len());
    assert("--local-port"@.len() != "-h"@.len());
    assert("--peer-port"@.len() != "--isn"@.len());
    assert("--peer-port"@[2] != "--local-mac"@[2]);
    assert("--peer-port"@.len() != "--pcap"@.len());
    assert("--peer-port"@.len() != "--help"@.len());
    assert("--peer-port"@.len() != "-h"@.len());
    assert("--isn"@.len() != "--local-mac"@.len());
    assert("--isn"@.len() != "--pcap"@.len());
    assert("--isn"@.len() != "--help"@.len());
    assert("--isn"@.len() != "-h"@.len());
    assert("--local-mac"@.len() != "--pcap"@.len());
    assert("--local-mac"@.len() != "--help"@.len());
    assert("--local-mac"@.len() != "-h"@.len());
    assert("--pcap"@[2] != "--help"@[2]);
    assert("--pcap"@.len() != "-h"@.len());
    assert("--help"@.len() != "-h"@.len());
}

/// What each option does: it sets what it names to what its value is read as, and
/// nothing else, or fails as its value does; then the arguments behind it are
/// read. The last one of several counts so.
pub proof fn law_options_set_what_they_name(
    program: HostProgram,
    options: OptionsView,
    value: Seq<char>,
    rest: Seq<Seq<char>>,
)
    ensures
        program.read_args(options, seq!["--local-ip"@, value] + rest) == match ip_from(value) {
            Ok(local_ip) => program.read_args(OptionsView { local_ip, ..options }, rest),
            Err(error) => Err(error),
        },
        program.read_args(options, seq!["--peer-ip"@, value] + rest) == match ip_from(value) {
            Ok(peer_ip) => program.read_args(OptionsView { peer_ip, ..options }, rest),
            Err(error) => Err(error),
        },
        program.read_args(options, seq!["--local-port"@, value] + rest) == match port_from(value) {
            Ok(local_port) => program.read_args(OptionsView { local_port, ..options }, rest),
            Err(error) => Err(error),
        },
        program.read_args(options, seq!["--peer-port"@, value] + rest) == match port_from(value) {
            Ok(peer_port) => program.read_args(OptionsView { peer_port, ..options }, rest),
            Err(error) => Err(error),
        },
        program.read_args(options, seq!["--isn"@, value] + rest) == match isn_from(value) {
            Ok(isn) => program.read_args(OptionsView { isn, ..options }, rest),
            Err(error) => Err(error),
        },
        program == HostProgram::TapHost ==> program.read_args(
            options,
            seq!["--local-mac"@, value] + rest,
        ) == match mac_from(value) {
            Ok(local_mac) => program.read_args(OptionsView { local_mac, ..options }, rest),
            Err(error) => Err(error),
        },
        program == HostProgram::TapHost ==> program.read_args(
            options,
            seq!["--tap"@, value] + rest,
        ) == program.read_args(OptionsView { device_name: value, ..options }, rest),
        program != HostProgram::TapHost ==> program.read_args(
            options,
            seq!["--tun"@, value] + rest,
        ) == program.read_args(OptionsView { device_name: value, ..options }, rest),
        program != HostProgram::TcpIpv4 ==> program.read_args(
            options,
            seq!["--pcap"@, value] + rest,
        ) == program.read_args(OptionsView { pcap_path: Some(value), ..options }, rest),
{
    lemma_options_differ();
    lemma_option_read(program, options, "--tun"@, value, rest);
    lemma_option_read(program, options, "--tap"@, value, rest);
    lemma_option_read(program, options, "--local-ip"@, value, rest);
    lemma_option_read(program, options, "--peer-ip"@, value, rest);
    lemma_option_read(program, options, "--local-port"@, value, rest);
    lemma_option_read(program, options, "--peer-port"@, value, rest);
    lemma_option_read(program, options, "--isn"@, value, rest);
    lemma_option_read(program, options, "--local-mac"@, value, rest);
    lemma_option_read(program, options, "--pcap"@, value, rest);
}

proof fn lemma_option_read(
    program: HostProgram,
    options: OptionsView,
    option: Seq<char>,
    value: Seq<char>,
    rest: Seq<Seq<char>>,
)
    requires
        option != "--help"@,
        option != "-h"@,
    ensures
        program.knows(option) ==> program.read_args(options, seq![option, value] + rest)
            == match program.with_option(options, option, value) {
            Ok(more) => program.read_args(more, rest),
            Err(error) => Err(error),
        },
{
    let args = seq![option, value] + rest;
    assert(args.skip(2) =~= rest);
    assert(args[0] == option && args[1] == value);
}

/// What arguments come to otherwise. Without any, the program runs as it is told so
/// far, unless both ends have the same address or the same port. A call for help is
/// heeded wherever it stands in place of an option. An option needs a value, and a
/// text that is no option of the program is refused.
pub proof fn law_what_arguments_come_to(
    program: HostProgram,
    options: OptionsView,
    option: Seq<char>,
    rest: Seq<Seq<char>>,
)
    ensures
        options.local_ip == options.peer_ip ==> program.read_args(options, Seq::empty()) == Err::<
            ParsedView,
            CliErrorView,
        >(CliErrorView::SameAddress),
        options.local_ip != options.peer_ip && options.local_port == options.peer_port
            ==> program.read_args(options, Seq::empty()) == Err::<ParsedView, CliErrorView>(
            CliErrorView::SamePort,
        ),
        options.local_ip != options.peer_ip && options.local_port != options.peer_port
            ==> program.read_args(options, Seq::empty()) == Ok::<ParsedView, CliErrorView>(
            ParsedView::Run(options),
        ),
        program.read_args(options, seq!["--help"@] + rest) == Ok::<ParsedView, CliErrorView>(
            ParsedView::Help,
        ),
        program.read_args(options, seq!["-h"@] + rest) == Ok::<ParsedView, CliErrorView>(
            ParsedView::Help,
        ),
        ({
            let known = {
                ||| option == "--local-ip"@
                ||| option == "--peer-ip"@
                ||| option == "--local-port"@
                ||| option == "--peer-port"@
                ||| option == "--isn"@
                ||| option == "--tun"@ && program != HostProgram::TapHost
                ||| option == "--tap"@ && program == HostProgram::TapHost
                ||| option == "--local-mac"@ && program == HostProgram::TapHost
                ||| option == "--pcap"@ && program != HostProgram::TcpIpv4
            };
            &&& known ==> program.read_args(options, seq![option]) == Err::<
                ParsedView,
                CliErrorView,
            >(CliErrorView::MissingValue(option))
            &&& !known && option != "--help"@ && option != "-h"@ ==> program.read_args(
                options,
                seq![option] + rest,
            ) == Err::<ParsedView, CliErrorView>(CliErrorView::UnknownArgument(option))
        }),
{
    lemma_options_differ();
    assert((seq!["--help"@] + rest)[0] == "--help"@);
    assert((seq!["-h"@] + rest)[0] == "-h"@);
    assert((seq![option] + rest)[0] == option);
    assert(seq![option][0] == option);
}

/// What a program does without arguments.
pub proof fn law_defaults(program: HostProgram)
    ensures
        ({
            let options = program.defaults();
            &&& options.device_name == if program == HostProgram::TapHost {
                "tap144"@
            } else {
                "tun144"@
            }
            &&& options.local_mac == seq![2u8, 0, 0, 0, 0, 2]
            &&& options.local_ip@ == seq![169u8, 254, 144, 2]
            &&& options.peer_ip@ == seq![169u8, 254, 144, 1]
            &&& options.local_port == 50000
            &&& options.peer_port == 9090
            &&& options.isn.0 == 1000000
            &&& options.pcap_path is None
        }),
{
    assert(program.defaults().local_ip@ =~= seq![169u8, 254, 144, 2]);
    assert(program.defaults().peer_ip@ =~= seq![169u8, 254, 144, 1]);
}

/// The arguments of a program are those behind its own name, in order.
pub proof fn law_own_name_is_passed_over(args: Seq<String>, i: int)
    requires
        0 <= i < args.len() - 1,
    ensures
        arguments(args).len() == args.len() - 1,
        arguments(args)[i] == args[i + 1]@,
{
}

/// A port is any number from 1 to 65535, and a sequence number any of 32 bits, read
/// as numbers are; why another text is none is told.
pub proof fn law_ports_and_sequence_numbers(text: Seq<char>)
    ensures
        match read_number(text, 65535) {
            Ok(number) => if number == 0 {
                port_from(text) == Err::<u16, CliErrorView>(CliErrorView::ZeroPort)
            } else {
                port_from(text) is Ok && port_from(text)->Ok_0 == number
            },
            Err(error) => port_from(text) == Err::<u16, CliErrorView>(
                CliErrorView::InvalidNumber(error),
            ),
        },
        match read_number(text, 4294967295) {
            Ok(number) => isn_from(text) is Ok && isn_from(text)->Ok_0.0 == number,
            Err(error) => isn_from(text) == Err::<Wrap32, CliErrorView>(
                CliErrorView::InvalidNumber(error),
            ),
        },
{
    crate::text::law_number_is_bounded(text, 65535);
    crate::text::law_number_is_bounded(text, 4294967295);
}

/// Every sequence number is read as it is written.
pub proof fn law_isn_round_trip(isn: Wrap32)
    ensures
        isn_from(decimal(isn.0 as nat)) == Ok::<Wrap32, CliErrorView>(isn),
{
    crate::text::law_number_round_trip(isn.0 as nat, 4294967295);
}

/// A text is an address exactly if it is what some address is written as.
pub proof fn law_only_written_addresses_are_read(text: Seq<char>, ip: [u8; 4])
    ensures
        ip_from(text) == Ok::<[u8; 4], CliErrorView>(ip) <==> text == ip_text(ip@),
        ip_from(text) is Ok || ip_from(text) == Err::<[u8; 4], CliErrorView>(
            CliErrorView::InvalidIpv4,
        ),
{
    let chosen = choose|other: [u8; 4]| text == #[trigger] ip_text(other@);
    if text == ip_text(ip@) {
        law_addresses_have_their_own_text(chosen, ip);
    }
}

/// Pieces, with a separator between them.
pub open spec fn joined_with(pieces: Seq<Seq<char>>, separator: char) -> Seq<char>
    decreases pieces.len(),
{
    if pieces.len() == 0 {
        Seq::empty()
    } else if pieces.len() == 1 {
        pieces[0]
    } else {
        joined_with(pieces.drop_last(), separator).push(separator) + pieces.last()
    }
}

/// The pieces of a text hold no separator, and with one between them are the text.
pub proof fn law_pieces_make_up_the_text(text: Seq<char>, separator: char)
    ensures
        split(text, separator).len() > 0,
        joined_with(split(text, separator), separator) == text,
        forall|i: int|
            0 <= i < split(text, separator).len() ==> !(#[trigger] split(
                text,
                separator,
            )[i]).contains(separator),
    decreases text.len(),
{
    let pieces = split(text, separator);
    if text.len() == 0 {
        assert(pieces[0] =~= text);
    } else {
        let shorter = text.drop_last();
        let before = split(shorter, separator);
        law_pieces_make_up_the_text(shorter, separator);
        assert(text =~= shorter.push(text.last()));
        if text.last() == separator {
            assert(pieces.drop_last() =~= before);
            assert(joined_with(pieces, separator) =~= text);
            assert forall|i: int| 0 <= i < pieces.len() implies !(#[trigger] pieces[i]).contains(
                separator,
            ) by {
                if i < before.len() {
                    assert(pieces[i] == before[i]);
                }
            }
        } else {
            let grown = before.last().push(text.last());
            assert(pieces.drop_last() =~= before.drop_last());
            assert(pieces.last() == grown);
            if before.len() == 1 {
                assert(joined_with(pieces, separator) =~= text);
            } else {
                assert(joined_with(pieces, separator) =~= joined_with(before, separator).push(
                    text.last(),
                ));
            }
            assert forall|i: int| 0 <= i < pieces.len() implies !(#[trigger] pieces[i]).contains(
                separator,
            ) by {
                if i < before.len() - 1 {
                    assert(pieces[i] == before[i]);
                } else {
                    assert(!before.last().contains(separator));
                    if grown.contains(separator) {
                        let k = grown.index_of(separator);
                        assert(grown[k] == separator);
                        assert(before.last()[k] == separator);
                    }
                }
            }
        }
    }
}

/// Which texts are Ethernet addresses: six pieces with colons between them, of two
/// hexadecimal digits each, the higher one first, or of one behind a plus sign. The
/// first piece that is none tells why.
pub proof fn law_which_texts_are_ethernet_addresses(text: Seq<char>, i: int)
    requires
        0 <= i < 6,
    ensures
        ({
            let pieces = split(text, ':');
            let read = mac_from(text);
            &&& pieces.len() != 6 <==> read == Err::<Seq<u8>, CliErrorView>(CliErrorView::MacShape)
            &&& read matches Ok(bytes) ==> bytes.len() == 6 && octet_from(pieces[i]) == Ok::<
                u8,
                CliErrorView,
            >(bytes[i])
            &&& pieces.len() == 6 && octet_from(pieces[i]) is Err && (forall|j: int|
                0 <= j < i ==> octet_from(#[trigger] pieces[j]) is Ok) ==> read is Err
                && octet_from(pieces[i])->Err_0 == read->Err_0
        }),
{
    let pieces = split(text, ':');
    if pieces.len() == 6 {
        lemma_octets_read(pieces, i);
    }
}

proof fn lemma_octets_read(pieces: Seq<Seq<char>>, i: int)
    requires
        0 <= i < pieces.len(),
    ensures
        octets_from(pieces) matches Ok(bytes) ==> bytes.len() == pieces.len() && octet_from(
            pieces[i],
        ) == Ok::<u8, CliErrorView>(bytes[i]),
        octet_from(pieces[i]) is Err && (forall|j: int|
            0 <= j < i ==> octet_from(#[trigger] pieces[j]) is Ok) ==> octets_from(pieces) is Err
            && octet_from(pieces[i])->Err_0 == octets_from(pieces)->Err_0,
        octets_from(pieces) matches Err(error) ==> error != CliErrorView::MacShape,
    decreases pieces.len(),
{
    let before = pieces.drop_last();
    if i < before.len() {
        lemma_octets_read(before, i);
        assert(before[i] == pieces[i]);
        assert forall|j: int| 0 <= j < i implies before[j] == #[trigger] pieces[j] by {}
    } else {
        if before.len() > 0 {
            lemma_octets_read(before, before.len() - 1);
        }
        if forall|j: int| 0 <= j < i ==> octet_from(#[trigger] pieces[j]) is Ok {
            lemma_octets_are_read(before, pieces);
        }
    }
}

proof fn lemma_octets_are_read(pieces: Seq<Seq<char>>, all: Seq<Seq<char>>)
    requires
        pieces.len() <= all.len(),
        forall|j: int| 0 <= j < pieces.len() ==> pieces[j] == #[trigger] all[j],
        forall|j: int| 0 <= j < pieces.len() ==> octet_from(#[trigger] all[j]) is Ok,
    ensures
        octets_from(pieces) is Ok,
    decreases pieces.len(),
{
    if pieces.len() > 0 {
        lemma_octets_are_read(pieces.drop_last(), all);
        assert(octet_from(all[pieces.len() - 1]) is Ok);
    }
}

/// What a piece of an Ethernet address is read as.
pub proof fn law_what_a_piece_is(high: char, low: char, other: Seq<char>)
    ensures
        hex_digit(high) is Some && hex_digit(low) is Some ==> octet_from(seq![high, low]) is Ok
            && octet_from(seq![high, low])->Ok_0 == hex_digit(high)->Some_0 * 16 + hex_digit(
            low,
        )->Some_0,
        hex_digit(low) is Some ==> octet_from(seq!['+', low]) is Ok && octet_from(
            seq!['+', low],
        )->Ok_0 == hex_digit(low)->Some_0,
        encode_utf8(other).len() != 2 <==> octet_from(other) == Err::<u8, CliErrorView>(
            CliErrorView::MacOctetLength,
        ),
        encode_utf8(other).len() == 2 && (other.len() != 2 || hex_digit(other[1]) is None || (
        hex_digit(other[0]) is None && other[0] != '+')) ==> octet_from(other) == Err::<
            u8,
            CliErrorView,
        >(CliErrorView::InvalidNumber(NumberError::InvalidDigit)),
{
    if hex_digit(high) is Some && hex_digit(low) is Some {
        lemma_utf8_len(seq![high, low]);
    }
    if hex_digit(low) is Some {
        lemma_utf8_len(seq!['+', low]);
        assert(hex_digit('+') is None);
    }
}

/// What the user is told of a refusal.
pub proof fn law_what_is_told_of_refusals(text: Seq<char>, error: NumberError)
    ensures
        CliErrorView::MissingValue(text).text() == "missing value for "@ + text,
        CliErrorView::UnknownArgument(text).text() == "unknown argument: "@ + text,
        CliErrorView::InvalidIpv4.text() == "invalid IPv4 address syntax"@,
        CliErrorView::InvalidNumber(error).text() == error.text(),
        CliErrorView::ZeroPort.text() == "TCP port cannot be zero"@,
        CliErrorView::MacShape.text() == "MAC address must have six colon-separated octets"@,
        CliErrorView::MacOctetLength.text() == "MAC address octets must be two hex digits"@,
        CliErrorView::SameAddress.text() == "local IP and peer IP must be different"@,
        CliErrorView::SamePort.text() == "local port and peer port should be different"@,
{
}

/// What is printed of a segment, whatever it holds, and of which way it goes.
pub proof fn law_what_is_printed_of_segments(segment: TcpSegmentView)
    ensures
        ({
            let header = segment.header;
            let said = |arrow: Seq<char>|
                arrow + " TCP "@ + decimal(header.src_port as nat) + " -> "@ + decimal(
                header.dst_port as nat,
            ) + " seq="@ + decimal(header.seqno.0 as nat) + " ack="@ + (match header.ackno {
                Some(ackno) => "Some("@ + decimal(ackno.0 as nat) + ")"@,
                None => "None"@,
            }) + " SYN="@ + (if header.syn {
                "true"@
            } else {
                "false"@
            }) + " FIN="@ + (if header.fin {
                "true"@
            } else {
                "false"@
            }) + " RST="@ + (if header.rst {
                "true"@
            } else {
                "false"@
            }) + " win="@ + decimal(header.window_size as nat) + " payload="@ + decimal(
                segment.payload.len(),
            );
            &&& event_text(EventView::IncomingTcp(segment)) == Some(said("<<"@))
            &&& event_text(EventView::OutgoingTcp(segment)) == Some(said(">>"@))
            &&& event_text(EventView::TcpPayload(segment.payload)) is None
        }),
{
}

/// What is printed of pings and of packets that are none.
pub proof fn law_what_is_printed_of_others(
    src_ip: [u8; 4],
    dst_ip: [u8; 4],
    identifier: u16,
    sequence_number: u16,
    payload_len: nat,
    reason: Seq<char>,
)
    ensures
        ({
            let said = |what: Seq<char>|
                what + ip_text(src_ip@) + " -> "@ + ip_text(dst_ip@) + " id="@ + decimal(
                identifier as nat,
            ) + " seq="@ + decimal(sequence_number as nat) + " payload="@ + decimal(payload_len);
            &&& event_text(
                EventView::EchoRequest { src_ip, dst_ip, identifier, sequence_number, payload_len },
            ) == Some(said("<< ICMP echo request "@))
            &&& event_text(
                EventView::EchoReply { src_ip, dst_ip, identifier, sequence_number, payload_len },
            ) == Some(said(">> ICMP echo reply "@))
            &&& event_text(EventView::MalformedIpv4(reason)) == Some(
                "ignored malformed IPv4 packet: "@ + reason,
            )
            &&& event_text(EventView::MalformedTcp(reason)) == Some(
                "ignored malformed TCP segment: "@ + reason,
            )
            &&& event_text(EventView::MalformedEcho(reason)) == Some(
                "ignored malformed ICMP message: "@ + reason,
            )
        }),
{
}

} // verus!
