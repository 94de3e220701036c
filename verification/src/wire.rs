//! Framing of the host protocol: length fields, request frames and status
//! words.
//!
//! A frame is a length field of four hexadecimal ASCII digits followed by as
//! many payload bytes as the field says. The server answers a request with a
//! status word of four bytes.

use vstd::prelude::*;
use vstd::string::is_ascii_spec_bytes;

verus! {

/// Width of a length field and of a status word, in bytes.
pub const FIELD_WIDTH: usize = 4;

/// Largest payload length that a length field can express.
pub const MAX_PAYLOAD: usize = 0xFFFF;

/// The bytes of a text of ASCII characters.
pub open spec fn ascii(text: Seq<char>) -> Seq<u8> {
    Seq::new(text.len(), |i: int| text[i] as u8)
}

/// Value of a hexadecimal ASCII digit, in either case.
pub open spec fn hex_digit_value(digit: u8) -> Option<int> {
    if '0' as u8 <= digit <= '9' as u8 {
        Some(digit - '0' as u8)
    } else if 'a' as u8 <= digit <= 'f' as u8 {
        Some(digit - 'a' as u8 + 10)
    } else if 'A' as u8 <= digit <= 'F' as u8 {
        Some(digit - 'A' as u8 + 10)
    } else {
        None
    }
}

/// The length that a field states: the number that its four hexadecimal
/// digits spell, most significant digit first. A field of another width, or
/// with a byte that is no hexadecimal digit, states none.
pub open spec fn field_length(field: Seq<u8>) -> Option<int> {
    if field.len() == 4 && hex_digit_value(field[0]) is Some && hex_digit_value(field[1]) is Some
        && hex_digit_value(field[2]) is Some && hex_digit_value(field[3]) is Some {
        Some(
            hex_digit_value(field[0])->0 * 0x1000 + hex_digit_value(field[1])->0 * 0x100
                + hex_digit_value(field[2])->0 * 0x10 + hex_digit_value(field[3])->0,
        )
    } else {
        None
    }
}

/// The lower-case hexadecimal digit for a value below sixteen.
pub open spec fn hex_digit(value: int) -> u8 {
    if value < 10 {
        ('0' as u8 + value) as u8
    } else {
        ('a' as u8 + value - 10) as u8
    }
}

/// The field that states `length`, in lower-case digits.
pub open spec fn length_field(length: int) -> Seq<u8> {
    seq![
        hex_digit(length / 0x1000),
        hex_digit(length / 0x100 % 0x10),
        hex_digit(length / 0x10 % 0x10),
        hex_digit(length % 0x10),
    ]
}

/// A frame: the field that states the payload's length, then the payload.
pub open spec fn frame(payload: Seq<u8>) -> Seq<u8> {
    length_field(payload.len() as int) + payload
}

/// The payload of the request that subscribes to the list of all devices.
pub open spec fn track_devices_payload() -> Seq<u8> {
    ascii("host:track-devices"@)
}

/// Outcome of a request, as the server's status word states it.
#[derive(Clone, Copy, Debug, PartialEq, Eq, Structural)]
pub enum Status {
    /// The request was accepted.
    Okay,
    /// The request was refused; a frame with the reason follows.
    Fail,
}

/// The status that a word states, if it is one of the two status words.
pub open spec fn word_status(word: Seq<u8>) -> Option<Status> {
    if word == ascii("OKAY"@) {
        Some(Status::Okay)
    } else if word == ascii("FAIL"@) {
        Some(Status::Fail)
    } else {
        None
    }
}

fn digit_value(digit: u8) -> (value: Option<u16>)
    ensures
        value is Some <==> hex_digit_value(digit) is Some,
        value matches Some(v) ==> v == hex_digit_value(digit)->0 && v < 16,
{
    if '0' as u8 <= digit && digit <= '9' as u8 {
        Some((digit - '0' as u8) as u16)
    } else if 'a' as u8 <= digit && digit <= 'f' as u8 {
        Some((digit - 'a' as u8 + 10) as u16)
    } else if 'A' as u8 <= digit && digit <= 'F' as u8 {
        Some((digit - 'A' as u8 + 10) as u16)
    } else {
        None
    }
}

/// Reads a length field.
pub fn parse_length(field: &[u8]) -> (length: Option<u16>)
    ensures
        length is Some <==> field_length(field@) is Some,
        length matches Some(l) ==> l == field_length(field@)->0,
{
    if field.len() != FIELD_WIDTH {
        return None;
    }
    match (digit_value(field[0]), digit_value(field[1]), digit_value(field[2]), digit_value(field[3])) {
        (Some(d0), Some(d1), Some(d2), Some(d3)) => Some(d0 * 0x1000 + d1 * 0x100 + d2 * 0x10 + d3),
        _ => None,
    }
}

fn digit_of(value: u16) -> (digit: u8)
    requires
        value < 16,
    ensures
        digit == hex_digit(value as int),
{
    if value < 10 {
        '0' as u8 + value as u8
    } else {
        'a' as u8 + (value as u8 - 10)
    }
}

/// Writes the length field for `length`.
pub fn encode_length(length: u16) -> (field: Vec<u8>)
    ensures
        field@ == length_field(length as int),
{
    let mut field: Vec<u8> = Vec::new();
    field.push(digit_of(length / 0x1000));
    field.push(digit_of(length / 0x100 % 0x10));
    field.push(digit_of(length / 0x10 % 0x10));
    field.push(digit_of(length % 0x10));
    assert(field@ =~= length_field(length as int));
    field
}

/// A length field reads back as the length it was written for.
pub proof fn lemma_length_field_round_trip(length: int)
    requires
        0 <= length <= 0xFFFF,
    ensures
        length_field(length).len() == 4,
        field_length(length_field(length)) == Some(length),
{
    let d0 = length / 0x1000;
    let d1 = length / 0x100 % 0x10;
    let d2 = length / 0x10 % 0x10;
    let d3 = length % 0x10;
    assert(0 <= d0 < 16 && 0 <= d1 < 16 && 0 <= d2 < 16 && 0 <= d3 < 16);
    assert(d0 * 0x1000 + d1 * 0x100 + d2 * 0x10 + d3 == length);
    lemma_hex_digit_round_trip(d0);
    lemma_hex_digit_round_trip(d1);
    lemma_hex_digit_round_trip(d2);
    lemma_hex_digit_round_trip(d3);
    let field = length_field(length);
    assert(field[0] == hex_digit(d0) && field[1] == hex_digit(d1) && field[2] == hex_digit(d2)
        && field[3] == hex_digit(d3));
}

proof fn lemma_hex_digit_round_trip(value: int)
    requires
        0 <= value < 16,
    ensures
        hex_digit_value(hex_digit(value)) == Some(value),
{
}

/// Frames `payload` for sending, if its length fits a length field.
pub fn encode_frame(payload: &[u8]) -> (framed: Option<Vec<u8>>)
    ensures
        framed is Some <==> payload@.len() <= 0xFFFF,
        framed matches Some(bytes) ==> bytes@ == frame(payload@),
{
    if payload.len() > MAX_PAYLOAD {
        return None;
    }
    let mut bytes = encode_length(payload.len() as u16);
    bytes.extend_from_slice(payload);
    assert(bytes@ =~= frame(payload@));
    Some(bytes)
}

/// The request frame that subscribes to the list of all devices.
pub fn track_devices_request() -> (request: Vec<u8>)
    ensures
        request@ == frame(track_devices_payload()),
{
    let text = "host:track-devices";
    proof {
        reveal_strlit("host:track-devices");
        is_ascii_spec_bytes(text);
    }
    let payload = text.as_bytes();
    assert(payload@ =~= track_devices_payload());
    let mut request = encode_length(payload.len() as u16);
    request.extend_from_slice(payload);
    assert(request@ =~= frame(track_devices_payload()));
    request
}

/// Reads a status word.
pub fn parse_status(word: &[u8]) -> (status: Option<Status>)
    ensures
        status == word_status(word@),
{
    proof {
        reveal_strlit("OKAY");
        reveal_strlit("FAIL");
    }
    if word.len() != FIELD_WIDTH {
        return None;
    }
    if word[0] == 'O' as u8 && word[1] == 'K' as u8 && word[2] == 'A' as u8 && word[3] == 'Y' as u8 {
        assert(word@ =~= ascii("OKAY"@));
        Some(Status::Okay)
    } else if word[0] == 'F' as u8 && word[1] == 'A' as u8 && word[2] == 'I' as u8 && word[3]
        == 'L' as u8 {
        assert(word@ =~= ascii("FAIL"@));
        Some(Status::Fail)
    } else {
        None
    }
}

} // verus!
