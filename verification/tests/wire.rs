use autoadb::wire::{
    encode_frame, encode_length, parse_length, parse_status, track_devices_request, Status,
};

#[test]
fn parse_length_reads_four_hex_digits() {
    assert_eq!(parse_length(b"0000"), Some(0));
    assert_eq!(parse_length(b"0012"), Some(18));
    assert_eq!(parse_length(b"00ff"), Some(255));
    assert_eq!(parse_length(b"00FF"), Some(255));
    assert_eq!(parse_length(b"aBcD"), Some(0xABCD));
    assert_eq!(parse_length(b"ffff"), Some(0xFFFF));
    assert_eq!(parse_length(b"FFFF"), Some(0xFFFF));
    assert_eq!(parse_length(b"1000"), Some(4096));
}

#[test]
fn parse_length_rejects_what_is_no_field() {
    assert_eq!(parse_length(b""), None);
    assert_eq!(parse_length(b"012"), None);
    assert_eq!(parse_length(b"00012"), None);
    assert_eq!(parse_length(b"00g0"), None);
    assert_eq!(parse_length(b"0x10"), None);
    assert_eq!(parse_length(b" 012"), None);
    assert_eq!(parse_length(b"-001"), None);
    assert_eq!(parse_length(b"00/0"), None);
    assert_eq!(parse_length(b"00:0"), None);
    assert_eq!(parse_length(b"00@0"), None);
    assert_eq!(parse_length(b"00G0"), None);
    assert_eq!(parse_length(b"00`0"), None);
    assert_eq!(parse_length(&[0x30, 0x30, 0xC3, 0xA9]), None);
}

#[test]
fn encode_length_writes_lower_case_digits() {
    assert_eq!(encode_length(0), b"0000".to_vec());
    assert_eq!(encode_length(18), b"0012".to_vec());
    assert_eq!(encode_length(0xABCD), b"abcd".to_vec());
    assert_eq!(encode_length(0xFFFF), b"ffff".to_vec());
    assert_eq!(encode_length(9), b"0009".to_vec());
    assert_eq!(encode_length(10), b"000a".to_vec());
}

#[test]
fn every_length_reads_back() {
    for length in 0..=u16::MAX {
        let field = encode_length(length);
        assert_eq!(field.len(), 4);
        assert_eq!(parse_length(&field), Some(length));
        assert_eq!(parse_length(&field.to_ascii_uppercase()), Some(length));
    }
}

#[test]
fn encode_frame_prefixes_the_length() {
    assert_eq!(encode_frame(b""), Some(b"0000".to_vec()));
    assert_eq!(encode_frame(b"busy"), Some(b"0004busy".to_vec()));
    assert_eq!(encode_frame(b"host:version"), Some(b"000chost:version".to_vec()));
}

#[test]
fn encode_frame_refuses_a_payload_that_is_too_long() {
    let longest = vec![b'x'; 0xFFFF];
    let framed = encode_frame(&longest).unwrap();
    assert_eq!(&framed[..4], b"ffff");
    assert_eq!(framed.len(), 0xFFFF + 4);
    let too_long = vec![b'x'; 0x10000];
    assert_eq!(encode_frame(&too_long), None);
}

#[test]
fn track_devices_request_is_the_framed_subscription() {
    assert_eq!(track_devices_request(), b"0012host:track-devices".to_vec());
    assert_eq!(Some(track_devices_request()), encode_frame(b"host:track-devices"));
}

#[test]
fn parse_status_knows_two_words() {
    assert_eq!(parse_status(b"OKAY"), Some(Status::Okay));
    assert_eq!(parse_status(b"FAIL"), Some(Status::Fail));
    assert_eq!(parse_status(b"okay"), None);
    assert_eq!(parse_status(b"fail"), None);
    assert_eq!(parse_status(b"OKAZ"), None);
    assert_eq!(parse_status(b"FAIK"), None);
    assert_eq!(parse_status(b"OKA"), None);
    assert_eq!(parse_status(b"OKAYY"), None);
    assert_eq!(parse_status(b""), None);
    assert_eq!(parse_status(b"0000"), None);
}
