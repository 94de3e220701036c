use autoadb::byte_buffer::ByteBuffer;

#[test]
fn new_buffer_is_empty() {
    let mut buffer = ByteBuffer::new();
    assert_eq!(buffer.len(), 0);
    assert!(buffer.is_empty());
    assert_eq!(buffer.try_take_exact(1), None);
    assert_eq!(buffer.try_take_exact(0), Some(vec![]));
}

#[test]
fn take_exact_returns_the_front() {
    let mut buffer = ByteBuffer::new();
    buffer.append(b"hello world");
    assert_eq!(buffer.len(), 11);
    assert_eq!(buffer.try_take_exact(5), Some(b"hello".to_vec()));
    assert_eq!(buffer.len(), 6);
    assert_eq!(buffer.try_take_exact(6), Some(b" world".to_vec()));
    assert!(buffer.is_empty());
}

#[test]
fn take_exact_with_too_few_bytes_changes_nothing() {
    let mut buffer = ByteBuffer::new();
    buffer.append(b"abc");
    assert_eq!(buffer.try_take_exact(4), None);
    assert_eq!(buffer.len(), 3);
    assert_eq!(buffer.try_take_exact(usize::MAX), None);
    assert_eq!(buffer.len(), 3);
    buffer.append(b"d");
    assert_eq!(buffer.try_take_exact(4), Some(b"abcd".to_vec()));
}

#[test]
fn take_until_stops_before_the_delimiter_and_skips_it() {
    let mut buffer = ByteBuffer::new();
    buffer.append(b"first\nsecond\nrest");
    assert_eq!(buffer.try_take_until(b"\n"), Some(b"first".to_vec()));
    assert_eq!(buffer.try_take_until(b"\n"), Some(b"second".to_vec()));
    assert_eq!(buffer.try_take_until(b"\n"), None);
    assert_eq!(buffer.len(), 4);
    assert_eq!(buffer.try_take_exact(4), Some(b"rest".to_vec()));
}

#[test]
fn take_until_finds_the_first_occurrence() {
    let mut buffer = ByteBuffer::new();
    buffer.append(b"a--b--c");
    assert_eq!(buffer.try_take_until(b"--"), Some(b"a".to_vec()));
    assert_eq!(buffer.try_take_until(b"--"), Some(b"b".to_vec()));
    assert_eq!(buffer.try_take_until(b"--"), None);
    assert_eq!(buffer.try_take_exact(1), Some(b"c".to_vec()));
}

#[test]
fn take_until_at_the_front_gives_an_empty_span() {
    let mut buffer = ByteBuffer::new();
    buffer.append(b"\r\nx");
    assert_eq!(buffer.try_take_until(b"\r\n"), Some(vec![]));
    assert_eq!(buffer.len(), 1);
}

#[test]
fn take_until_waits_for_the_whole_delimiter() {
    let mut buffer = ByteBuffer::new();
    buffer.append(b"line\r");
    assert_eq!(buffer.try_take_until(b"\r\n"), None);
    assert_eq!(buffer.len(), 5);
    buffer.append(b"\nnext");
    assert_eq!(buffer.try_take_until(b"\r\n"), Some(b"line".to_vec()));
    assert_eq!(buffer.len(), 4);
}

#[test]
fn take_until_overlapping_candidates() {
    let mut buffer = ByteBuffer::new();
    buffer.append(b"aaab!");
    assert_eq!(buffer.try_take_until(b"aab"), Some(b"a".to_vec()));
    assert_eq!(buffer.try_take_exact(1), Some(b"!".to_vec()));
}

#[test]
fn take_until_empty_delimiter_takes_nothing() {
    let mut buffer = ByteBuffer::new();
    assert_eq!(buffer.try_take_until(b""), Some(vec![]));
    buffer.append(b"xy");
    assert_eq!(buffer.try_take_until(b""), Some(vec![]));
    assert_eq!(buffer.len(), 2);
}

#[test]
fn take_until_delimiter_longer_than_buffer() {
    let mut buffer = ByteBuffer::new();
    buffer.append(b"ab");
    assert_eq!(buffer.try_take_until(b"abc"), None);
    assert_eq!(buffer.len(), 2);
}

#[test]
fn compact_keeps_the_unconsumed_bytes() {
    let mut buffer = ByteBuffer::new();
    buffer.append(b"0123456789");
    assert_eq!(buffer.try_take_exact(4), Some(b"0123".to_vec()));
    buffer.compact();
    assert_eq!(buffer.len(), 6);
    buffer.compact();
    buffer.append(b"ab");
    assert_eq!(buffer.try_take_exact(8), Some(b"456789ab".to_vec()));
    buffer.compact();
    assert!(buffer.is_empty());
}

#[test]
fn bytes_appended_one_at_a_time_can_be_taken_together() {
    let data = b"0004busy and some more";
    let mut buffer = ByteBuffer::new();
    for (count, byte) in data.iter().enumerate() {
        assert_eq!(buffer.try_take_exact(data.len()), None);
        assert_eq!(buffer.len(), count);
        buffer.append(&[*byte]);
    }
    assert_eq!(buffer.try_take_exact(data.len()), Some(data.to_vec()));
    assert!(buffer.is_empty());
}

#[test]
fn take_exact_succeeds_as_soon_as_enough_bytes_arrived() {
    let data = b"abcdefgh";
    let n = 5;
    let mut buffer = ByteBuffer::new();
    let mut taken = None;
    let mut appended = 0;
    for byte in data.iter() {
        buffer.append(&[*byte]);
        appended += 1;
        if taken.is_none() {
            taken = buffer.try_take_exact(n);
            if appended < n {
                assert_eq!(taken, None);
            } else {
                assert_eq!(taken, Some(b"abcde".to_vec()));
            }
        }
    }
    assert_eq!(buffer.try_take_exact(3), Some(b"fgh".to_vec()));
}

#[test]
fn chunking_does_not_change_what_is_read() {
    let data: Vec<u8> = (0u8..200).collect();
    for chunk in [1usize, 2, 3, 7, 64, 200] {
        let mut buffer = ByteBuffer::new();
        for piece in data.chunks(chunk) {
            buffer.append(piece);
        }
        assert_eq!(buffer.try_take_exact(150), Some(data[..150].to_vec()));
        assert_eq!(buffer.try_take_exact(50), Some(data[150..].to_vec()));
    }
}
