use hybrid_arraydeque::ArrayDeque;

#[test]
fn read_consumes_front_slice() {
    let mut deque = ArrayDeque::<u8, 8>::new();
    for byte in b"hello" {
        assert!(deque.push_back(*byte).is_none());
    }

    let mut buf = [0u8; 3];
    let read = deque.read(&mut buf);
    assert_eq!(read, 3);
    assert_eq!(&buf[..read], b"hel");
    assert_eq!(deque.into_vec(), b"lo".to_vec());
}

#[test]
fn read_exact_handles_wrapped_storage() {
    let mut deque = ArrayDeque::<u8, 4>::new();
    for byte in b"abcd" {
        assert!(deque.push_back(*byte).is_none());
    }
    assert_eq!(deque.pop_front(), Some(b'a'));
    assert!(deque.push_back(b'e').is_none());

    let mut buf = [0u8; 3];
    assert!(deque.read_exact(&mut buf));
    assert_eq!(&buf, b"bcd");
    assert_eq!(deque.into_vec(), vec![b'e']);
}

#[test]
fn read_exact_reports_eof() {
    let mut deque = ArrayDeque::<u8, 4>::new();
    assert!(deque.push_back(b'x').is_none());

    let mut buf = [0u8; 2];
    assert!(!deque.read_exact(&mut buf));
    // The buffered byte stays in the deque.
    assert_eq!(deque.len(), 1);
    assert_eq!(deque.pop_front(), Some(b'x'));
}

#[test]
fn read_to_end_and_string_clear_buffer() {
    let mut deque = ArrayDeque::<u8, 6>::new();
    for byte in b"abc" {
        assert!(deque.push_back(*byte).is_none());
    }
    let mut buf = Vec::new();
    deque.read_to_end(&mut buf);
    assert_eq!(buf, b"abc");
    assert!(deque.is_empty());

    for byte in b"de" {
        assert!(deque.push_back(*byte).is_none());
    }
    let mut string = String::new();
    assert_eq!(deque.read_to_string(&mut string), Some(2));
    assert_eq!(string, "de");
    assert!(deque.is_empty());

    deque.clear();
    deque.push_back(0xFF);
    let mut invalid = String::new();
    assert_eq!(deque.read_to_string(&mut invalid), None);
}

#[test]
fn bufread_fill_and_consume() {
    let mut deque = ArrayDeque::<u8, 4>::new();
    for byte in b"abcd" {
        assert!(deque.push_back(*byte).is_none());
    }
    let buf = deque.fill_buf();
    assert_eq!(buf, b"abcd");
    deque.consume(3);
    assert_eq!(deque.into_vec(), vec![b'd']);
}

#[test]
fn write_variants_respect_capacity() {
    let mut deque = ArrayDeque::<u8, 4>::new();
    let written = deque.write(b"abcdef");
    assert_eq!(written, 4);
    assert_eq!(deque.len(), 4);

    let mut deque = ArrayDeque::<u8, 8>::new();
    let slices: [&[u8]; 2] = [b"ab", b"cd"];
    assert_eq!(deque.write_vectored(&slices), 4);
    assert_eq!(deque.len(), 4);

    // When the combined length exceeds remaining capacity, `write_vectored` writes as
    // much as fits.
    let overflow: [&[u8]; 2] = [b"1234", b"5678"];
    let written = deque.write_vectored(&overflow);
    assert_eq!(written, 4);
    assert_eq!(deque.len(), 8);

    let mut deque = ArrayDeque::<u8, 4>::new();
    assert!(deque.write_all(b"wxyz"));
    assert!(!deque.write_all(b"overflow"));
}

#[test]
fn read_to_string_accepts_utf8_across_ring_boundary() {
    let mut deque = ArrayDeque::<u8, 4>::new();
    // Three padding bytes, then the leading byte of a two-byte character; rotate the head
    // so that the character straddles the end of the buffer.
    for _ in 0..3 {
        assert!(deque.push_back(b'x').is_none());
    }
    assert!(deque.push_back(0xC3).is_none());
    for _ in 0..3 {
        deque.pop_front();
    }
    assert!(deque.push_back(0xA9).is_none());

    let (front, back) = deque.as_slices();
    assert_eq!(front, [&0xC3]);
    assert_eq!(back, [&0xA9]);

    let mut s = String::new();
    let n = deque.read_to_string(&mut s).unwrap();
    assert_eq!(n, 2);
    assert_eq!(s, "é");
    assert!(deque.is_empty());
}

#[test]
fn write_vectored_does_partial_writes() {
    let mut deque = ArrayDeque::<u8, 4>::new();
    let slices: [&[u8]; 2] = [b"12", b"345"];
    let n = deque.write_vectored(&slices);
    assert_eq!(n, 4);
    assert_eq!(deque.len(), 4);
    assert_eq!(deque.into_vec(), b"1234");
}

#[test]
fn read_exact_from_front_slice_only() {
    let mut deque = ArrayDeque::<u8, 4>::new();
    for byte in b"abcd" {
        assert!(deque.push_back(*byte).is_none());
    }
    let mut buf = [0u8; 2];
    assert!(deque.read_exact(&mut buf));
    assert_eq!(&buf, b"ab");
    assert_eq!(deque.into_vec(), b"cd");
}

#[test]
fn write_on_full_and_empty_buf_returns_zero() {
    let mut deque = ArrayDeque::<u8, 4>::new();
    for byte in b"abcd" {
        assert!(deque.push_back(*byte).is_none());
    }
    assert_eq!(deque.write(b"xx"), 0);

    let mut deque = ArrayDeque::<u8, 4>::new();
    assert_eq!(deque.write(b""), 0);
}

#[test]
fn write_vectored_skips_empty_slices() {
    let mut deque = ArrayDeque::<u8, 4>::new();
    let slices: [&[u8]; 2] = [b"", b"ab"];
    let n = deque.write_vectored(&slices);
    assert_eq!(n, 2);
    assert_eq!(deque.into_vec(), b"ab");
}

#[test]
fn read_stops_at_the_end_of_the_first_run() {
    let mut deque = ArrayDeque::<u8, 4>::new();
    for byte in b"abcd" {
        assert!(deque.push_back(*byte).is_none());
    }
    assert_eq!(deque.pop_front(), Some(b'a'));
    assert_eq!(deque.pop_front(), Some(b'b'));
    assert!(deque.push_back(b'e').is_none());
    let mut buf = [0u8; 4];
    // Only "cd" lies before the end of the buffer.
    assert_eq!(deque.read(&mut buf), 2);
    assert_eq!(&buf, b"cd\0\0");
    assert_eq!(deque.read(&mut buf), 1);
    assert_eq!(&buf, b"ed\0\0");
    assert_eq!(deque.read(&mut buf), 0);
}

#[test]
fn written_bytes_are_read_back_in_order() {
    let mut deque = ArrayDeque::<u8, 6>::new();
    assert!(deque.write_all(b"abc"));
    assert!(deque.write_all(b"de"));
    let mut buf = [0u8; 3];
    assert!(deque.read_exact(&mut buf));
    assert_eq!(&buf, b"abc");
    let mut rest = Vec::new();
    assert_eq!(deque.read_to_end(&mut rest), 2);
    assert_eq!(rest, b"de");
}
