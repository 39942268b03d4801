use webserver::counters::{next_count, numbered, Counters};
use webserver::response::{buffered_message, chunks, decimal_bytes, header, stream_message, CHUNK};

#[test]
fn header_block_is_exact() {
    assert_eq!(
        header(1234),
        b"HTTP/1.1 200 OK\nContent-Type: text/html; charset=UTF-8\nContent-Length: 1234\r\n\r\n".to_vec()
    );
    assert_eq!(
        header(0),
        b"HTTP/1.1 200 OK\nContent-Type: text/html; charset=UTF-8\nContent-Length: 0\r\n\r\n".to_vec()
    );
}

#[test]
fn decimal_digits() {
    assert_eq!(decimal_bytes(0), b"0".to_vec());
    assert_eq!(decimal_bytes(9), b"9".to_vec());
    assert_eq!(decimal_bytes(10), b"10".to_vec());
    assert_eq!(decimal_bytes(500), b"500".to_vec());
    assert_eq!(decimal_bytes(u64::MAX), b"18446744073709551615".to_vec());
}

#[test]
fn buffered_message_is_header_and_body() {
    assert_eq!(
        buffered_message(b"<h1>hi</h1>"),
        b"HTTP/1.1 200 OK\nContent-Type: text/html; charset=UTF-8\nContent-Length: 11\r\n\r\n<h1>hi</h1>"
            .to_vec()
    );
}

#[test]
fn chunks_cut_at_the_size() {
    assert_eq!(chunks(b"abcdefg", 3), vec![b"abc".to_vec(), b"def".to_vec(), b"g".to_vec()]);
    assert_eq!(chunks(b"abcdef", 3), vec![b"abc".to_vec(), b"def".to_vec()]);
    assert_eq!(chunks(b"ab", 3), vec![b"ab".to_vec()]);
    assert_eq!(chunks(b"", 3), Vec::<Vec<u8>>::new());
}

#[test]
fn streamed_bytes_equal_buffered_bytes() {
    for len in [0usize, 1, 499, 500, 501, 1000, 1203] {
        let body: Vec<u8> = (0..len).map(|i| (i % 251) as u8).collect();
        let frames = stream_message(&body);
        assert_eq!(frames[0], header(len as u64));
        assert_eq!(frames.len(), 1 + (len + CHUNK - 1) / CHUNK);
        for f in &frames[1..] {
            assert!(!f.is_empty() && f.len() <= CHUNK);
        }
        assert_eq!(frames.concat(), buffered_message(&body));
    }
}

#[test]
fn counters_number_the_requests() {
    let counters = Counters::new();
    assert_eq!(counters.total_requests(), 0);
    assert_eq!(counters.valid_requests(), 0);
    assert_eq!(counters.count_request(), Some(1));
    assert_eq!(counters.count_request(), Some(2));
    assert_eq!(counters.count_valid(), Some(1));
    assert_eq!(counters.total_requests(), 2);
    assert_eq!(counters.valid_requests(), 1);
}

#[test]
fn full_counter_gives_no_number() {
    assert_eq!(next_count(0), Some(1));
    assert_eq!(next_count(i32::MAX - 1), Some(i32::MAX));
    assert_eq!(next_count(i32::MAX), None);
    assert_eq!(numbered(Ok(41)), Some(42));
    assert_eq!(numbered(Ok(i32::MAX)), None);
    assert_eq!(numbered(Err(i32::MAX)), None);
    assert_eq!(numbered(Err(3)), None);
}
