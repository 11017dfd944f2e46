use duo2048::protocol::{prevent_sticky_message, FrameDecoder, StreamEnd};

#[test]
fn test_two_messages_in_one_read() {
    let mut decoder = FrameDecoder::new();
    decoder.feed(&b"{\"a\":1}\n{\"b\":2}\n"[..]);
    let first = decoder.next_frame();
    assert_eq!(first, Some(b"{\"a\":1}".to_vec()));
    let second = decoder.next_frame();
    assert_eq!(second, Some(b"{\"b\":2}".to_vec()));
    assert_eq!(decoder.next_frame(), None);
    assert_eq!(decoder.buffered_len(), 0);
}

#[test]
fn test_one_message_across_two_reads() {
    let mut decoder = FrameDecoder::new();
    decoder.feed(&b"{\"a\":1"[..]);
    assert_eq!(decoder.next_frame(), None);
    decoder.feed(&b"}\n"[..]);
    let frame = decoder.next_frame();
    assert_eq!(frame, Some(b"{\"a\":1}".to_vec()));
    assert_eq!(decoder.next_frame(), None);
}

#[test]
fn test_remainder_stays_buffered() {
    let mut decoder = FrameDecoder::new();
    decoder.feed(&b"one\ntw"[..]);
    assert_eq!(decoder.next_frame(), Some(b"one".to_vec()));
    assert_eq!(decoder.next_frame(), None);
    assert_eq!(decoder.buffered_len(), 2);
    decoder.feed(&b"o\n"[..]);
    assert_eq!(decoder.next_frame(), Some(b"two".to_vec()));
}

#[test]
fn test_empty_frame_is_possible() {
    let mut decoder = FrameDecoder::new();
    decoder.feed(&b"\n"[..]);
    assert_eq!(decoder.next_frame(), Some(Vec::new()));
}

#[test]
fn test_zero_read_with_empty_buffer_is_clean() {
    let decoder = FrameDecoder::new();
    assert_eq!(decoder.end_of_stream(), StreamEnd::CleanDisconnect);
}

#[test]
fn test_zero_read_with_partial_frame_is_truncation() {
    let mut decoder = FrameDecoder::new();
    decoder.feed(&b"{\"a\":1"[..]);
    assert_eq!(decoder.end_of_stream(), StreamEnd::TruncatedFrame);
}

#[test]
fn test_prevent_sticky_message_appends_terminator() {
    let framed = prevent_sticky_message(String::from("{\"a\":1}"));
    assert_eq!(framed, String::from("{\"a\":1}\n"));
    let empty = prevent_sticky_message(String::new());
    assert_eq!(empty, String::from("\n"));
}

#[test]
fn test_round_trip_through_decoder() {
    let framed = prevent_sticky_message(String::from("hello"));
    let mut decoder = FrameDecoder::new();
    decoder.feed(framed.as_bytes());
    assert_eq!(decoder.next_frame(), Some(b"hello".to_vec()));
    assert_eq!(decoder.end_of_stream(), StreamEnd::CleanDisconnect);
}
