use balancer::framer::{Framer, Progress};
use balancer::framing::{frame_message, FramingError};

/// Feeds `input` in pieces of `piece` bytes until the framer stops
/// taking, and returns how many bytes it took.
fn feed_all(framer: &mut Framer, input: &[u8], piece: usize) -> usize {
    let mut at = 0;
    while at < input.len() {
        let end = usize::min(at + piece, input.len());
        let taken = framer.feed(&input[at..end]);
        at += taken;
        if at < end {
            break;
        }
    }
    at
}

#[test]
fn new_framer_is_reading_and_empty() {
    let framer = Framer::new();
    assert_eq!(framer.status(), Progress::Reading);
    assert_eq!(framer.bytes(), b"");
}

#[test]
fn takes_one_message_from_one_piece() {
    let input = b"POST /x HTTP/1.1\r\nContent-Length: 13\r\n\r\n0123456789abcGET /next";
    let mut framer = Framer::new();
    let taken = framer.feed(input);
    assert_eq!(taken, input.len() - 9);
    assert_eq!(framer.status(), Progress::Complete);
    assert_eq!(framer.bytes(), &input[..taken]);
    assert_eq!(framer.into_bytes(), input[..taken].to_vec());
}

#[test]
fn takes_the_same_message_whatever_the_pieces() {
    let mut input = b"HTTP/1.1 200 OK\r\nContent-Type: x\r\nContent-Length: 7\r\n\r\n".to_vec();
    input.extend_from_slice(&[0, 10, 13, 10, 255, 13, 10]);
    let message = input.len();
    input.extend_from_slice(b"more\r\n\r\n");
    for piece in 1..input.len() + 1 {
        let mut framer = Framer::new();
        let consumed = feed_all(&mut framer, &input, piece);
        assert_eq!(consumed, message);
        assert_eq!(framer.status(), Progress::Complete);
        assert_eq!(framer.bytes(), &input[..message]);
    }
}

#[test]
fn agrees_with_frame_message() {
    let inputs: [&[u8]; 6] = [
        b"GET / HTTP/1.1\r\n\r\n",
        b"GET / HTTP/1.1\r\nContent-Length: 0\r\n\r\nrest",
        b"GET / HTTP/1.1\r\nContent-Length: 4\r\n\r\nab",
        b"GET / HTTP/1.1\r\nContent-Length: nine\r\n\r\n",
        b"GET / HTTP/1.1\r\nHost: a\r\n",
        b"",
    ];
    for input in inputs {
        let mut framer = Framer::new();
        let taken = framer.feed(input);
        framer.finish();
        match frame_message(input) {
            Ok(length) => {
                assert_eq!(framer.status(), Progress::Complete);
                assert_eq!(taken, length);
            }
            Err(e) => assert_eq!(framer.status(), Progress::Failed(e)),
        }
    }
}

#[test]
fn message_without_body_completes_at_the_blank_line() {
    let mut framer = Framer::new();
    assert_eq!(framer.feed(b"GET / HTTP/1.1\r\nHost: a\r\n\r"), 26);
    assert_eq!(framer.status(), Progress::Reading);
    assert_eq!(framer.feed(b"\nGET"), 1);
    assert_eq!(framer.status(), Progress::Complete);
}

#[test]
fn takes_nothing_once_complete() {
    let mut framer = Framer::new();
    framer.feed(b"GET / HTTP/1.1\r\n\r\n");
    assert_eq!(framer.status(), Progress::Complete);
    assert_eq!(framer.feed(b"GET / HTTP/1.1\r\n\r\n"), 0);
    assert_eq!(framer.bytes(), b"GET / HTTP/1.1\r\n\r\n");
    framer.finish();
    assert_eq!(framer.status(), Progress::Complete);
}

#[test]
fn empty_piece_changes_nothing() {
    let mut framer = Framer::new();
    assert_eq!(framer.feed(b""), 0);
    assert_eq!(framer.status(), Progress::Reading);
    framer.feed(b"GET / HT");
    assert_eq!(framer.feed(b""), 0);
    assert_eq!(framer.bytes(), b"GET / HT");
}

#[test]
fn end_of_stream_inside_the_head_is_an_unterminated_head() {
    let mut framer = Framer::new();
    framer.feed(b"GET / HTTP/1.1\r\nHost: a\r\n");
    assert_eq!(framer.status(), Progress::Reading);
    framer.finish();
    assert_eq!(framer.status(), Progress::Failed(FramingError::UnterminatedHead));
    assert_eq!(framer.feed(b"\r\n"), 0);
}

#[test]
fn end_of_stream_before_anything_is_an_unterminated_head() {
    let mut framer = Framer::new();
    framer.finish();
    assert_eq!(framer.status(), Progress::Failed(FramingError::UnterminatedHead));
}

#[test]
fn end_of_stream_inside_the_body_is_a_truncated_body() {
    let mut framer = Framer::new();
    let input = b"POST / HTTP/1.1\r\nContent-Length: 13\r\n\r\nhello";
    assert_eq!(framer.feed(input), input.len());
    assert_eq!(framer.status(), Progress::Reading);
    framer.finish();
    assert_eq!(framer.status(), Progress::Failed(FramingError::TruncatedBody));
    assert_eq!(framer.bytes(), input);
}

#[test]
fn invalid_content_length_fails_at_the_end_of_its_line() {
    let mut framer = Framer::new();
    let input = b"POST / HTTP/1.1\r\nContent-Length: 1e3\r\nHost: a\r\n\r\n";
    assert_eq!(framer.feed(input), 38);
    assert_eq!(
        framer.status(),
        Progress::Failed(FramingError::InvalidContentLength)
    );
    assert_eq!(framer.feed(&input[38..]), 0);
    framer.finish();
    assert_eq!(
        framer.status(),
        Progress::Failed(FramingError::InvalidContentLength)
    );
}

#[test]
fn body_bytes_are_taken_as_they_are() {
    let mut framer = Framer::new();
    framer.feed(b"POST / HTTP/1.1\r\nContent-Length: 6\r\n\r\n");
    assert_eq!(framer.feed(&[13, 10, 13, 10]), 4);
    assert_eq!(framer.status(), Progress::Reading);
    assert_eq!(framer.feed(&[0xff, 0x00, 0x42]), 2);
    assert_eq!(framer.status(), Progress::Complete);
    let bytes = framer.into_bytes();
    assert_eq!(&bytes[bytes.len() - 6..], &[13, 10, 13, 10, 0xff, 0x00]);
}
