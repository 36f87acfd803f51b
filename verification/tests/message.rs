use balancer::dispatch::unavailable_response;
use balancer::framing::{frame_message, FramingError};
use balancer::message::{split_header, split_message, HttpMessage};

#[test]
fn splits_a_message_into_its_parts() {
    let input = b"POST /x HTTP/1.1\r\nHost: example\r\nContent-Length: 4\r\n\r\nbodyrest";
    let message = split_message(input).unwrap();
    assert_eq!(message.start_line, b"POST /x HTTP/1.1\r\n".to_vec());
    assert_eq!(
        message.header_lines,
        vec![b"Host: example\r\n".to_vec(), b"Content-Length: 4\r\n".to_vec()]
    );
    assert_eq!(message.body, b"body".to_vec());
    assert_eq!(message.to_bytes(), input[..input.len() - 4].to_vec());
}

#[test]
fn message_without_headers_or_body() {
    let input = b"GET / HTTP/1.1\r\n\r\n";
    let message = split_message(input).unwrap();
    assert_eq!(message.start_line, b"GET / HTTP/1.1\r\n".to_vec());
    assert!(message.header_lines.is_empty());
    assert!(message.body.is_empty());
    assert_eq!(message.to_bytes(), input.to_vec());
}

#[test]
fn parts_put_together_are_the_bytes_framed() {
    let mut input = b"HTTP/1.1 200 OK\nodd line\r\nX: \xff\xfe\r\nContent-Length: 5\r\n\r\n".to_vec();
    input.extend_from_slice(&[0, 13, 10, 255, 7, 9, 9]);
    let length = frame_message(&input).unwrap();
    let message = split_message(&input).unwrap();
    assert_eq!(message.to_bytes(), input[..length].to_vec());
    assert_eq!(message.body, vec![0, 13, 10, 255, 7]);
    assert_eq!(message.header_lines.len(), 3);
}

#[test]
fn split_fails_as_framing_fails() {
    assert_eq!(
        split_message(b"GET / HTTP/1.1\r\nHost: a\r\n").err(),
        Some(FramingError::UnterminatedHead)
    );
    assert_eq!(
        split_message(b"GET / HTTP/1.1\r\nContent-Length: ?\r\n\r\n").err(),
        Some(FramingError::InvalidContentLength)
    );
    assert_eq!(
        split_message(b"GET / HTTP/1.1\r\nContent-Length: 9\r\n\r\nshort").err(),
        Some(FramingError::TruncatedBody)
    );
}

#[test]
fn message_built_by_hand_goes_over_the_wire() {
    let message = HttpMessage {
        start_line: b"HTTP/1.1 204 No Content\r\n".to_vec(),
        header_lines: vec![b"Server: x\r\n".to_vec()],
        body: Vec::new(),
    };
    assert_eq!(
        message.to_bytes(),
        b"HTTP/1.1 204 No Content\r\nServer: x\r\n\r\n".to_vec()
    );
}

#[test]
fn header_is_parted_at_the_first_colon_and_space() {
    assert_eq!(
        split_header(b"Host: example\r\n"),
        (&b"Host"[..], &b"example\r\n"[..])
    );
    assert_eq!(split_header(b"a: b: c"), (&b"a"[..], &b"b: c"[..]));
    assert_eq!(split_header(b"Empty: "), (&b"Empty"[..], &b""[..]));
    assert_eq!(split_header(b"NoValue:\r\n"), (&b"NoValue:\r\n"[..], &b""[..]));
    assert_eq!(split_header(b""), (&b""[..], &b""[..]));
}

#[test]
fn unavailable_response_is_a_whole_message_without_body() {
    let response = unavailable_response();
    assert_eq!(
        response,
        b"HTTP/1.1 503 Service Unavailable\r\nContent-Length: 0\r\nConnection: close\r\n\r\n"
            .to_vec()
    );
    assert_eq!(frame_message(&response), Ok(response.len()));
    let message = split_message(&response).unwrap();
    assert_eq!(message.start_line, b"HTTP/1.1 503 Service Unavailable\r\n".to_vec());
    assert!(message.body.is_empty());
}
