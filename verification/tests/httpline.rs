use parsekit::httpline::{content_length_of, mentions_http11};

fn chars(s: &str) -> Vec<char> {
    s.chars().collect()
}

#[test]
fn start_line_must_mention_the_protocol() {
    assert!(mentions_http11(&chars("GET / HTTP/1.1\r\n")));
    assert!(mentions_http11(&chars("get / http/1.1\n")));
    assert!(!mentions_http11(&chars("GET / HTTP/1.0\r\n")));
    assert!(!mentions_http11(&chars("")));
    assert!(!mentions_http11(&chars("HTTP/1.")));
}

#[test]
fn content_length_is_read_ignoring_case_and_spaces() {
    assert_eq!(content_length_of(&chars("Content-Length: 42\r\n")), Some(42));
    assert_eq!(content_length_of(&chars("content-length:0\n")), Some(0));
    assert_eq!(content_length_of(&chars("  CONTENT-LENGTH:  17  ")), Some(17));
    assert_eq!(content_length_of(&chars("Content-Length: +5\r\n")), Some(5));
}

#[test]
fn other_headers_and_bad_numbers_give_nothing() {
    assert_eq!(content_length_of(&chars("Host: localhost\r\n")), None);
    assert_eq!(content_length_of(&chars("Content-Length: twelve\r\n")), None);
    assert_eq!(content_length_of(&chars("Content-Length:\r\n")), None);
    assert_eq!(
        content_length_of(&chars("Content-Length: 99999999999999999999999999\r\n")),
        None
    );
}
