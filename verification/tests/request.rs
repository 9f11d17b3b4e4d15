use reverse_proxy::request::{
    is_blank_line, is_whole_line, parse_header, parse_header_name, parse_header_value,
    parse_request_line, Header,
};

#[test]
fn request_line_gives_method_path_version() {
    let head = parse_request_line(b"GET /index.html HTTP/1.1\r\n".to_vec());
    assert_eq!(head.request_line, b"GET /index.html HTTP/1.1\r\n".to_vec());
    assert_eq!(head.method, b"GET".to_vec());
    assert_eq!(head.path, b"/index.html".to_vec());
    assert_eq!(head.version, b"HTTP/1.1".to_vec());
    assert!(head.headers.is_empty());
}

#[test]
fn request_line_with_two_tokens_lacks_a_version() {
    let head = parse_request_line(b"GET /\r\n".to_vec());
    assert_eq!(head.method, b"GET".to_vec());
    assert_eq!(head.path, b"/".to_vec());
    assert_eq!(head.version, b"UNKNOWN_VERSION".to_vec());
}

#[test]
fn request_line_with_one_token_lacks_path_and_version() {
    let head = parse_request_line(b"GET\n".to_vec());
    assert_eq!(head.method, b"GET".to_vec());
    assert_eq!(head.path, b"UNKNOWN_PATH".to_vec());
    assert_eq!(head.version, b"UNKNOWN_VERSION".to_vec());
}

#[test]
fn request_line_without_tokens_has_three_placeholders() {
    let head = parse_request_line(b" \r\n".to_vec());
    assert_eq!(head.request_line, b" \r\n".to_vec());
    assert_eq!(head.method, b"UNKNOWN_METHOD".to_vec());
    assert_eq!(head.path, b"UNKNOWN_PATH".to_vec());
    assert_eq!(head.version, b"UNKNOWN_VERSION".to_vec());
}

#[test]
fn request_line_ignores_tokens_after_the_third() {
    let head = parse_request_line(b"GET / HTTP/1.1 extra more\r\n".to_vec());
    assert_eq!(head.method, b"GET".to_vec());
    assert_eq!(head.path, b"/".to_vec());
    assert_eq!(head.version, b"HTTP/1.1".to_vec());
    assert_eq!(head.request_line, b"GET / HTTP/1.1 extra more\r\n".to_vec());
}

#[test]
fn header_name_is_what_stands_before_the_first_colon() {
    assert_eq!(parse_header_name(b"Host: example.com\r\n"), b"Host".to_vec());
    assert_eq!(parse_header_name(b"Host : example.com\r\n"), b"Host".to_vec());
    assert_eq!(parse_header_name(b"X-A: b: c\r\n"), b"X-A".to_vec());
    assert_eq!(parse_header_name(b": value\r\n"), Vec::<u8>::new());
}

#[test]
fn header_without_colon_has_no_name_and_no_value() {
    assert_eq!(parse_header_name(b"Host\r\n"), Vec::<u8>::new());
    assert_eq!(parse_header_value(b"Host\r\n"), Vec::<u8>::new());
    assert_eq!(parse_header_name(b"Host example.com\r\n"), Vec::<u8>::new());
}

#[test]
fn header_value_is_everything_after_the_first_colon_trimmed() {
    assert_eq!(parse_header_value(b"Host: example.com\r\n"), b"example.com".to_vec());
    assert_eq!(parse_header_value(b"Host:example.com"), b"example.com".to_vec());
    assert_eq!(parse_header_value(b"Host:   example.com  \r\n"), b"example.com".to_vec());
    assert_eq!(parse_header_value(b"Host: example.com:8080\r\n"), b"example.com:8080".to_vec());
    assert_eq!(parse_header_value(b"Host:\r\n"), Vec::<u8>::new());
}

#[test]
fn header_keeps_its_raw_line() {
    let header = parse_header(b"Host :  example.com \r\n".to_vec());
    assert_eq!(
        header,
        Header { name: b"Host".to_vec(), raw_line: b"Host :  example.com \r\n".to_vec() }
    );
}

#[test]
fn blank_line_is_carriage_returns_and_line_feeds() {
    assert!(is_blank_line(b"\r\n"));
    assert!(is_blank_line(b"\n"));
    assert!(is_blank_line(b"\r\r\n"));
}

#[test]
fn other_lines_are_not_blank() {
    assert!(!is_blank_line(b""));
    assert!(!is_blank_line(b" \r\n"));
    assert!(!is_blank_line(b"\t\n"));
    assert!(!is_blank_line(b"a\r\n"));
    assert!(!is_blank_line(b"\r\na"));
}

#[test]
fn line_without_line_feed_is_not_blank() {
    assert!(!is_blank_line(b"\r"));
    assert!(!is_blank_line(b"\r\r"));
    assert!(!is_blank_line(b"\n\r"));
    assert!(!is_blank_line(b"\r\n\r"));
}

#[test]
fn whole_line_ends_with_a_line_feed() {
    assert!(is_whole_line(b"\n"));
    assert!(is_whole_line(b"\r\n"));
    assert!(is_whole_line(b"Host: example.com\r\n"));
    assert!(!is_whole_line(b""));
    assert!(!is_whole_line(b"\r"));
    assert!(!is_whole_line(b"Host: example.com"));
    assert!(!is_whole_line(b"Host: example.com\n "));
}

#[test]
fn header_name_keeps_whitespace_in_front() {
    assert_eq!(parse_header_name(b" Host: evil\r\n"), b" Host".to_vec());
    assert_eq!(parse_header_name(b"\tHost : evil\r\n"), b"\tHost".to_vec());
    assert_eq!(parse_header_name(b"  : value\r\n"), Vec::<u8>::new());
    assert_eq!(parse_header_name(b"X Y  : value\r\n"), b"X Y".to_vec());
}

#[test]
fn head_bytes_are_the_lines_as_read_and_a_blank_line() {
    let mut head = parse_request_line(b"GET / HTTP/1.1\r\n".to_vec());
    head.push_header(b"Host: example.com\r\n".to_vec());
    head.push_header(b"Accept:  */*\n".to_vec());
    assert_eq!(head.headers.len(), 2);
    assert_eq!(head.headers[1].name, b"Accept".to_vec());
    assert_eq!(
        head.to_bytes(),
        b"GET / HTTP/1.1\r\nHost: example.com\r\nAccept:  */*\n\r\n".to_vec()
    );
}

#[test]
fn head_bytes_without_headers_are_request_line_and_blank_line() {
    let head = parse_request_line(b"GET /\n".to_vec());
    assert_eq!(head.to_bytes(), b"GET /\n\r\n".to_vec());
}
