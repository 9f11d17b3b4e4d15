use reverse_proxy::text::{
    byte_is_space, bytes_eq, copy_range, find_byte, skip_spaces, skip_word, split_tokens, trim,
    trim_end,
};

#[test]
fn whitespace_is_space_and_tab_to_carriage_return() {
    for b in [b' ', b'\t', b'\n', 0x0b, 0x0c, b'\r'] {
        assert!(byte_is_space(b));
    }
    for b in [0x00, 0x08, 0x0e, 0x1f, b'a', b':', 0x7f, 0x85, 0xa0, 0xff] {
        assert!(!byte_is_space(b));
    }
}

#[test]
fn trim_removes_surrounding_whitespace_only() {
    assert_eq!(trim(b"  example.com \r\n"), b"example.com".to_vec());
    assert_eq!(trim(b"a b"), b"a b".to_vec());
    assert_eq!(trim(b"\t a  b \x0b\x0c"), b"a  b".to_vec());
}

#[test]
fn trim_of_whitespace_is_empty() {
    assert_eq!(trim(b""), Vec::<u8>::new());
    assert_eq!(trim(b" \r\n\t"), Vec::<u8>::new());
}

#[test]
fn trim_is_idempotent() {
    let once = trim(b"  Host : x  ");
    assert_eq!(trim(&once), once);
}

#[test]
fn trim_keeps_a_single_byte() {
    assert_eq!(trim(b"x"), b"x".to_vec());
    assert_eq!(trim(b" x"), b"x".to_vec());
    assert_eq!(trim(b"x "), b"x".to_vec());
}

#[test]
fn tokens_are_maximal_runs_of_non_whitespace() {
    assert_eq!(
        split_tokens(b"GET  /index.html\tHTTP/1.1\r\n"),
        vec![b"GET".to_vec(), b"/index.html".to_vec(), b"HTTP/1.1".to_vec()]
    );
    assert_eq!(split_tokens(b"one"), vec![b"one".to_vec()]);
    assert_eq!(split_tokens(b"  a b  "), vec![b"a".to_vec(), b"b".to_vec()]);
}

#[test]
fn tokens_of_whitespace_are_none() {
    assert_eq!(split_tokens(b""), Vec::<Vec<u8>>::new());
    assert_eq!(split_tokens(b" \t\r\n"), Vec::<Vec<u8>>::new());
}

#[test]
fn find_byte_gives_first_position_or_length() {
    assert_eq!(find_byte(b"Host: a:b", b':', 0), 4);
    assert_eq!(find_byte(b"Host: a:b", b':', 5), 7);
    assert_eq!(find_byte(b"Host", b':', 0), 4);
    assert_eq!(find_byte(b"", b':', 0), 0);
    assert_eq!(find_byte(b"abc", b'a', 7), 7);
}

#[test]
fn skip_spaces_and_skip_word_stop_at_the_first_other_byte() {
    assert_eq!(skip_spaces(b"  ab  c", 0), 2);
    assert_eq!(skip_word(b"  ab  c", 2), 4);
    assert_eq!(skip_spaces(b"  ab  c", 4), 6);
    assert_eq!(skip_word(b"  ab  c", 6), 7);
    assert_eq!(skip_spaces(b"   ", 0), 3);
    assert_eq!(skip_word(b"abc", 0), 3);
    assert_eq!(skip_word(b" abc", 0), 0);
}

#[test]
fn bytes_eq_compares_length_and_content() {
    assert!(bytes_eq(b"", b""));
    assert!(bytes_eq(b"example.com", b"example.com"));
    assert!(!bytes_eq(b"example.com", b"Example.com"));
    assert!(!bytes_eq(b"example.com", b"example.co"));
    assert!(!bytes_eq(b"a", b""));
}

#[test]
fn copy_range_copies_the_bytes_between() {
    assert_eq!(copy_range(b"Host: x", 0, 4), b"Host".to_vec());
    assert_eq!(copy_range(b"Host: x", 5, 7), b" x".to_vec());
    assert_eq!(copy_range(b"Host: x", 3, 3), Vec::<u8>::new());
}

#[test]
fn trim_end_removes_trailing_whitespace_only() {
    assert_eq!(trim_end(b"Host \t"), b"Host".to_vec());
    assert_eq!(trim_end(b" Host "), b" Host".to_vec());
    assert_eq!(trim_end(b"a b"), b"a b".to_vec());
    assert_eq!(trim_end(b" \r\n"), Vec::<u8>::new());
    assert_eq!(trim_end(b""), Vec::<u8>::new());
}
