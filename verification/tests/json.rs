use greetd_session::cursor::{
    next_bool, next_byte, next_head, next_literal, next_number, next_text, next_texts,
};
use greetd_session::json::{
    holds_literal, put_bool, put_literal, put_number, put_open, put_text, put_texts, put_unit,
    run_end, skip_literal, take_bool, take_head, take_number, take_text, take_texts, Class,
};

fn written(put: impl Fn(&mut Vec<u8>)) -> Vec<u8> {
    let mut out = b"<".to_vec();
    put(&mut out);
    assert_eq!(out[0], b'<');
    out[1..].to_vec()
}

#[test]
fn literals_are_appended_and_stepped_over() {
    assert_eq!(written(|out| put_literal(out, ",\"vt\":")), b",\"vt\":".to_vec());
    assert_eq!(written(|out| put_literal(out, "")), b"".to_vec());
    assert_eq!(skip_literal(b"abcdef", 2, "cd"), Some(4));
    assert_eq!(skip_literal(b"abcdef", 2, "cdef"), Some(6));
    assert_eq!(skip_literal(b"abcdef", 2, "cdefg"), None);
    assert_eq!(skip_literal(b"abcdef", 2, "cx"), None);
    assert_eq!(skip_literal(b"abcdef", 6, ""), Some(6));
    assert_eq!(skip_literal(b"abcdef", 6, "a"), None);
    assert_eq!(next_literal(b"abcdef", 0, "abc"), Some(3));
    assert_eq!(next_literal(b"abcdef", 1, "abc"), None);
    assert_eq!(next_byte(b"ab", 1, b'b'), Some(2));
    assert_eq!(next_byte(b"ab", 1, b'a'), None);
    assert_eq!(next_byte(b"ab", 2, b'b'), None);
    assert!(holds_literal(b"xCancelx", 1, 7, "Cancel"));
    assert!(!holds_literal(b"xCancelx", 1, 6, "Cancel"));
    assert!(!holds_literal(b"xCancelx", 1, 8, "Cancel"));
    assert!(!holds_literal(b"xCancelx", 0, 6, "Cancel"));
    assert!(holds_literal(b"xCancelx", 3, 3, ""));
}

#[test]
fn runs_end_where_the_class_does() {
    assert_eq!(run_end(b"abcXYZ123", 0, Class::Letter), 6);
    assert_eq!(run_end(b"abcXYZ123", 6, Class::Letter), 6);
    assert_eq!(run_end(b"abcXYZ123", 6, Class::Digit), 9);
    assert_eq!(run_end(b"abcXYZ123", 9, Class::Digit), 9);
    assert_eq!(run_end(b"az@AZ[`{", 0, Class::Letter), 2);
    assert_eq!(run_end(b"az@AZ[`{", 3, Class::Letter), 5);
    assert_eq!(run_end(b"09/:", 0, Class::Digit), 2);
    for byte in 0u8..=255 {
        assert_eq!(Class::Letter.has(byte), byte.is_ascii_alphabetic());
        assert_eq!(Class::Digit.has(byte), byte.is_ascii_digit());
    }
}

#[test]
fn numbers_are_written_and_read() {
    for number in [0u64, 1, 9, 10, 11, 99, 100, 4242, 1 << 32, u64::MAX - 1, u64::MAX] {
        let bytes = written(|out| put_number(out, number));
        assert_eq!(bytes, number.to_string().into_bytes());
        assert_eq!(take_number(&bytes, 0), Some((number, bytes.len())));
        let mut more = b"x".to_vec();
        more.extend_from_slice(&bytes);
        more.push(b'}');
        assert_eq!(take_number(&more, 1), Some((number, more.len() - 1)));
        assert_eq!(next_number(&more, 1), Some((number, more.len() - 1)));
    }
    assert_eq!(take_number(b"", 0), None);
    assert_eq!(take_number(b"x1", 0), None);
    assert_eq!(take_number(b"-1", 0), None);
    assert_eq!(take_number(b"+1", 0), None);
    assert_eq!(take_number(b"00", 0), None);
    assert_eq!(take_number(b"007", 0), None);
    assert_eq!(take_number(b"0", 0), Some((0, 1)));
    assert_eq!(take_number(b"0x", 0), Some((0, 1)));
    assert_eq!(take_number(b"12.5", 0), Some((12, 2)));
    assert_eq!(take_number(b"18446744073709551615", 0), Some((u64::MAX, 20)));
    assert_eq!(take_number(b"18446744073709551616", 0), None);
    assert_eq!(take_number(b"184467440737095516150", 0), None);
    assert_eq!(take_number(b"12", 2), None);
}

#[test]
fn texts_are_written_and_read() {
    assert_eq!(written(|out| put_text(out, "")), b"\"\"".to_vec());
    assert_eq!(written(|out| put_text(out, "abc")), b"\"abc\"".to_vec());
    assert_eq!(written(|out| put_text(out, "a\"b")), b"\"a\\\"b\"".to_vec());
    assert_eq!(written(|out| put_text(out, "a\\b")), b"\"a\\\\b\"".to_vec());
    assert_eq!(written(|out| put_text(out, "\u{1}")), b"\"\\u0001\"".to_vec());
    assert_eq!(written(|out| put_text(out, "\u{b}")), b"\"\\u000b\"".to_vec());
    assert_eq!(written(|out| put_text(out, "\u{1a}")), b"\"\\u001a\"".to_vec());
    assert_eq!(written(|out| put_text(out, "\u{7f}")), b"\"\x7f\"".to_vec());
    assert_eq!(written(|out| put_text(out, "é")), "\"é\"".as_bytes().to_vec());

    assert_eq!(take_text(b"\"abc\"", 0), Some(("abc".to_string(), 5)));
    assert_eq!(take_text(b"x\"abc\"y", 1), Some(("abc".to_string(), 6)));
    assert_eq!(next_text(b"x\"abc\"y", 1), Some(("abc".to_string(), 6)));
    assert_eq!(take_text(b"\"\"", 0), Some((String::new(), 2)));
    assert_eq!(take_text(b"\"a\\\"b\"", 0), Some(("a\"b".to_string(), 6)));
    assert_eq!(take_text(b"\"\\\\\"", 0), Some(("\\".to_string(), 4)));
    assert_eq!(take_text(b"\"\\b\\f\\n\\r\\t\"", 0), Some(("\u{8}\u{c}\n\r\t".to_string(), 12)));
    assert_eq!(take_text(b"\"\\u0000\\u001f\\u0010\"", 0), Some(("\u{0}\u{1f}\u{10}".to_string(), 20)));
    assert_eq!(take_text(b"\"abc", 0), None);
    assert_eq!(take_text(b"abc\"", 0), None);
    assert_eq!(take_text(b"", 0), None);
    assert_eq!(take_text(b"\"", 0), None);
    assert_eq!(take_text(b"\"a\\\"", 0), None);
    assert_eq!(take_text(b"\"\\x\"", 0), None);
    assert_eq!(take_text(b"\"\\u000a\"", 0), None);
    assert_eq!(take_text(b"\"\\u0008\"", 0), None);
    assert_eq!(take_text(b"\"\\u000b\"", 0), Some(("\u{b}".to_string(), 8)));
    assert_eq!(take_text(b"\"\\u0020\"", 0), None);
    assert_eq!(take_text(b"\"\\u00\"", 0), None);
    assert_eq!(take_text(b"\"\\u001g\"", 0), None);
    assert_eq!(take_text(b"\"\\u0100\"", 0), None);
    assert_eq!(take_text(b"\"\\U0001\"", 0), None);
    assert_eq!(take_text(b"\"a\x1fb\"", 0), None);
    assert_eq!(take_text(b"\"\xc3\"", 0), None);
    assert_eq!(take_text(b"\"\xed\xa0\x80\"", 0), None);
    assert_eq!(take_text(b"\"\xc3\xa9\"", 0), Some(("é".to_string(), 4)));
}

#[test]
fn truth_values_are_written_and_read() {
    assert_eq!(written(|out| put_bool(out, true)), b"true".to_vec());
    assert_eq!(written(|out| put_bool(out, false)), b"false".to_vec());
    assert_eq!(take_bool(b"true}", 0), Some((true, 4)));
    assert_eq!(take_bool(b":false}", 1), Some((false, 6)));
    assert_eq!(next_bool(b":false}", 1), Some((false, 6)));
    assert_eq!(take_bool(b"tru", 0), None);
    assert_eq!(take_bool(b"fals", 0), None);
    assert_eq!(take_bool(b"True", 0), None);
    assert_eq!(take_bool(b"1", 0), None);
    assert_eq!(take_bool(b"", 0), None);
    assert_eq!(take_bool(b"truf", 0), None);
    assert_eq!(take_bool(b"falsy", 0), None);
}

fn list(items: &[&str]) -> Vec<String> {
    items.iter().map(|item| item.to_string()).collect()
}

#[test]
fn lists_are_written_and_read() {
    assert_eq!(written(|out| put_texts(out, &list(&[]))), b"[]".to_vec());
    assert_eq!(written(|out| put_texts(out, &list(&["a"]))), b"[\"a\"]".to_vec());
    assert_eq!(
        written(|out| put_texts(out, &list(&["a", "", "b,]"]))),
        b"[\"a\",\"\",\"b,]\"]".to_vec()
    );
    assert_eq!(take_texts(b"[]", 0), Some((list(&[]), 2)));
    assert_eq!(take_texts(b"x[]y", 1), Some((list(&[]), 3)));
    assert_eq!(take_texts(b"[\"a\"]", 0), Some((list(&["a"]), 5)));
    assert_eq!(take_texts(b"[\"a\",\"\",\"b,]\"],", 0), Some((list(&["a", "", "b,]"]), 14)));
    assert_eq!(next_texts(b"[\"a\",\"\",\"b,]\"],", 0), Some((list(&["a", "", "b,]"]), 14)));
    assert_eq!(take_texts(b"", 0), None);
    assert_eq!(take_texts(b"[", 0), None);
    assert_eq!(take_texts(b"]", 0), None);
    assert_eq!(take_texts(b"[\"a\"", 0), None);
    assert_eq!(take_texts(b"[\"a\",]", 0), None);
    assert_eq!(take_texts(b"[,\"a\"]", 0), None);
    assert_eq!(take_texts(b"[\"a\"\"b\"]", 0), None);
    assert_eq!(take_texts(b"[\"a\", \"b\"]", 0), None);
    assert_eq!(take_texts(b"[1]", 0), None);
    assert_eq!(take_texts(b"[[]]", 0), None);
}

#[test]
fn variants_begin_with_their_name() {
    assert_eq!(written(|out| put_unit(out, "Cancel")), b"\"Cancel\"".to_vec());
    assert_eq!(written(|out| put_open(out, "Args")), b"{\"Args\":".to_vec());

    let head = take_head(b"\"Cancel\"", 0).unwrap();
    assert_eq!((head.tagged, head.start, head.end, head.next), (false, 1, 7, 8));
    let head = take_head(b"x{\"Args\":{", 1).unwrap();
    assert_eq!((head.tagged, head.start, head.end, head.next), (true, 3, 7, 9));
    let head = next_head(b"x{\"Args\":{", 1).unwrap();
    assert_eq!((head.tagged, head.start, head.end, head.next), (true, 3, 7, 9));
    let head = take_head(b"\"\"", 0).unwrap();
    assert_eq!((head.tagged, head.start, head.end, head.next), (false, 1, 1, 2));
    let head = take_head(b"{\"\":", 0).unwrap();
    assert_eq!((head.tagged, head.start, head.end, head.next), (true, 2, 2, 4));

    assert!(take_head(b"", 0).is_none());
    assert!(take_head(b"Cancel", 0).is_none());
    assert!(take_head(b"\"Cancel", 0).is_none());
    assert!(take_head(b"\"Can cel\"", 0).is_none());
    assert!(take_head(b"\"Cancel1\"", 0).is_none());
    assert!(take_head(b"{\"Args\"", 0).is_none());
    assert!(take_head(b"{\"Args\",", 0).is_none());
    assert!(take_head(b"{Args:", 0).is_none());
    assert!(take_head(b"{ \"Args\":", 0).is_none());
    assert!(take_head(b"[\"Args\"]", 0).is_none());
}

#[test]
fn beyond_the_end_of_the_bytes_stands_nothing() {
    assert_eq!(skip_literal(b"ab", 3, ""), None);
    assert_eq!(skip_literal(b"ab", usize::MAX, "a"), None);
    assert_eq!(run_end(b"ab", 3, Class::Letter), 3);
    assert_eq!(run_end(b"ab", 2, Class::Letter), 2);
    assert_eq!(take_number(b"12", 3), None);
    assert_eq!(take_text(b"\"a\"", 4), None);
    assert_eq!(take_bool(b"true", 5), None);
    assert_eq!(take_texts(b"[]", 3), None);
    assert!(take_head(b"\"a\"", 4).is_none());
    assert!(!holds_literal(b"ab", 1, 0, ""));
    assert!(!holds_literal(b"ab", 1, 3, "b"));
    assert!(!holds_literal(b"ab", 3, 3, ""));
    assert_eq!(next_literal(b"ab", 3, ""), None);
    assert_eq!(next_byte(b"ab", 3, b'a'), None);
    assert_eq!(next_number(b"12", 3), None);
    assert_eq!(next_text(b"\"a\"", 4), None);
    assert_eq!(next_bool(b"true", 5), None);
    assert_eq!(next_texts(b"[]", 3), None);
    assert!(next_head(b"\"a\"", 4).is_none());
}

#[test]
fn a_text_is_valid_utf8_or_nothing() {
    assert_eq!(take_text(b"\"\xc0\x80\"", 0), None);
    assert_eq!(take_text(b"\"\xe0\x80\x80\"", 0), None);
    assert_eq!(take_text(b"\"\xf4\x90\x80\x80\"", 0), None);
    assert_eq!(take_text(b"\"\xf8\x88\x80\x80\x80\"", 0), None);
    assert_eq!(take_text(b"\"\xe2\x82\"", 0), None);
    assert_eq!(take_text(b"\"\x80\"", 0), None);
    assert_eq!(take_text(b"\"\xe2\x82\xac\"", 0), Some(("\u{20ac}".to_string(), 5)));
    assert_eq!(take_text(b"\"\xf0\x9f\x98\x80\"", 0), Some(("\u{1F600}".to_string(), 6)));
    assert_eq!(take_text(b"\"\xf4\x8f\xbf\xbf\"", 0), Some(("\u{10FFFF}".to_string(), 6)));
    assert_eq!(take_text(b"\"\xed\x9f\xbf\"", 0), Some(("\u{D7FF}".to_string(), 5)));
    for text in ["", "a", "\u{7f}", "\u{80}", "\u{7ff}", "\u{800}", "\u{ffff}", "\u{10000}"] {
        let bytes = written(|out| put_text(out, text));
        assert_eq!(take_text(&bytes, 0), Some((text.to_string(), bytes.len())));
    }
}
