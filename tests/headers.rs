use webserver::{Error, Headers};

const HEADER_EXAMPLE: &str = "\
Content-Type: text/plain
Content-Length: 50
User-Agent: curl";

fn setup_header() -> Headers {
    Headers::from_pairs(vec![
        (String::from("Content-Type"), String::from("text/plain")),
        (String::from("Content-Length"), String::from("50")),
        (String::from("User-Agent"), String::from("curl")),
    ])
}

fn lines(text: &str) -> Vec<String> {
    text.lines().map(|s| s.to_string()).collect()
}

#[test]
fn headers_test_read() {
    assert_eq!(setup_header(), Headers::read(&lines(HEADER_EXAMPLE)).unwrap());
}

#[test]
fn headers_test_write() {
    let headers = setup_header();
    let mut buffer = Vec::new();
    headers.write(&mut buffer).unwrap();
    assert_eq!(
        format!("Content-Length: 50\r\nContent-Type: text/plain\r\nUser-Agent: curl\r\n"),
        String::from_utf8_lossy(&buffer).to_string()
    );
}

#[test]
fn test_get_content_length() {
    assert_eq!(Some(50), setup_header().get_content_length());
}

#[test]
fn test_set_content_length() {
    let mut headers = setup_header();
    headers.set_content_length(40);
    assert_eq!(Some(40), headers.get_content_length());
}

#[test]
fn headers_read_stops_at_first_blank_line() {
    let h = Headers::read(&lines("A: 1\n\nB: 2\nno colon here")).unwrap();
    assert_eq!(h, Headers::from_pairs(vec![(String::from("A"), String::from("1"))]));
    assert_eq!(h.get("B"), None);
}

#[test]
fn headers_line_with_colon_only_has_empty_value() {
    let h = Headers::read(&lines("User-Agent:")).unwrap();
    assert_eq!(h.get("User-Agent"), Some(&String::new()));
    let h = Headers::read(&lines("User-Agent: ")).unwrap();
    assert_eq!(h.get("User-Agent"), Some(&String::new()));
}

#[test]
fn headers_line_without_colon_is_malformed() {
    let r = Headers::read(&lines("A: 1\nno colon here"));
    assert!(matches!(r, Err(Error::MalformedHeaders(_))));
}

#[test]
fn headers_value_is_what_follows_colon_and_one_character() {
    let h = Headers::read(&lines("k:xyz\na: b: c")).unwrap();
    assert_eq!(h.get("k"), Some(&String::from("yz")));
    assert_eq!(h.get("a"), Some(&String::from("b: c")));
}

#[test]
fn headers_value_skips_a_whole_character_after_colon() {
    let h = Headers::read(&lines("k:é")).unwrap();
    assert_eq!(h.get("k"), Some(&String::new()));
    let h = Headers::read(&lines("k:éab")).unwrap();
    assert_eq!(h.get("k"), Some(&String::from("ab")));
}

#[test]
fn headers_read_fails_only_on_a_line_without_colon() {
    assert!(Headers::read(&lines("a:
b:é
c: ü

no colon")).is_ok());
    assert!(Headers::read(&lines("a: 1
no colon

c: 2")).is_err());
}

#[test]
fn headers_non_ascii_text_is_kept() {
    let h = Headers::read(&lines("Ключ: значение")).unwrap();
    assert_eq!(h.get("Ключ"), Some(&String::from("значение")));
}

#[test]
fn headers_later_duplicate_overwrites() {
    let h = Headers::read(&lines("A: 1\nA: 2")).unwrap();
    assert_eq!(h.len(), 1);
    assert_eq!(h.get("A"), Some(&String::from("2")));
}

#[test]
fn headers_keys_are_case_sensitive() {
    let h = Headers::from_pairs(vec![(String::from("content-length"), String::from("5"))]);
    assert_eq!(h.get_content_length(), None);
}

#[test]
fn headers_insert_keeps_byte_order() {
    let mut h = Headers::new();
    h.insert(String::from("b"), String::from("2"));
    h.insert(String::from("B"), String::from("1"));
    h.insert(String::from("a"), String::from("3"));
    let mut buffer = Vec::new();
    h.write(&mut buffer).unwrap();
    assert_eq!(buffer, b"B: 1\r\na: 3\r\nb: 2\r\n".to_vec());
}

#[test]
fn content_length_absent_is_none() {
    assert_eq!(Headers::new().get_content_length(), None);
}

#[test]
fn content_length_unparsable_is_zero() {
    for v in ["abc", "", "+", "-1", "1 ", "99999999999999999999999999"] {
        let h = Headers::from_pairs(vec![(String::from("Content-Length"), String::from(v))]);
        assert_eq!(h.get_content_length(), Some(0), "value {:?}", v);
    }
}

#[test]
fn content_length_accepts_plus_sign_and_leading_zeros() {
    let h = Headers::from_pairs(vec![(String::from("Content-Length"), String::from("+007"))]);
    assert_eq!(h.get_content_length(), Some(7));
}

#[test]
fn content_length_largest_value() {
    let mut h = Headers::new();
    h.set_content_length(usize::MAX);
    assert_eq!(h.get("Content-Length"), Some(&usize::MAX.to_string()));
    assert_eq!(h.get_content_length(), Some(usize::MAX));
    h.set_content_length(0);
    assert_eq!(h.get("Content-Length"), Some(&String::from("0")));
    assert_eq!(h.len(), 1);
}
