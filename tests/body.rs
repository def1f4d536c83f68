use std::str::FromStr;
use webserver::{Body, Error, Source};

const BODY_EXAMPLE: &str = "hello world";

fn setup_source() -> Source {
    Source::new(BODY_EXAMPLE.as_bytes().to_vec())
}

fn setup_body() -> Body {
    Body::from(Vec::from(BODY_EXAMPLE.as_bytes()))
}

#[test]
fn body_test_read() {
    assert_eq!(
        setup_body(),
        Body::read(&mut setup_source(), BODY_EXAMPLE.len()).unwrap()
    )
}

#[test]
#[should_panic(expected = "failed to fill whole buffer")]
fn test_read_panic_if_content_length_is_gt_than_read_from_buffer() {
    Body::read(&mut setup_source(), BODY_EXAMPLE.len() + 1).unwrap();
}

#[test]
fn body_test_write() {
    let mut buffer = Vec::new();
    setup_body().write(&mut buffer).unwrap();
    assert_eq!(
        format!("\r\n{}", BODY_EXAMPLE),
        String::from_utf8_lossy(&buffer).to_string()
    );
}

#[test]
fn test_len() {
    assert_eq!(11, setup_body().len())
}

#[test]
fn test_from_str() {
    assert_eq!(setup_body(), Body::from_str(BODY_EXAMPLE).unwrap())
}

#[test]
fn body_test_to_string() {
    assert_eq!(BODY_EXAMPLE, setup_body().to_string())
}

#[test]
fn body_read_short_source_is_io_error_and_reads_nothing() {
    let mut source = Source::new(b"abc".to_vec());
    let r = Body::read(&mut source, 4);
    assert_eq!(r, Err(Error::Io(String::from("failed to fill whole buffer"))));
    assert_eq!(source.remaining(), 3);
}

#[test]
fn body_read_takes_only_the_requested_bytes() {
    let mut source = Source::new(b"hello world".to_vec());
    let b = Body::read(&mut source, 5).unwrap();
    assert_eq!(b.as_bytes(), b"hello");
    assert_eq!(source.remaining(), 6);
}

#[test]
fn body_read_zero_bytes_from_empty_source() {
    let mut source = Source::new(Vec::new());
    let b = Body::read(&mut source, 0).unwrap();
    assert_eq!(b.len(), 0);
}

#[test]
fn body_write_of_empty_body_still_writes_separator() {
    let mut buffer = b"x".to_vec();
    Body::from(Vec::new()).write(&mut buffer).unwrap();
    assert_eq!(buffer, b"x\r\n".to_vec());
}

#[test]
fn body_to_string_replaces_invalid_utf8() {
    let b = Body::from(vec![0x61, 0xFF, 0x62]);
    assert_eq!(b.to_string(), "a\u{FFFD}b");
}

#[test]
fn body_from_text_keeps_utf8_bytes() {
    let b = Body::from_text("é");
    assert_eq!(b.as_bytes(), &[0xC3, 0xA9]);
    assert_eq!(b.to_string(), "é");
}

#[test]
fn source_reads_lines_then_exact_bytes() {
    let mut source = Source::new(b"ab\r\ncd\nrest".to_vec());
    assert_eq!(source.read_line(), b"ab\r\n".to_vec());
    assert_eq!(source.read_line(), b"cd\n".to_vec());
    assert_eq!(source.read_exact(2).unwrap(), b"re".to_vec());
    assert_eq!(source.read_line(), b"st".to_vec());
    assert_eq!(source.read_line(), Vec::<u8>::new());
}
