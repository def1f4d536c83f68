use std::str::FromStr;
use webserver::{
    Body, Demand, Error, Headers, Message, MessageReader, Method, Source, StartLine, Status,
    Version,
};

fn read(text: &str) -> Result<Message, Error> {
    Message::read(&mut Source::new(text.as_bytes().to_vec()))
}

fn fields(pairs: &[(&str, &str)]) -> Headers {
    Headers::from_pairs(
        pairs
            .iter()
            .map(|(k, v)| (k.to_string(), v.to_string()))
            .collect(),
    )
}

fn get_root() -> StartLine {
    StartLine::Request {
        method: Method::Get,
        url: String::from("/"),
        version: Version::V1_1,
    }
}

#[test]
fn test_start_line_from_str() {
    assert_eq!(
        StartLine::Request {
            method: Method::Get,
            url: String::from("index.html"),
            version: Version::V1_1
        },
        "GET index.html HTTP/1.1".parse().unwrap()
    );
}

#[test]
#[should_panic(expected = "find the version")]
fn test_start_line_from_str_panic_if_missing_version() {
    StartLine::from_str("GET index.html").unwrap();
}

#[test]
#[should_panic(expected = "find the url")]
fn test_start_line_from_str_panic_if_missing_url() {
    StartLine::from_str("GET").unwrap();
}

#[test]
#[should_panic(expected = "find the method")]
fn test_start_line_from_str_panic_if_missing_everything() {
    StartLine::from_str("").unwrap();
}

#[test]
fn test_message_read_request_without_body() {
    let m = read(
        "\
GET / HTTP/1.1
Content-Type: text/plain
User-Agent: curl
",
    )
    .unwrap();
    assert_eq!(m.start_line(), &get_root());
    assert_eq!(
        m.headers(),
        &fields(&[("Content-Type", "text/plain"), ("User-Agent", "curl")])
    );
    assert_eq!(m.body(), &None);
}

#[test]
fn test_message_read_do_not_parse_beyond_headers_if_no_content_length_defined() {
    let m = read(
        "\
GET / HTTP/1.1
Content-Type: text/plain
User-Agent: curl

Test: Beyond empty line
",
    )
    .unwrap();
    assert_eq!(m.start_line(), &get_root());
    assert_eq!(
        m.headers(),
        &fields(&[("Content-Type", "text/plain"), ("User-Agent", "curl")])
    );
    assert_eq!(m.body(), &None);
}

#[test]
#[should_panic(expected = "parse headers")]
fn test_message_read_headers_parse_fail_malformed() {
    read(
        "\
GET / HTTP/1.1
Content-Type: text/plain
User-Agent: curl
Should failed since it misses a colon
",
    )
    .unwrap();
}

#[test]
fn test_message_read_headers_parse_fail_missing_value() {
    read(
        "\
GET / HTTP/1.1
Content-Type: text/plain
User-Agent:
",
    )
    .unwrap();
}

#[test]
fn test_message_read_request_with_body() {
    let m = read(
        "\
GET / HTTP/1.1
Content-Type: text/plain
User-Agent: curl
Content-Length: 11

hello world",
    )
    .unwrap();
    assert_eq!(m.start_line(), &get_root());
    assert_eq!(
        m.headers(),
        &fields(&[
            ("Content-Type", "text/plain"),
            ("User-Agent", "curl"),
            ("Content-Length", "11"),
        ])
    );
    assert_eq!(m.body(), &Some(Body::from_str("hello world").unwrap()));
}

#[test]
#[should_panic(expected = "parse given method")]
fn test_start_line_from_str_panic_if_wrong_method() {
    StartLine::from_str("GOT / HTTP/1.1").unwrap();
}

#[test]
fn start_line_errors_name_the_first_missing_field() {
    assert_eq!(
        StartLine::parse("GET index.html"),
        Err(Error::MalformedRequestLine(String::from("couldn't find the version")))
    );
    assert_eq!(
        StartLine::parse(""),
        Err(Error::MalformedRequestLine(String::from("couldn't find the method")))
    );
    assert_eq!(
        StartLine::parse("GOT"),
        Err(Error::MalformedRequestLine(String::from(
            "couldn't parse given method: GOT"
        )))
    );
    assert_eq!(
        StartLine::parse("GET / HTTP/9"),
        Err(Error::MalformedRequestLine(String::from(
            "couldn't parse given version: HTTP/9"
        )))
    );
}

#[test]
fn start_line_parse_is_case_sensitive_and_ignores_extra_tokens() {
    assert!(StartLine::parse("get / HTTP/1.1").is_err());
    assert_eq!(
        StartLine::parse("  PUT\t/x   HTTP/2 extra\r\n"),
        Ok(StartLine::Request {
            method: Method::Put,
            url: String::from("/x"),
            version: Version::V2
        })
    );
}

#[test]
fn start_line_render_then_parse_is_identity() {
    let methods = [
        Method::Head,
        Method::Get,
        Method::Delete,
        Method::Post,
        Method::Patch,
        Method::Put,
        Method::Connect,
        Method::Trace,
        Method::Options,
    ];
    let versions = [Version::V0_9, Version::V1_0, Version::V1_1, Version::V2, Version::V3];
    for m in methods {
        for v in versions {
            let line = StartLine::Request {
                method: m,
                url: String::from("/a/b?c=d"),
                version: v,
            };
            let text = line.to_string();
            let back = StartLine::parse(&text).unwrap();
            assert_eq!(back, line);
            assert_eq!(back.to_string(), text);
        }
    }
}

#[test]
fn start_line_renders_with_crlf() {
    let line = StartLine::Request {
        method: Method::Post,
        url: String::from("/form"),
        version: Version::V1_0,
    };
    assert_eq!(line.to_string(), "POST /form HTTP/1.0\r\n");
    let line = StartLine::Response {
        version: Version::V1_1,
        status: Status::NotFound,
    };
    assert_eq!(line.to_string(), "HTTP/1.1 404 Not Found\r\n");
}

#[test]
fn message_read_sample_stream() {
    let m = read("GET / HTTP/1.1\r\nContent-Type: text/plain\r\nContent-Length: 11\r\n\r\nhello world")
        .unwrap();
    assert_eq!(m.start_line(), &get_root());
    assert_eq!(
        m.headers(),
        &fields(&[("Content-Type", "text/plain"), ("Content-Length", "11")])
    );
    assert_eq!(m.body(), &Some(Body::from_text("hello world")));
}

#[test]
fn message_read_then_write_gives_back_the_bytes() {
    let text = "PUT /up HTTP/1.1\r\nContent-Length: 5\r\nContent-Type: text/plain\r\nX: \r\n\r\nab\ncd";
    let m = read(text).unwrap();
    let mut out = Vec::new();
    m.write(&mut out).unwrap();
    assert_eq!(out, text.as_bytes().to_vec());
}

#[test]
fn message_read_leaves_bytes_after_the_body() {
    let mut source = Source::new(b"GET / HTTP/1.1\r\nContent-Length: 2\r\n\r\nabcd".to_vec());
    let m = Message::read(&mut source).unwrap();
    assert_eq!(m.body(), &Some(Body::from_text("ab")));
    assert_eq!(source.remaining(), 2);
}

#[test]
fn message_read_short_body_is_io_error() {
    let r = read("GET / HTTP/1.1\r\nContent-Length: 20\r\n\r\nshort");
    assert_eq!(r, Err(Error::Io(String::from("failed to fill whole buffer"))));
}

#[test]
fn message_read_empty_stream_has_no_request_line() {
    assert_eq!(
        read(""),
        Err(Error::MalformedRequestLine(String::from("couldn't find request line")))
    );
}

#[test]
fn message_read_invalid_utf8_line_is_io_error() {
    let r = Message::read(&mut Source::new(b"GET / HTTP/1.1\r\nA: \xFF\r\n\r\n".to_vec()));
    assert_eq!(
        r,
        Err(Error::Io(String::from("stream did not contain valid UTF-8")))
    );
}

#[test]
fn message_read_headers_end_at_end_of_stream() {
    let m = read("GET / HTTP/1.1\r\nContent-Length: 0").unwrap();
    assert_eq!(m.body(), &Some(Body::from(Vec::new())));
}

#[test]
fn message_read_unparsable_content_length_means_empty_body() {
    let m = read("GET / HTTP/1.1\r\nContent-Length: lots\r\n\r\nxyz").unwrap();
    assert_eq!(m.body(), &Some(Body::from(Vec::new())));
}

#[test]
fn message_new_sets_content_length() {
    let m = Message::new(Status::Okay, None, Some(Body::from_str("hello world").unwrap()));
    assert_eq!(m.headers().get("Content-Length"), Some(&String::from("11")));
    assert_eq!(m.headers().get_content_length(), Some(11));
    assert_eq!(m.body(), &Some(Body::from_text("hello world")));
    assert_eq!(
        m.start_line(),
        &StartLine::Response {
            version: Version::V1_1,
            status: Status::Okay
        }
    );
}

#[test]
fn message_new_overwrites_given_content_length() {
    let h = fields(&[("Content-Length", "999"), ("Content-Type", "text/html")]);
    let m = Message::new(Status::Accepted, Some(h), Some(Body::from_text("abc")));
    assert_eq!(m.headers().get_content_length(), Some(3));
    assert_eq!(m.headers().len(), 2);
}

#[test]
fn message_new_without_body_keeps_headers() {
    let m = Message::new(Status::NotFound, None, None);
    assert_eq!(m.headers(), &Headers::new());
    assert_eq!(m.body(), &None);
    let mut out = Vec::new();
    m.write(&mut out).unwrap();
    assert_eq!(out, b"HTTP/1.1 404 Not Found\r\n".to_vec());
}

#[test]
fn message_write_response() {
    let m = Message::new(Status::Okay, None, Some(Body::from_text("hi")));
    let mut out = Vec::new();
    m.write(&mut out).unwrap();
    assert_eq!(out, b"HTTP/1.1 200 OK\r\nContent-Length: 2\r\n\r\nhi".to_vec());
}

#[test]
fn message_reader_steps() {
    let mut r = MessageReader::new();
    assert_eq!(r.feed_line(b"GET /x HTTP/1.1\r\n"), Ok(Demand::Line));
    assert_eq!(r.feed_line(b"Content-Length: 3\n"), Ok(Demand::Line));
    assert_eq!(r.feed_line(b"\r\n"), Ok(Demand::Body(3)));
    let m = r.finish(Some(Body::from_text("abc")));
    assert_eq!(m.headers().get_content_length(), Some(3));
    let mut r = MessageReader::new();
    assert_eq!(r.feed_line(b"GET /x HTTP/1.1\r\n"), Ok(Demand::Line));
    assert_eq!(r.feed_line(b""), Ok(Demand::Complete));
    let mut r = MessageReader::new();
    assert!(matches!(r.feed_line(b""), Err(Error::MalformedRequestLine(_))));
}
