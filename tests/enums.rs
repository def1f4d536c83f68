use webserver::{Error, Method, Status, Version};

#[test]
fn method_test_to_string() {
    assert_eq!(Method::Head.to_string(), String::from("HEAD"));
    assert_eq!(Method::Get.to_string(), String::from("GET"));
    assert_eq!(Method::Delete.to_string(), String::from("DELETE"));
    assert_eq!(Method::Post.to_string(), String::from("POST"));
    assert_eq!(Method::Patch.to_string(), String::from("PATCH"));
    assert_eq!(Method::Put.to_string(), String::from("PUT"));
    assert_eq!(Method::Connect.to_string(), String::from("CONNECT"));
    assert_eq!(Method::Trace.to_string(), String::from("TRACE"));
    assert_eq!(Method::Options.to_string(), String::from("OPTIONS"));
}

#[test]
fn version_test_to_string() {
    assert_eq!(Version::V0_9.to_string(), String::from("HTTP/0.9"));
    assert_eq!(Version::V1_0.to_string(), String::from("HTTP/1.0"));
    assert_eq!(Version::V1_1.to_string(), String::from("HTTP/1.1"));
    assert_eq!(Version::V2.to_string(), String::from("HTTP/2"));
    assert_eq!(Version::V3.to_string(), String::from("HTTP/3"));
}

#[test]
fn status_renders_code_and_reason() {
    assert_eq!(Status::Okay.to_string(), "200 OK");
    assert_eq!(Status::Accepted.to_string(), "202 Accepted");
    assert_eq!(Status::NotFound.to_string(), "404 Not Found");
    assert_eq!(Status::Okay.code(), 200);
    assert_eq!(Status::Accepted.code(), 202);
    assert_eq!(Status::NotFound.code(), 404);
}

#[test]
fn method_and_version_parse_their_tokens() {
    for m in [Method::Head, Method::Get, Method::Delete, Method::Post, Method::Patch,
              Method::Put, Method::Connect, Method::Trace, Method::Options] {
        assert_eq!(Method::parse(&m.to_string()), Ok(m));
    }
    for v in [Version::V0_9, Version::V1_0, Version::V1_1, Version::V2, Version::V3] {
        assert_eq!(Version::parse(&v.to_string()), Ok(v));
    }
}

#[test]
fn method_and_version_reject_other_tokens() {
    assert_eq!(
        Method::parse("Get"),
        Err(Error::MalformedRequestLine(String::from("couldn't parse given method: Get")))
    );
    assert_eq!(
        Version::parse("HTTP/1.1 "),
        Err(Error::MalformedRequestLine(String::from("couldn't parse given version: HTTP/1.1 ")))
    );
}
