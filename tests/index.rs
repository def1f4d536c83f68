use webserver::index::{generate_file_response, generate_index_response, generate_not_found_page};
use webserver::{Body, StartLine, Status, Version};

#[test]
fn not_found_page_names_the_path() {
    let m = generate_not_found_page("/missing.txt");
    let expected = "\
<html>
    <head>
        <title>404 Not Found</title>
    </head>
    <body>
        <h2>Not Found</h2>

        <p>Requested file or directory '/missing.txt' could not be found.</p>
    </body>
</html>";
    assert_eq!(m.body(), &Some(Body::from_text(expected)));
    assert_eq!(m.headers().get("Content-Type"), Some(&String::from("text/html")));
    assert_eq!(m.headers().get_content_length(), Some(expected.len()));
    assert_eq!(
        m.start_line(),
        &StartLine::Response { version: Version::V1_1, status: Status::NotFound }
    );
}

#[test]
fn file_response_carries_the_bytes() {
    let m = generate_file_response(vec![0, 1, 2, 255]);
    assert_eq!(m.body(), &Some(Body::from(vec![0, 1, 2, 255])));
    assert_eq!(
        m.headers().get("Content-Type"),
        Some(&String::from("application/octet-stream"))
    );
    assert_eq!(m.headers().get_content_length(), Some(4));
}

#[test]
fn index_response_is_html() {
    let m = generate_index_response("<html></html>");
    let mut out = Vec::new();
    m.write(&mut out).unwrap();
    assert_eq!(
        out,
        b"HTTP/1.1 200 OK\r\nContent-Length: 13\r\nContent-Type: text/html\r\n\r\n<html></html>".to_vec()
    );
}
