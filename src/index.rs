//! Responses of the file server: a missing path, a file, a directory index.
use crate::body::Body;
use crate::decimal::decimal_text;
use crate::headers::{content_length_key, insert_entry, EntryView, Headers};
use crate::message::Message;
use crate::start_line::StartLineView;
use crate::status::Status;
use crate::text::utf8;
use crate::version::Version;
use vstd::prelude::*;

verus! {

/// The page text before the requested path.
pub open spec fn not_found_head() -> Seq<char> {
    "<html>\n    <head>\n        <title>404 Not Found</title>\n    </head>\n    <body>\n        <h2>Not Found</h2>\n\n        <p>Requested file or directory '"@
}

/// The page text after the requested path.
pub open spec fn not_found_tail() -> Seq<char> {
    "' could not be found.</p>\n    </body>\n</html>"@
}

/// The fields of a response with content type `ct` and a body of `n` bytes.
pub open spec fn typed_fields(ct: Seq<char>, n: nat) -> Seq<EntryView> {
    insert_entry(
        insert_entry(Seq::empty(), "Content-Type"@, ct),
        content_length_key(),
        decimal_text(n),
    )
}

/// A response with `status`, content type `ct` and `body`.
fn typed_response(status: Status, ct: &str, body: Body) -> (m: Message)
    ensures
        m@.start_line == (StartLineView::Response { version: Version::V1_1, status }),
        m@.headers == typed_fields(ct@, body@.len()),
        m@.body == Some(body@),
{
    let mut h = Headers::new();
    let key = "Content-Type".to_owned();
    proof {
        reveal_strlit("Content-Type");
        assert(key@ =~= seq!['C', 'o', 'n', 't', 'e', 'n', 't', '-', 'T', 'y', 'p', 'e']);
    }
    h.insert(key, ct.to_owned());
    Message::new(status, Some(h), Some(body))
}

/// The 404 page for `relative_path`, as HTML.
pub fn generate_not_found_page(relative_path: &str) -> (m: Message)
    ensures
        m@.start_line == (StartLineView::Response {
            version: Version::V1_1,
            status: Status::NotFound,
        }),
        m@.body == Some(utf8(not_found_head() + relative_path@ + not_found_tail())),
        m@.headers == typed_fields(
            "text/html"@,
            utf8(not_found_head() + relative_path@ + not_found_tail()).len(),
        ),
{
    let head = "<html>\n    <head>\n        <title>404 Not Found</title>\n    </head>\n    <body>\n        <h2>Not Found</h2>\n\n        <p>Requested file or directory '".to_owned();
    let page = head.concat(relative_path).concat("' could not be found.</p>\n    </body>\n</html>");
    typed_response(Status::NotFound, "text/html", Body::from_text(page.as_str()))
}

/// A 200 response carrying a file's `contents` as an octet stream.
pub fn generate_file_response(contents: Vec<u8>) -> (m: Message)
    ensures
        m@.start_line == (StartLineView::Response { version: Version::V1_1, status: Status::Okay }),
        m@.body == Some(contents@),
        m@.headers == typed_fields("application/octet-stream"@, contents@.len()),
{
    typed_response(Status::Okay, "application/octet-stream", Body::from_bytes(contents))
}

/// A 200 response carrying a rendered directory index page.
pub fn generate_index_response(html: &str) -> (m: Message)
    ensures
        m@.start_line == (StartLineView::Response { version: Version::V1_1, status: Status::Okay }),
        m@.body == Some(utf8(html@)),
        m@.headers == typed_fields("text/html"@, utf8(html@).len()),
{
    typed_response(Status::Okay, "text/html", Body::from_text(html))
}

} // verus!
