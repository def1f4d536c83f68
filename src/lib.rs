//! An HTTP/1.x message model: requests parsed from a byte stream and messages
//! written back to bytes, with `Content-Length` framing of the body.

pub mod body;
pub mod decimal;
pub mod error;
pub mod headers;
pub mod index;
pub mod message;
pub mod method;
pub mod source;
pub mod start_line;
pub mod status;
pub mod text;
pub mod version;

pub use body::Body;
pub use error::Error;
pub use headers::Headers;
pub use message::{Demand, Message, MessageReader};
pub use method::Method;
pub use source::Source;
pub use start_line::StartLine;
pub use status::Status;
pub use version::Version;
