//! The message body: raw bytes of a known length.
use crate::error::{Error, ErrorView};
use crate::source::{short_read_message, Source};
use crate::text::{push_all, utf8};
use vstd::prelude::*;
use vstd::utf8::{decode_utf8, valid_utf8};

verus! {

/// Carriage return and line feed, the separator written before a body.
pub open spec fn crlf() -> Seq<u8> {
    seq![0x0Du8, 0x0Au8]
}

/// The text that `String::from_utf8_lossy` makes of `b`: invalid sequences
/// become U+FFFD.
pub uninterp spec fn lossy_text(b: Seq<u8>) -> Seq<char>;

/// Relies on `String::from_utf8_lossy`: valid UTF-8 is decoded unchanged, and
/// anything else is decoded with replacement characters.
#[verifier::external_body]
fn lossy_string(b: &[u8]) -> (r: String)
    ensures
        r@ == lossy_text(b@),
        valid_utf8(b@) ==> r@ == decode_utf8(b@),
{
    String::from_utf8_lossy(b).into_owned()
}

/// A message body: an owned byte buffer.
#[derive(Debug, PartialEq, Eq)]
pub struct Body(Vec<u8>);

impl View for Body {
    type V = Seq<u8>;

    closed spec fn view(&self) -> Seq<u8> {
        self.0@
    }
}

impl Body {
    /// Reads exactly `content_length` bytes from `source`. A source with fewer
    /// bytes left fails with `Io` and is left as it was.
    pub fn read(source: &mut Source, content_length: usize) -> (r: Result<Body, Error>)
        ensures
            content_length <= old(source)@.len() ==> (r matches Ok(b) && b@ == old(source)@.subrange(
                0,
                content_length as int,
            ) && final(source)@ == old(source)@.subrange(
                content_length as int,
                old(source)@.len() as int,
            )),
            content_length > old(source)@.len() ==> (r matches Err(e) && e@ == ErrorView::Io(
                short_read_message(),
            ) && final(source)@ == old(source)@),
    {
        match source.read_exact(content_length) {
            Ok(bytes) => Ok(Body(bytes)),
            Err(e) => Err(e),
        }
    }

    /// Writes the header/body separator (CR LF), then the bytes.
    pub fn write(&self, out: &mut Vec<u8>) -> (r: Result<(), Error>)
        ensures
            r is Ok,
            final(out)@ == old(out)@ + crlf() + self@,
    {
        out.push(0x0D);
        out.push(0x0A);
        push_all(out, self.0.as_slice());
        proof {
            assert(old(out)@.push(0x0Du8).push(0x0Au8) =~= old(out)@ + crlf());
        }
        Ok(())
    }

    /// The number of bytes.
    pub fn len(&self) -> (n: usize)
        ensures
            n == self@.len(),
    {
        self.0.len()
    }

    /// The bytes.
    pub fn as_bytes(&self) -> (b: &[u8])
        ensures
            b@ == self@,
    {
        self.0.as_slice()
    }

    /// A body holding `bytes`.
    pub fn from_bytes(bytes: Vec<u8>) -> (b: Body)
        ensures
            b@ == bytes@,
    {
        Body(bytes)
    }

    /// A body holding the UTF-8 form of `s`.
    pub fn from_text(s: &str) -> (b: Body)
        ensures
            b@ == utf8(s@),
    {
        let bytes = s.as_bytes();
        let mut v: Vec<u8> = Vec::new();
        push_all(&mut v, bytes);
        Body(v)
    }

    /// The bytes read as UTF-8 text, invalid sequences replaced.
    pub fn to_string(&self) -> (s: String)
        ensures
            s@ == lossy_text(self@),
            valid_utf8(self@) ==> s@ == decode_utf8(self@),
    {
        lossy_string(self.0.as_slice())
    }
}

impl From<Vec<u8>> for Body {
    fn from(bytes: Vec<u8>) -> (b: Body) {
        Body(bytes)
    }
}

impl vstd::std_specs::convert::FromSpecImpl<Vec<u8>> for Body {
    open spec fn obeys_from_spec() -> bool {
        true
    }

    closed spec fn from_spec(bytes: Vec<u8>) -> Body {
        Body(bytes)
    }
}

impl std::str::FromStr for Body {
    type Err = Error;

    fn from_str(s: &str) -> Result<Body, Error> {
        Ok(Body::from_text(s))
    }
}

} // verus!
