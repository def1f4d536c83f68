//! Whole messages: read from a byte stream line by line and then by exact
//! count, and written back in the same layout.
use crate::body::{crlf, Body};
use crate::decimal::{decimal_text, lemma_ascii_utf8};
use crate::error::{Error, ErrorView};
use crate::headers::{
    content_length_key, content_length_of, entries_bytes, entry_bytes, insert_entry,
    after_first_char, lemma_entries_bytes_concat, lemma_first_index_skip, lemma_insert_entry_at, lookup,
    parse_header_line, sorted_keys, EntryView, Headers,
};
use crate::method::Method;
use crate::source::{
    lemma_raw_line_len_bounds, lemma_raw_line_len_skip, raw_line_len, short_read_message, Source,
};
use crate::start_line::{
    is_space_char, lemma_request_bytes, lemma_start_line_round_trip, lemma_utf8_no_space,
    parse_start_line, render_start_line, start_line_text, StartLine, StartLineView,
};
use crate::status::Status;
use crate::text::{copy_range, lemma_utf8_lacks_byte, push_all, string_from_utf8, text_lt, utf8};
use crate::version::Version;
use vstd::prelude::*;
use vstd::utf8::{decode_utf8_encode_utf8, valid_utf8, valid_utf8_concat};
verus! {

broadcast use vstd::utf8::encode_utf8_valid_utf8, vstd::utf8::encode_utf8_decode_utf8;

/// A line as `BufRead::lines` yields it: without its final line feed, nor a
/// carriage return just before that line feed.
pub open spec fn strip_line_end(raw: Seq<u8>) -> Seq<u8> {
    if raw.len() > 0 && raw.last() == 0x0A {
        let l = raw.drop_last();
        if l.len() > 0 && l.last() == 0x0D {
            l.drop_last()
        } else {
            l
        }
    } else {
        raw
    }
}

/// What a [`MessageReader`] needs next from the stream.
#[derive(Debug, Clone, Copy, PartialEq, Eq, Structural)]
pub enum Demand {
    /// The next line, with its line feed (empty at the end of the stream).
    Line,
    /// Exactly this many body bytes.
    Body(usize),
    /// Nothing: the message has no body.
    Complete,
}

/// The state of a [`MessageReader`]: the start line once read, and the
/// header fields read so far.
pub struct ReaderView {
    pub start_line: Option<StartLineView>,
    pub headers: Seq<EntryView>,
}

/// A message as values: start line, header fields in key order, and body.
pub struct MessageView {
    pub start_line: StartLineView,
    pub headers: Seq<EntryView>,
    pub body: Option<Seq<u8>>,
}

/// The reader's state before any line.
pub open spec fn initial_reader() -> ReaderView {
    ReaderView { start_line: None, headers: Seq::empty() }
}

/// The diagnostic for a stream that ends before the request line.
pub open spec fn no_request_line_message() -> Seq<char> {
    "couldn't find request line"@
}

/// The diagnostic for a line that is not UTF-8 text.
pub open spec fn not_text_line_message() -> Seq<char> {
    "stream did not contain valid UTF-8"@
}

/// What follows the header block: the body that `Content-Length` declares,
/// or nothing without that field.
pub open spec fn body_demand(h: Seq<EntryView>) -> Demand {
    match lookup(h, content_length_key()) {
        Some(v) => Demand::Body(content_length_of(v) as usize),
        None => Demand::Complete,
    }
}

/// One step of reading: the reader in state `s` takes the raw line `raw`
/// (empty at the end of the stream). The first line is the request line;
/// each later one is a header line, until an empty line (or the end) closes
/// the header block.
pub open spec fn step(s: ReaderView, raw: Seq<u8>) -> Result<(ReaderView, Demand), ErrorView> {
    let line = strip_line_end(raw);
    match s.start_line {
        None => if raw.len() == 0 {
            Err(ErrorView::MalformedRequestLine(no_request_line_message()))
        } else if !valid_utf8(line) {
            Err(ErrorView::Io(not_text_line_message()))
        } else {
            match parse_start_line(line) {
                Ok(sl) => Ok((ReaderView { start_line: Some(sl), headers: s.headers }, Demand::Line)),
                Err(e) => Err(e),
            }
        },
        Some(_) => if line.len() == 0 {
            Ok((s, body_demand(s.headers)))
        } else if !valid_utf8(line) {
            Err(ErrorView::Io(not_text_line_message()))
        } else {
            match parse_header_line(line) {
                Ok(e) => Ok(
                    (
                        ReaderView {
                            start_line: s.start_line,
                            headers: insert_entry(s.headers, e.0, e.1),
                        },
                        Demand::Line,
                    ),
                ),
                Err(e) => Err(e),
            }
        },
    }
}

/// The message a reader in state `s` completes with `body`.
pub open spec fn complete(s: ReaderView, body: Option<Seq<u8>>) -> MessageView {
    MessageView { start_line: s.start_line->Some_0, headers: s.headers, body }
}

#[via_fn]
proof fn read_from_decreases(s: ReaderView, b: Seq<u8>) {
    lemma_raw_line_len_bounds(b);
    if b.len() == 0 {
        assert(b.subrange(0, 0) =~= Seq::<u8>::empty());
    }
}

/// Reading a message from the bytes `b` with the reader in state `s`: the
/// outcome, and the bytes left unread. Lines are taken until the header
/// block closes; then exactly the declared number of body bytes is taken
/// from the same bytes; anything after is left.
pub open spec fn read_from(s: ReaderView, b: Seq<u8>) -> (Result<MessageView, ErrorView>, Seq<u8>)
    decreases b.len(),
    via read_from_decreases
{
    let n = raw_line_len(b) as int;
    let rest = b.subrange(n, b.len() as int);
    match step(s, b.subrange(0, n)) {
        Err(e) => (Err(e), rest),
        Ok((s2, Demand::Line)) => read_from(s2, rest),
        Ok((s2, Demand::Body(k))) => if k <= rest.len() {
            (Ok(complete(s2, Some(rest.subrange(0, k as int)))), rest.subrange(k as int, rest.len() as int))
        } else {
            (Err(ErrorView::Io(short_read_message())), rest)
        },
        Ok((s2, Demand::Complete)) => (Ok(complete(s2, None)), rest),
    }
}

/// Reading a message from the start of `b`.
pub open spec fn read_message(b: Seq<u8>) -> (Result<MessageView, ErrorView>, Seq<u8>) {
    read_from(initial_reader(), b)
}

/// Once the request line is read, an empty line ends the header block: the
/// message read then has exactly the fields read before it, and the lines
/// after it are never read as header lines (they are body bytes, or left
/// unread).
pub proof fn lemma_blank_line_ends_fields(s: ReaderView, b: Seq<u8>)
    requires
        s.start_line is Some,
        strip_line_end(b.subrange(0, raw_line_len(b) as int)).len() == 0,
    ensures
        read_from(s, b).0 matches Ok(m) ==> m.headers == s.headers,
        body_demand(s.headers) == Demand::Complete ==> read_from(s, b) == (
            Ok::<MessageView, ErrorView>(complete(s, None)),
            b.subrange(raw_line_len(b) as int, b.len() as int),
        ),
{
}

/// A message as written: start line, header lines, then (with a body) CR LF
/// and the body bytes.
pub open spec fn message_bytes(m: MessageView) -> Seq<u8> {
    utf8(render_start_line(m.start_line)) + entries_bytes(m.headers) + match m.body {
        Some(b) => crlf() + b,
        None => Seq::empty(),
    }
}

/// A field that survives being written and read back: its key has no colon
/// and neither key nor value has a line feed.
pub open spec fn plain_field(e: EntryView) -> bool {
    &&& forall|i: int| 0 <= i < e.0.len() ==> (#[trigger] e.0[i]) as u32 != 0x3A
    &&& forall|i: int| 0 <= i < e.0.len() ==> (#[trigger] e.0[i]) as u32 != 0x0A
    &&& forall|i: int| 0 <= i < e.1.len() ==> (#[trigger] e.1[i]) as u32 != 0x0A
}

proof fn lemma_raw_line_len_crlf(x: Seq<u8>)
    requires
        x.len() >= 2,
        x[0] == 0x0D,
        x[1] == 0x0A,
    ensures
        raw_line_len(x) == 2,
{
    assert(x.drop_first()[0] == 0x0A);
    assert(raw_line_len(x.drop_first()) == 1);
}

/// The raw line at the start of `line + CR LF + tail`, when `line` has no
/// line feed, is `line + CR LF`, and it reads as `line`.
proof fn lemma_first_line(line: Seq<u8>, tail: Seq<u8>)
    requires
        forall|j: int| 0 <= j < line.len() ==> line[j] != 0x0A,
    ensures
        raw_line_len(line + crlf() + tail) == line.len() as int + 2,
        (line + crlf() + tail).subrange(0, line.len() as int + 2) == line + crlf(),
        (line + crlf() + tail).subrange(line.len() as int + 2, (line + crlf() + tail).len() as int) == tail,
        strip_line_end(line + crlf()) == line,
{
    let b = line + crlf() + tail;
    assert forall|j: int| 0 <= j < line.len() implies b[j] != 0x0A by {
        assert(b[j] == line[j]);
    }
    lemma_raw_line_len_skip(b, line.len() as int);
    let after = b.subrange(line.len() as int, b.len() as int);
    assert(after[0] == 0x0D && after[1] == 0x0A);
    lemma_raw_line_len_crlf(after);
    assert(b.subrange(0, line.len() as int + 2) =~= line + crlf());
    assert(b.subrange(line.len() as int + 2, b.len() as int) =~= tail);
    assert((line + crlf()).drop_last() =~= line.push(0x0D));
    assert(line.push(0x0D).drop_last() =~= line);
}

/// Reading one written header line: the reader gains the field and goes on
/// with the next line.
proof fn lemma_read_field_line(sl: StartLineView, hs: Seq<EntryView>, e: EntryView, tail: Seq<u8>)
    requires
        plain_field(e),
        forall|j: int| 0 <= j < hs.len() ==> text_lt(#[trigger] hs[j].0, e.0),
    ensures
        read_from(ReaderView { start_line: Some(sl), headers: hs }, entry_bytes(e) + tail)
            == read_from(ReaderView { start_line: Some(sl), headers: hs.push(e) }, tail),
{
    let kb = utf8(e.0);
    let vb = utf8(e.1);
    let sep = seq![0x3Au8, 0x20u8];
    let line = kb + sep + vb;
    assert(entry_bytes(e) + tail =~= line + crlf() + tail);
    lemma_utf8_lacks_byte(e.0, 0x0A);
    lemma_utf8_lacks_byte(e.0, 0x3A);
    lemma_utf8_lacks_byte(e.1, 0x0A);
    assert forall|j: int| 0 <= j < line.len() implies line[j] != 0x0A by {
        if j < kb.len() {
            assert(line[j] == kb[j]);
        } else if j >= kb.len() + 2 {
            assert(line[j] == vb[j - kb.len() - 2]);
        }
    }
    lemma_first_line(line, tail);
    lemma_ascii_utf8(sep);
    valid_utf8_concat(kb, sep);
    valid_utf8_concat(kb + sep, vb);
    assert(line.len() > 0);
    lemma_first_index_skip(line, 0x3A, kb.len() as int);
    assert(line[kb.len() as int] == 0x3A);
    assert(line.subrange(kb.len() as int, line.len() as int)[0] == 0x3A);
    assert(line.subrange(0, kb.len() as int) =~= kb);
    let after = line.subrange(kb.len() as int + 1, line.len() as int);
    assert(after =~= seq![0x20u8] + vb);
    assert(after[0] == 0x20);
    assert(after_first_char(after) =~= vb);
    assert(parse_header_line(line) == Ok::<EntryView, ErrorView>((e.0, e.1)));
    lemma_insert_entry_at(hs, e.0, e.1, hs.len() as int);
    assert(hs.insert(hs.len() as int, (e.0, e.1)) =~= hs.push(e));
}

/// Reading the written header lines of `hs[i..]` after those of `hs[..i]`
/// were read leaves the reader holding all of `hs`.
proof fn lemma_read_field_lines(sl: StartLineView, hs: Seq<EntryView>, i: int, tail: Seq<u8>)
    requires
        0 <= i <= hs.len(),
        sorted_keys(hs),
        forall|j: int| 0 <= j < hs.len() ==> plain_field(#[trigger] hs[j]),
    ensures
        read_from(
            ReaderView { start_line: Some(sl), headers: hs.subrange(0, i) },
            entries_bytes(hs.subrange(i, hs.len() as int)) + tail,
        ) == read_from(ReaderView { start_line: Some(sl), headers: hs }, tail),
    decreases hs.len() - i,
{
    if i == hs.len() {
        assert(hs.subrange(0, i) =~= hs);
        assert(hs.subrange(i, hs.len() as int) =~= Seq::<EntryView>::empty());
        assert(entries_bytes(Seq::<EntryView>::empty()) + tail =~= tail);
    } else {
        let e = hs[i];
        let one = seq![e];
        let later = hs.subrange(i + 1, hs.len() as int);
        assert(hs.subrange(i, hs.len() as int) =~= one + later);
        lemma_entries_bytes_concat(one, later);
        assert(one.drop_last() =~= Seq::<EntryView>::empty());
        assert(one.last() == e);
        assert(entries_bytes(Seq::<EntryView>::empty()) =~= Seq::<u8>::empty());
        assert(entries_bytes(one) =~= entry_bytes(e));
        let pre = hs.subrange(0, i);
        assert forall|j: int| 0 <= j < pre.len() implies text_lt(#[trigger] pre[j].0, e.0) by {
            assert(pre[j] == hs[j]);
        }
        lemma_read_field_line(sl, pre, e, entries_bytes(later) + tail);
        assert(entry_bytes(e) + (entries_bytes(later) + tail) =~= entries_bytes(
            hs.subrange(i, hs.len() as int),
        ) + tail);
        assert(pre.push(e) =~= hs.subrange(0, i + 1));
        lemma_read_field_lines(sl, hs, i + 1, tail);
    }
}

/// Reading a written request line leaves the reader holding it.
proof fn lemma_read_request_line(method: Method, url: Seq<char>, version: Version, rest: Seq<u8>)
    requires
        url.len() > 0,
        forall|i: int| 0 <= i < url.len() ==> !is_space_char(#[trigger] url[i]),
    ensures
        ({
            let sl = StartLineView::Request { method, url, version };
            read_message(utf8(render_start_line(sl)) + rest) == read_from(
                ReaderView { start_line: Some(sl), headers: Seq::empty() },
                rest,
            )
        }),
{
    let sl = StartLineView::Request { method, url, version };
    let text = utf8(start_line_text(sl));
    lemma_request_bytes(method, url, version);
    lemma_start_line_round_trip(method, url, version);
    method.lemma_token_ascii();
    version.lemma_token_ascii();
    let mt = method.token();
    let vt = version.token();
    assert forall|i: int| 0 <= i < mt.len() implies !is_space_char(#[trigger] mt[i]) by {}
    assert forall|i: int| 0 <= i < vt.len() implies !is_space_char(#[trigger] vt[i]) by {}
    lemma_utf8_no_space(mt);
    lemma_utf8_no_space(vt);
    lemma_utf8_no_space(url);
    let mb = utf8(mt);
    let ub = utf8(url);
    let vb = utf8(vt);
    assert forall|j: int| 0 <= j < text.len() implies text[j] != 0x0A by {
        if j < mb.len() {
            assert(text[j] == mb[j]);
        } else if mb.len() < j < mb.len() + 1 + ub.len() {
            assert(text[j] == ub[j - mb.len() - 1]);
        } else if mb.len() + 1 + ub.len() < j {
            assert(text[j] == vb[j - mb.len() - 2 - ub.len()]);
        }
    }
    lemma_first_line(text, rest);
    assert(utf8(render_start_line(sl)) + rest == text + crlf() + rest);
}

/// Reading the blank line and the body that `Content-Length` declares
/// completes the message, with nothing left over.
proof fn lemma_read_body(sl: StartLineView, headers: Seq<EntryView>, body: Seq<u8>)
    requires
        lookup(headers, content_length_key()) matches Some(v) && content_length_of(v) == body.len(),
    ensures
        read_from(ReaderView { start_line: Some(sl), headers }, crlf() + body) == (
            Ok::<MessageView, ErrorView>(
                MessageView { start_line: sl, headers, body: Some(body) },
            ),
            Seq::<u8>::empty(),
        ),
{
    lemma_first_line(Seq::empty(), body);
    assert(Seq::<u8>::empty() + crlf() + body =~= crlf() + body);
    assert(Seq::<u8>::empty() + crlf() =~= crlf());
    assert(body.subrange(0, body.len() as int) =~= body);
    assert(body.subrange(body.len() as int, body.len() as int) =~= Seq::<u8>::empty());
}

/// Reading a request written in the layout that `Message::write` produces
/// (single spaces in the request line, a URL without whitespace, fields in
/// key order with plain keys and values, and a `Content-Length` that matches
/// the body) gives back that request with nothing left over. So for such
/// bytes, writing the message read gives back the same bytes.
pub proof fn lemma_read_write_round_trip(
    method: Method,
    url: Seq<char>,
    version: Version,
    headers: Seq<EntryView>,
    body: Seq<u8>,
)
    requires
        url.len() > 0,
        forall|i: int| 0 <= i < url.len() ==> !is_space_char(#[trigger] url[i]),
        sorted_keys(headers),
        forall|j: int| 0 <= j < headers.len() ==> plain_field(#[trigger] headers[j]),
        lookup(headers, content_length_key()) matches Some(v) && content_length_of(v) == body.len(),
    ensures
        ({
            let m = MessageView {
                start_line: StartLineView::Request { method, url, version },
                headers,
                body: Some(body),
            };
            &&& read_message(message_bytes(m)) == (
                Ok::<MessageView, ErrorView>(m),
                Seq::<u8>::empty(),
            )
            &&& message_bytes(read_message(message_bytes(m)).0->Ok_0) == message_bytes(m)
        }),
{
    let sl = StartLineView::Request { method, url, version };
    let m = MessageView { start_line: sl, headers, body: Some(body) };
    let after = crlf() + body;
    let rest = entries_bytes(headers) + after;
    assert(message_bytes(m) =~= utf8(render_start_line(sl)) + rest);
    lemma_read_request_line(method, url, version, rest);
    lemma_read_field_lines(sl, headers, 0, after);
    assert(headers.subrange(0, 0) =~= Seq::<EntryView>::empty());
    assert(headers.subrange(0, headers.len() as int) =~= headers);
    lemma_read_body(sl, headers, body);
}

/// Decides, line by line, how a message is read; the caller brings the lines
/// and the body bytes from wherever the message comes from.
pub struct MessageReader {
    start_line: Option<StartLine>,
    headers: Headers,
}

impl View for MessageReader {
    type V = ReaderView;

    closed spec fn view(&self) -> ReaderView {
        ReaderView {
            start_line: match self.start_line {
                Some(sl) => Some(sl@),
                None => None,
            },
            headers: self.headers@,
        }
    }
}

impl MessageReader {
    /// The header fields are kept sorted.
    pub closed spec fn wf(&self) -> bool {
        self.headers.wf()
    }

    /// A reader that expects the request line.
    pub fn new() -> (r: MessageReader)
        ensures
            r.wf(),
            r@ == initial_reader(),
    {
        MessageReader { start_line: None, headers: Headers::new() }
    }

    /// Takes the next raw line (with its line feed; empty at the end of the
    /// stream) and says what is needed next.
    pub fn feed_line(&mut self, raw: &[u8]) -> (r: Result<Demand, Error>)
        requires
            old(self).wf(),
        ensures
            final(self).wf(),
            match step(old(self)@, raw@) {
                Ok((s, d)) => r == Ok::<Demand, Error>(d) && final(self)@ == s,
                Err(e) => r matches Err(x) && x@ == e,
            },
    {
        let mut end = raw.len();
        if end > 0 && raw[end - 1] == 0x0A {
            end -= 1;
            if end > 0 && raw[end - 1] == 0x0D {
                end -= 1;
            }
        }
        let ghost line = strip_line_end(raw@);
        assert(line =~= raw@.subrange(0, end as int));
        let is_first = self.start_line.is_none();
        if !is_first && end == 0 {
            return match self.headers.get_content_length() {
                Some(n) => Ok(Demand::Body(n)),
                None => Ok(Demand::Complete),
            };
        }
        if is_first && raw.len() == 0 {
            return Err(Error::MalformedRequestLine("couldn't find request line".to_owned()));
        }
        let bytes = copy_range(raw, 0, end);
        let text = match string_from_utf8(bytes) {
            Some(t) => t,
            None => return Err(Error::Io("stream did not contain valid UTF-8".to_owned())),
        };
        proof {
            decode_utf8_encode_utf8(line);
        }
        if is_first {
            match StartLine::parse(text.as_str()) {
                Ok(sl) => {
                    self.start_line = Some(sl);
                    Ok(Demand::Line)
                },
                Err(e) => Err(e),
            }
        } else {
            match self.headers.add_line(text.as_str()) {
                Ok(()) => Ok(Demand::Line),
                Err(e) => Err(e),
            }
        }
    }

    /// The message read, with `body`. The request line must have been read,
    /// as it has once `feed_line` asked for a body or reported completion.
    pub fn finish(self, body: Option<Body>) -> (m: Message)
        requires
            self@.start_line is Some,
        ensures
            m@ == complete(
                self@,
                match body {
                    Some(b) => Some(b@),
                    None => None,
                },
            ),
    {
        Message { start_line: self.start_line.unwrap(), headers: self.headers, body }
    }
}

/// A whole message: start line, header fields, optional body.
#[derive(Debug, PartialEq, Eq)]
pub struct Message {
    start_line: StartLine,
    headers: Headers,
    body: Option<Body>,
}

impl View for Message {
    type V = MessageView;

    closed spec fn view(&self) -> MessageView {
        MessageView {
            start_line: self.start_line@,
            headers: self.headers@,
            body: match self.body {
                Some(b) => Some(b@),
                None => None,
            },
        }
    }
}

impl Message {
    /// Reads one message from `source`: the request line, header lines up to
    /// the first empty line, then exactly `Content-Length` bytes of body when
    /// that field is present. Bytes after the body stay in `source`.
    pub fn read(source: &mut Source) -> (r: Result<Message, Error>)
        ensures
            match read_message(old(source)@).0 {
                Ok(m) => r matches Ok(msg) && msg@ == m,
                Err(e) => r matches Err(x) && x@ == e,
            },
            final(source)@ == read_message(old(source)@).1,
    {
        let mut reader = MessageReader::new();
        loop
            invariant
                reader.wf(),
                read_from(reader@, source@) == read_message(old(source)@),
            decreases source@.len(),
        {
            let ghost b = source@;
            let raw = source.read_line();
            proof {
                lemma_raw_line_len_bounds(b);
            }
            match reader.feed_line(raw.as_slice()) {
                Err(e) => {
                    return Err(e);
                },
                Ok(Demand::Line) => {
                    proof {
                        if b.len() == 0 {
                            assert(raw@ =~= Seq::<u8>::empty());
                        }
                    }
                },
                Ok(Demand::Body(n)) => {
                    return match Body::read(source, n) {
                        Ok(body) => Ok(reader.finish(Some(body))),
                        Err(e) => Err(e),
                    };
                },
                Ok(Demand::Complete) => {
                    return Ok(reader.finish(None));
                },
            }
        }
    }

    /// Writes the start line, the header lines and, when there is a body,
    /// CR LF and the body.
    pub fn write(&self, out: &mut Vec<u8>) -> (r: Result<(), Error>)
        ensures
            r is Ok,
            final(out)@ == old(out)@ + message_bytes(self@),
    {
        let line = self.start_line.to_string();
        push_all(out, line.as_str().as_bytes());
        let _ = self.headers.write(out);
        match &self.body {
            Some(b) => {
                let _ = b.write(out);
            },
            None => {},
        }
        proof {
            assert(final(out)@ =~= old(out)@ + message_bytes(self@));
        }
        Ok(())
    }

    /// A response at HTTP/1.1 with `status`. With a body, `Content-Length`
    /// is set to its length, replacing any value the headers held.
    pub fn new(status: Status, headers: Option<Headers>, body: Option<Body>) -> (m: Message)
        requires
            headers matches Some(h) ==> h.wf(),
        ensures
            m@.start_line == (StartLineView::Response { version: Version::V1_1, status }),
            m@.headers == match (headers, body) {
                (Some(h), Some(b)) => insert_entry(h@, content_length_key(), decimal_text(b@.len())),
                (None, Some(b)) => insert_entry(Seq::empty(), content_length_key(), decimal_text(b@.len())),
                (Some(h), None) => h@,
                (None, None) => Seq::empty(),
            },
            m@.body == match body {
                Some(b) => Some(b@),
                None => None,
            },
    {
        let mut h = match headers {
            Some(h) => h,
            None => Headers::new(),
        };
        match &body {
            Some(b) => h.set_content_length(b.len()),
            None => {},
        }
        Message {
            start_line: StartLine::Response { version: Version::V1_1, status },
            headers: h,
            body,
        }
    }

    /// The start line.
    pub fn start_line(&self) -> (r: &StartLine)
        ensures
            r@ == self@.start_line,
    {
        &self.start_line
    }

    /// The header fields.
    pub fn headers(&self) -> (r: &Headers)
        ensures
            r@ == self@.headers,
    {
        &self.headers
    }

    /// The body, if any.
    pub fn body(&self) -> (r: &Option<Body>)
        ensures
            r matches Some(b) ==> self@.body == Some(b@),
            r is None ==> self@.body is None,
    {
        &self.body
    }
}

} // verus!
