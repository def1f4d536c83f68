//! The first line of a message: `METHOD URL VERSION` for a request,
//! `VERSION STATUS` for a response.
use crate::error::{Error, ErrorView};
use crate::method::Method;
use crate::status::Status;
use crate::text::{
    ascii_cut, copy_range, is_ascii_whitespace, lemma_utf8_concat, lemma_utf8_lacks_byte,
    lemma_utf8_nonempty, lemma_utf8_slice_at_ascii, string_from_utf8, utf8,
};
use crate::version::Version;
use vstd::prelude::*;
use vstd::utf8::{decode_utf8, is_ascii_chars_encode_utf8, valid_utf8};

verus! {

broadcast use vstd::utf8::encode_utf8_valid_utf8, vstd::utf8::encode_utf8_decode_utf8;

/// The first line of a message.
#[derive(Debug, PartialEq, Eq)]
pub enum StartLine {
    Request { method: Method, url: String, version: Version },
    Response { version: Version, status: Status },
}

/// A [`StartLine`] with its URL as text.
pub enum StartLineView {
    Request { method: Method, url: Seq<char>, version: Version },
    Response { version: Version, status: Status },
}

impl View for StartLine {
    type V = StartLineView;

    open spec fn view(&self) -> StartLineView {
        match self {
            StartLine::Request { method, url, version } => StartLineView::Request {
                method: *method,
                url: url@,
                version: *version,
            },
            StartLine::Response { version, status } => StartLineView::Response {
                version: *version,
                status: *status,
            },
        }
    }
}

/// The number of leading bytes of `b` that are whitespace (when `ws`) or not
/// whitespace (when `!ws`).
pub open spec fn run_len(b: Seq<u8>, ws: bool) -> nat
    decreases b.len(),
{
    if b.len() == 0 || is_ascii_whitespace(b[0]) != ws {
        0
    } else {
        1 + run_len(b.drop_first(), ws)
    }
}

/// The first whitespace-separated token of `b` and what follows it, or `None`
/// when `b` is all whitespace.
pub open spec fn next_token(b: Seq<u8>) -> Option<(Seq<u8>, Seq<u8>)> {
    let s = run_len(b, true) as int;
    if s >= b.len() {
        None
    } else {
        let r = b.subrange(s, b.len() as int);
        let t = run_len(r, false) as int;
        Some((r.subrange(0, t), r.subrange(t, r.len() as int)))
    }
}

/// A request line: up to three whitespace-separated tokens, read in order
/// (method, URL, version), failing at the first that is missing or invalid.
/// Tokens after the third are ignored.
pub open spec fn parse_start_line(b: Seq<u8>) -> Result<StartLineView, ErrorView> {
    match next_token(b) {
        None => Err(ErrorView::MalformedRequestLine("couldn't find the method"@)),
        Some((m, r1)) => match Method::from_token(decode_utf8(m)) {
            None => Err(
                ErrorView::MalformedRequestLine(
                    crate::method::unknown_method_message(decode_utf8(m)),
                ),
            ),
            Some(method) => match next_token(r1) {
                None => Err(ErrorView::MalformedRequestLine("couldn't find the url"@)),
                Some((u, r2)) => match next_token(r2) {
                    None => Err(
                        ErrorView::MalformedRequestLine("couldn't find the version"@),
                    ),
                    Some((v, _)) => match Version::from_token(decode_utf8(v)) {
                        None => Err(
                            ErrorView::MalformedRequestLine(
                                crate::version::unknown_version_message(decode_utf8(v)),
                            ),
                        ),
                        Some(version) => Ok(
                            StartLineView::Request { method, url: decode_utf8(u), version },
                        ),
                    },
                },
            },
        },
    }
}

/// The start line as text, without its line ending.
pub open spec fn start_line_text(v: StartLineView) -> Seq<char> {
    match v {
        StartLineView::Request { method, url, version } => method.token() + " "@ + url + " "@
            + version.token(),
        StartLineView::Response { version, status } => version.token() + " "@ + status.token(),
    }
}

/// The start line as written: its text, then CR LF.
pub open spec fn render_start_line(v: StartLineView) -> Seq<char> {
    start_line_text(v) + "\r\n"@
}

proof fn lemma_run_len_is(b: Seq<u8>, ws: bool, k: int)
    requires
        0 <= k <= b.len(),
        forall|j: int| 0 <= j < k ==> is_ascii_whitespace(#[trigger] b[j]) == ws,
        k < b.len() ==> is_ascii_whitespace(b[k]) != ws,
    ensures
        run_len(b, ws) == k,
    decreases k,
{
    if k > 0 {
        lemma_run_len_is(b.drop_first(), ws, k - 1);
    }
}

/// Whitespace as `char::is_ascii_whitespace` has it.
pub open spec fn is_space_char(c: char) -> bool {
    let u = c as u32;
    u == 0x20 || u == 0x09 || u == 0x0A || u == 0x0C || u == 0x0D
}

proof fn lemma_run_len_bound(b: Seq<u8>, ws: bool)
    ensures
        run_len(b, ws) <= b.len(),
    decreases b.len(),
{
    if b.len() > 0 {
        lemma_run_len_bound(b.drop_first(), ws);
    }
}

proof fn lemma_run_len_append(w: Seq<u8>, b: Seq<u8>)
    requires
        forall|j: int| 0 <= j < w.len() ==> is_ascii_whitespace(#[trigger] w[j]),
    ensures
        run_len(w + b, true) == w.len() + run_len(b, true),
    decreases w.len(),
{
    if w.len() > 0 {
        lemma_run_len_append(w.drop_first(), b);
        assert((w + b).drop_first() =~= w.drop_first() + b);
    } else {
        assert(w + b =~= b);
    }
}

/// Leading whitespace does not change the next token.
proof fn lemma_next_token_skip(w: Seq<u8>, b: Seq<u8>)
    requires
        forall|j: int| 0 <= j < w.len() ==> is_ascii_whitespace(#[trigger] w[j]),
    ensures
        next_token(w + b) == next_token(b),
{
    lemma_run_len_append(w, b);
    lemma_run_len_bound(b, true);
    let s = run_len(b, true) as int;
    assert((w + b).subrange(w.len() + s, (w + b).len() as int) =~= b.subrange(s, b.len() as int));
}

/// A run of non-whitespace bytes followed by whitespace (or nothing) is the
/// next token.
proof fn lemma_next_token_is(t: Seq<u8>, rest: Seq<u8>)
    requires
        t.len() > 0,
        forall|j: int| 0 <= j < t.len() ==> !is_ascii_whitespace(#[trigger] t[j]),
        rest.len() > 0 ==> is_ascii_whitespace(rest[0]),
    ensures
        next_token(t + rest) == Some((t, rest)),
{
    let b = t + rest;
    lemma_run_len_is(b, true, 0);
    assert(b.subrange(0, b.len() as int) =~= b);
    assert forall|j: int| 0 <= j < t.len() implies is_ascii_whitespace(#[trigger] b[j])
        == false by {
        assert(b[j] == t[j]);
    }
    if t.len() < b.len() {
        assert(b[t.len() as int] == rest[0]);
    }
    lemma_run_len_is(b, false, t.len() as int);
    assert(b.subrange(0, t.len() as int) =~= t);
    assert(b.subrange(t.len() as int, b.len() as int) =~= rest);
}

/// A text without whitespace has a UTF-8 form without whitespace bytes.
pub proof fn lemma_utf8_no_space(s: Seq<char>)
    requires
        forall|i: int| 0 <= i < s.len() ==> !is_space_char(#[trigger] s[i]),
    ensures
        forall|j: int| 0 <= j < utf8(s).len() ==> !is_ascii_whitespace(#[trigger] utf8(s)[j]),
{
    assert forall|i: int| 0 <= i < s.len() implies (#[trigger] s[i]) as u32 != 0x20u8 as u32 by {}
    lemma_utf8_lacks_byte(s, 0x20);
    assert forall|i: int| 0 <= i < s.len() implies (#[trigger] s[i]) as u32 != 0x09u8 as u32 by {}
    lemma_utf8_lacks_byte(s, 0x09);
    assert forall|i: int| 0 <= i < s.len() implies (#[trigger] s[i]) as u32 != 0x0Au8 as u32 by {}
    lemma_utf8_lacks_byte(s, 0x0A);
    assert forall|i: int| 0 <= i < s.len() implies (#[trigger] s[i]) as u32 != 0x0Cu8 as u32 by {}
    lemma_utf8_lacks_byte(s, 0x0C);
    assert forall|i: int| 0 <= i < s.len() implies (#[trigger] s[i]) as u32 != 0x0Du8 as u32 by {}
    lemma_utf8_lacks_byte(s, 0x0D);
}

/// The UTF-8 form of a request line's text.
pub proof fn lemma_request_bytes(method: Method, url: Seq<char>, version: Version)
    ensures
        utf8(start_line_text(StartLineView::Request { method, url, version })) == utf8(
            method.token(),
        ) + seq![0x20u8] + utf8(url) + seq![0x20u8] + utf8(version.token()),
        utf8(render_start_line(StartLineView::Request { method, url, version })) == utf8(
            start_line_text(StartLineView::Request { method, url, version }),
        ) + seq![0x0Du8, 0x0Au8],
{
    reveal_strlit(" ");
    reveal_strlit("\r\n");
    let sp = " "@;
    let nl = "\r\n"@;
    assert(sp =~= seq![' ']);
    assert(nl =~= seq!['\r', '\n']);
    is_ascii_chars_encode_utf8(sp);
    is_ascii_chars_encode_utf8(nl);
    assert(utf8(sp) =~= seq![0x20u8]);
    assert(utf8(nl) =~= seq![0x0Du8, 0x0Au8]);
    let mt = method.token();
    let vt = version.token();
    lemma_utf8_concat(mt, sp);
    lemma_utf8_concat(mt + sp, url);
    lemma_utf8_concat(mt + sp + url, sp);
    lemma_utf8_concat(mt + sp + url + sp, vt);
    lemma_utf8_concat(mt + sp + url + sp + vt, nl);
}

/// The tokens of a request line written from a method, a URL without
/// whitespace and a version are read back as those three.
pub proof fn lemma_request_line_tokens(method: Method, url: Seq<char>, version: Version, tail: Seq<u8>)
    requires
        url.len() > 0,
        forall|i: int| 0 <= i < url.len() ==> !is_space_char(#[trigger] url[i]),
        forall|j: int| 0 <= j < tail.len() ==> is_ascii_whitespace(#[trigger] tail[j]),
    ensures
        parse_start_line(utf8(start_line_text(StartLineView::Request { method, url, version }))
            + tail) == Ok::<StartLineView, ErrorView>(StartLineView::Request { method, url, version }),
{
    lemma_request_bytes(method, url, version);
    method.lemma_token_ascii();
    version.lemma_token_ascii();
    method.lemma_token_round_trip();
    version.lemma_token_round_trip();
    let mt = method.token();
    let vt = version.token();
    assert forall|i: int| 0 <= i < mt.len() implies !is_space_char(#[trigger] mt[i]) by {}
    assert forall|i: int| 0 <= i < vt.len() implies !is_space_char(#[trigger] vt[i]) by {}
    lemma_utf8_no_space(mt);
    lemma_utf8_no_space(vt);
    lemma_utf8_no_space(url);
    lemma_utf8_nonempty(mt);
    lemma_utf8_nonempty(vt);
    lemma_utf8_nonempty(url);
    let mb = utf8(mt);
    let ub = utf8(url);
    let vb = utf8(vt);
    let sp = seq![0x20u8];
    let r2 = sp + vb + tail;
    let r1 = sp + ub + r2;
    let all = mb + r1;
    assert(utf8(start_line_text(StartLineView::Request { method, url, version })) + tail =~= all);
    lemma_next_token_is(mb, r1);
    lemma_next_token_skip(sp, ub + r2);
    assert(sp + (ub + r2) =~= r1);
    lemma_next_token_is(ub, r2);
    lemma_next_token_skip(sp, vb + tail);
    assert(sp + (vb + tail) =~= r2);
    lemma_next_token_is(vb, tail);
    assert(next_token(all) == Some((mb, r1)));
    assert(decode_utf8(mb) == mt);
    assert(next_token(r1) == Some((ub, r2)));
    assert(next_token(r2) == Some((vb, tail)));
}

/// A request line written from a method, a URL without whitespace and a
/// version parses back to the same request line, with or without its line
/// ending; so rendering what was parsed gives the same text.
pub proof fn lemma_start_line_round_trip(method: Method, url: Seq<char>, version: Version)
    requires
        url.len() > 0,
        forall|i: int| 0 <= i < url.len() ==> !is_space_char(#[trigger] url[i]),
    ensures
        parse_start_line(utf8(render_start_line(StartLineView::Request { method, url, version })))
            == Ok::<StartLineView, ErrorView>(StartLineView::Request { method, url, version }),
        parse_start_line(utf8(start_line_text(StartLineView::Request { method, url, version })))
            == Ok::<StartLineView, ErrorView>(StartLineView::Request { method, url, version }),
{
    let v = StartLineView::Request { method, url, version };
    lemma_request_bytes(method, url, version);
    lemma_request_line_tokens(method, url, version, seq![0x0Du8, 0x0Au8]);
    lemma_request_line_tokens(method, url, version, Seq::empty());
    assert(utf8(start_line_text(v)) + Seq::<u8>::empty() =~= utf8(start_line_text(v)));
}

/// Finds the first token of `b[from..]`: its start and end.
fn token_at(b: &[u8], from: usize) -> (r: Option<(usize, usize)>)
    requires
        from <= b@.len(),
    ensures
        match next_token(b@.subrange(from as int, b@.len() as int)) {
            None => r is None,
            Some((t, rest)) => r matches Some((s, e)) && from <= s < e <= b@.len() && t == b@.subrange(
                s as int,
                e as int,
            ) && rest == b@.subrange(e as int, b@.len() as int) && (s == from
                || is_ascii_whitespace(b@[s - 1])) && (e == b@.len() || is_ascii_whitespace(
                b@[e as int],
            )),
        },
{
    let ghost tail = b@.subrange(from as int, b@.len() as int);
    let mut s: usize = from;
    while s < b.len() && (b[s] == 0x20 || b[s] == 0x09 || b[s] == 0x0A || b[s] == 0x0C || b[s]
        == 0x0D)
        invariant
            from <= s <= b@.len(),
            forall|j: int| from <= j < s ==> is_ascii_whitespace(#[trigger] b@[j]),
        decreases b@.len() - s,
    {
        s += 1;
    }
    proof {
        assert forall|j: int| 0 <= j < s - from implies is_ascii_whitespace(
            #[trigger] tail[j],
        ) == true by {
            assert(tail[j] == b@[from + j]);
        }
        if s < b@.len() {
            assert(tail[s - from] == b@[s as int]);
        }
        lemma_run_len_is(tail, true, s - from);
    }
    if s == b.len() {
        return None;
    }
    let mut e: usize = s;
    while e < b.len() && !(b[e] == 0x20 || b[e] == 0x09 || b[e] == 0x0A || b[e] == 0x0C || b[e]
        == 0x0D)
        invariant
            s <= e <= b@.len(),
            forall|j: int| s <= j < e ==> !is_ascii_whitespace(#[trigger] b@[j]),
        decreases b@.len() - e,
    {
        e += 1;
    }
    proof {
        let r = tail.subrange(s - from, tail.len() as int);
        assert(r =~= b@.subrange(s as int, b@.len() as int));
        assert forall|j: int| 0 <= j < e - s implies is_ascii_whitespace(#[trigger] r[j])
            == false by {
            assert(r[j] == b@[s + j]);
        }
        if e < b@.len() {
            assert(r[e - s] == b@[e as int]);
        }
        lemma_run_len_is(r, false, e - s);
        assert(r.subrange(0, e - s) =~= b@.subrange(s as int, e as int));
        assert(r.subrange(e - s, r.len() as int) =~= b@.subrange(e as int, b@.len() as int));
        if s > from {
            assert(is_ascii_whitespace(b@[s - 1]));
        }
    }
    Some((s, e))
}

/// The text of `b[s..e]`, a token of valid UTF-8 `b` cut next to ASCII bytes.
fn token_text(b: &[u8], s: usize, e: usize) -> (r: String)
    requires
        valid_utf8(b@),
        s <= e <= b@.len(),
        ascii_cut(b@, s as int),
        ascii_cut(b@, e as int),
    ensures
        r@ == decode_utf8(b@.subrange(s as int, e as int)),
{
    proof {
        lemma_utf8_slice_at_ascii(b@, s as int, e as int);
    }
    let bytes = copy_range(b, s, e);
    string_from_utf8(bytes).unwrap()
}

impl StartLine {
    /// Parses a request line: the method, the URL and the version, separated
    /// by ASCII whitespace. The first missing or invalid field fails with
    /// `MalformedRequestLine`; method is checked before URL, URL before
    /// version.
    pub fn parse(s: &str) -> (r: Result<StartLine, Error>)
        ensures
            match parse_start_line(utf8(s@)) {
                Ok(v) => r matches Ok(sl) && sl@ == v,
                Err(e) => r matches Err(x) && x@ == e,
            },
    {
        let b = s.as_bytes();
        proof {
            assert(b@.subrange(0, b@.len() as int) =~= b@);
        }
        let (ms, me) = match token_at(b, 0) {
            None => return Err(Error::MalformedRequestLine("couldn't find the method".to_owned())),
            Some(p) => p,
        };
        let method_text = token_text(b, ms, me);
        let method = match Method::parse(method_text.as_str()) {
            Ok(m) => m,
            Err(e) => return Err(e),
        };
        let (us, ue) = match token_at(b, me) {
            None => return Err(Error::MalformedRequestLine("couldn't find the url".to_owned())),
            Some(p) => p,
        };
        let url = token_text(b, us, ue);
        let (vs, ve) = match token_at(b, ue) {
            None => return Err(Error::MalformedRequestLine("couldn't find the version".to_owned())),
            Some(p) => p,
        };
        let version_text = token_text(b, vs, ve);
        let version = match Version::parse(version_text.as_str()) {
            Ok(v) => v,
            Err(e) => return Err(e),
        };
        Ok(StartLine::Request { method, url, version })
    }

    /// The line as written: `METHOD URL VERSION` or `VERSION STATUS`, then
    /// CR LF.
    pub fn to_string(&self) -> (r: String)
        ensures
            r@ == render_start_line(self@),
    {
        let line = match self {
            StartLine::Request { method, url, version } => {
                let m = method.to_string();
                let v = version.to_string();
                m.concat(" ").concat(url.as_str()).concat(" ").concat(v.as_str())
            },
            StartLine::Response { version, status } => {
                let v = version.to_string();
                let st = status.to_string();
                v.concat(" ").concat(st.as_str())
            },
        };
        line.concat("\r\n")
    }
}

impl std::str::FromStr for StartLine {
    type Err = Error;

    fn from_str(s: &str) -> Result<StartLine, Error> {
        StartLine::parse(s)
    }
}

} // verus!
