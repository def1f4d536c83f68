//! Header fields: a text-to-text mapping kept sorted by key, read from
//! `key: value` lines and written back as such.
use crate::body::crlf;
use crate::decimal::{decimal_bytes, decimal_text, lemma_decimal_round_trip, parse_decimal, parse_usize, push_decimal};
use crate::error::{Error, ErrorView};
use crate::text::{
    ascii_cut, lemma_utf8_ascii_char, lemma_utf8_split_at_ascii, lemma_utf8_lacks_byte, copy_range, lemma_text_lt_total, lemma_bytes_lt_transitive, push_all, string_from_utf8,
    text_eq, text_less, text_lt, utf8,
};
use vstd::prelude::*;
use vstd::utf8::{
    decode_utf8, decode_utf8_encode_utf8, encode_scalar, encode_utf8, encode_utf8_first_scalar, pop_first_scalar, valid_utf8,
};

verus! {

broadcast use vstd::utf8::encode_utf8_valid_utf8, vstd::utf8::encode_utf8_decode_utf8;

/// A header field as text: key and value.
pub type EntryView = (Seq<char>, Seq<char>);

/// Keys strictly increase, so each key occurs once.
pub open spec fn sorted_keys(s: Seq<EntryView>) -> bool {
    forall|i: int, j: int| 0 <= i < j < s.len() ==> text_lt(#[trigger] s[i].0, #[trigger] s[j].0)
}

/// `s` with the field `k` set to `v`: an entry with key `k` is replaced, or a
/// new entry is placed where the key order puts it.
pub open spec fn insert_entry(s: Seq<EntryView>, k: Seq<char>, v: Seq<char>) -> Seq<EntryView>
    decreases s.len(),
{
    if s.len() == 0 {
        seq![(k, v)]
    } else if s[0].0 == k {
        seq![(k, v)] + s.drop_first()
    } else if text_lt(k, s[0].0) {
        seq![(k, v)] + s
    } else {
        seq![s[0]] + insert_entry(s.drop_first(), k, v)
    }
}

/// The value of the field `k`, if `s` has one.
pub open spec fn lookup(s: Seq<EntryView>, k: Seq<char>) -> Option<Seq<char>>
    decreases s.len(),
{
    if s.len() == 0 {
        None
    } else if s[0].0 == k {
        Some(s[0].1)
    } else {
        lookup(s.drop_first(), k)
    }
}

/// The name of the field that frames the body.
pub open spec fn content_length_key() -> Seq<char> {
    "Content-Length"@
}

/// The length a `Content-Length` value declares: its number, or 0 when it is
/// not an unsigned decimal number that fits a `usize`.
pub open spec fn content_length_of(v: Seq<char>) -> nat {
    match parse_usize(utf8(v)) {
        Some(n) => n,
        None => 0,
    }
}

/// One header line as written: key, `": "`, value, CR LF.
pub open spec fn entry_bytes(e: EntryView) -> Seq<u8> {
    utf8(e.0) + seq![0x3Au8, 0x20u8] + utf8(e.1) + crlf()
}

/// The header lines of `s`, in order.
pub open spec fn entries_bytes(s: Seq<EntryView>) -> Seq<u8>
    decreases s.len(),
{
    if s.len() == 0 {
        seq![]
    } else {
        entries_bytes(s.drop_last()) + entry_bytes(s.last())
    }
}

/// The position of the first `x` in `s`, or the length of `s` when there is
/// none.
pub open spec fn first_index(s: Seq<u8>, x: u8) -> nat
    decreases s.len(),
{
    if s.len() == 0 {
        0
    } else if s[0] == x {
        0
    } else {
        1 + first_index(s.drop_first(), x)
    }
}

/// The diagnostic for a header line without a colon.
pub open spec fn missing_colon_message() -> Seq<char> {
    "couldn't parse headers: a line has no colon"@
}

/// What follows the first character of the UTF-8 text `b`; empty when `b`
/// is.
pub open spec fn after_first_char(b: Seq<u8>) -> Seq<u8> {
    if b.len() == 0 {
        b
    } else {
        pop_first_scalar(b)
    }
}

/// One header line, as UTF-8 without its line ending: the key is what
/// precedes the first colon; the value is what follows the colon and the one
/// character after it (normally the space), or empty when the line ends
/// sooner. Only a line without a colon fails.
pub open spec fn parse_header_line(line: Seq<u8>) -> Result<EntryView, ErrorView>
    recommends
        valid_utf8(line),
{
    let c = first_index(line, 0x3A) as int;
    if c == line.len() {
        Err(ErrorView::MalformedHeaders(missing_colon_message()))
    } else {
        Ok(
            (
                decode_utf8(line.subrange(0, c)),
                decode_utf8(after_first_char(line.subrange(c + 1, line.len() as int))),
            ),
        )
    }
}

/// The line holds a colon.
pub open spec fn has_colon(line: Seq<u8>) -> bool {
    exists|j: int| 0 <= j < line.len() && line[j] == 0x3A
}

/// The position of the first empty line, or the number of lines.
pub open spec fn blank_index(lines: Seq<Seq<u8>>) -> nat
    decreases lines.len(),
{
    if lines.len() == 0 || lines[0].len() == 0 {
        0
    } else {
        1 + blank_index(lines.drop_first())
    }
}

/// A key never holds a colon.
pub open spec fn plain_key(k: Seq<char>) -> bool {
    forall|i: int| 0 <= i < k.len() ==> (#[trigger] k[i]) as u32 != 0x3A
}

/// Header lines read into `acc`, up to the first empty line or the end:
/// lines after an empty line are never looked at.
pub open spec fn read_entries(acc: Seq<EntryView>, lines: Seq<Seq<u8>>) -> Result<
    Seq<EntryView>,
    ErrorView,
>
    decreases lines.len(),
{
    if lines.len() == 0 || lines[0].len() == 0 {
        Ok(acc)
    } else {
        match parse_header_line(lines[0]) {
            Ok(e) => read_entries(insert_entry(acc, e.0, e.1), lines.drop_first()),
            Err(err) => Err(err),
        }
    }
}

/// The UTF-8 forms of a list of lines.
pub open spec fn lines_bytes(lines: Seq<String>) -> Seq<Seq<u8>> {
    lines.map_values(|l: String| utf8(l@))
}

pub proof fn lemma_first_index_skip(s: Seq<u8>, x: u8, k: int)
    requires
        0 <= k <= s.len(),
        forall|j: int| 0 <= j < k ==> s[j] != x,
    ensures
        first_index(s, x) == k + first_index(s.subrange(k, s.len() as int), x),
    decreases k,
{
    if k == 0 {
        assert(s.subrange(0, s.len() as int) =~= s);
    } else {
        lemma_first_index_skip(s.drop_first(), x, k - 1);
        assert(s.drop_first().subrange(k - 1, s.len() - 1) =~= s.subrange(k, s.len() as int));
    }
}

pub proof fn lemma_first_index_props(s: Seq<u8>, x: u8)
    ensures
        first_index(s, x) <= s.len(),
        forall|j: int| 0 <= j < first_index(s, x) ==> s[j] != x,
        first_index(s, x) < s.len() ==> s[first_index(s, x) as int] == x,
        first_index(s, x) == s.len() <==> !(exists|j: int| 0 <= j < s.len() && s[j] == x),
    decreases s.len(),
{
    if s.len() > 0 && s[0] != x {
        let t = s.drop_first();
        lemma_first_index_props(t, x);
        assert forall|j: int| 0 <= j < first_index(s, x) implies s[j] != x by {
            if j > 0 {
                assert(s[j] == t[j - 1]);
            }
        }
        if exists|j: int| 0 <= j < s.len() && s[j] == x {
            let j = choose|j: int| 0 <= j < s.len() && s[j] == x;
            assert(t[j - 1] == x);
        }
        if exists|j: int| 0 <= j < t.len() && t[j] == x {
            let j = choose|j: int| 0 <= j < t.len() && t[j] == x;
            assert(s[j + 1] == x);
        }
    }
}

proof fn lemma_blank_index_bound(lines: Seq<Seq<u8>>)
    ensures
        blank_index(lines) <= lines.len(),
    decreases lines.len(),
{
    if lines.len() > 0 && lines[0].len() > 0 {
        lemma_blank_index_bound(lines.drop_first());
    }
}

/// Reading header lines succeeds exactly when every line before the first
/// empty one holds a colon.
pub proof fn lemma_read_entries_ok(acc: Seq<EntryView>, lines: Seq<Seq<u8>>)
    ensures
        read_entries(acc, lines) is Ok <==> forall|i: int|
            0 <= i < blank_index(lines) ==> has_colon(#[trigger] lines[i]),
    decreases lines.len(),
{
    if lines.len() > 0 && lines[0].len() > 0 {
        let t = lines.drop_first();
        lemma_blank_index_bound(t);
        assert(blank_index(lines) == 1 + blank_index(t));
        lemma_first_index_props(lines[0], 0x3A);
        if let Ok(e) = parse_header_line(lines[0]) {
            lemma_read_entries_ok(insert_entry(acc, e.0, e.1), t);
            assert((forall|i: int| 0 <= i < blank_index(lines) ==> has_colon(#[trigger] lines[i]))
                <==> (forall|i: int| 0 <= i < blank_index(t) ==> has_colon(#[trigger] t[i]))) by {
                if forall|i: int| 0 <= i < blank_index(t) ==> has_colon(#[trigger] t[i]) {
                    assert forall|i: int| 0 <= i < blank_index(lines) implies has_colon(
                        #[trigger] lines[i],
                    ) by {
                        if i > 0 {
                            assert(lines[i] == t[i - 1]);
                        }
                    }
                }
                if forall|i: int| 0 <= i < blank_index(lines) ==> has_colon(#[trigger] lines[i]) {
                    assert forall|i: int| 0 <= i < blank_index(t) implies has_colon(
                        #[trigger] t[i],
                    ) by {
                        assert(lines[i + 1] == t[i]);
                    }
                }
            }
        } else {
            assert(!has_colon(lines[0]));
        }
    }
}

proof fn lemma_lookup_skip(s: Seq<EntryView>, key: Seq<char>, k: int)
    requires
        0 <= k <= s.len(),
        forall|j: int| 0 <= j < k ==> s[j].0 != key,
    ensures
        lookup(s, key) == lookup(s.subrange(k, s.len() as int), key),
    decreases k,
{
    if k == 0 {
        assert(s.subrange(0, s.len() as int) =~= s);
    } else {
        lemma_lookup_skip(s.drop_first(), key, k - 1);
        assert(s.drop_first().subrange(k - 1, s.len() - 1) =~= s.subrange(k, s.len() as int));
    }
}

/// Where the key order puts `k`: after the keys below it and at or before
/// the others. Inserting there keeps the keys sorted.
pub proof fn lemma_insert_entry_at(s: Seq<EntryView>, k: Seq<char>, v: Seq<char>, p: int)
    requires
        0 <= p <= s.len(),
        forall|j: int| 0 <= j < p ==> text_lt(#[trigger] s[j].0, k),
        p < s.len() ==> !text_lt(s[p].0, k),
    ensures
        insert_entry(s, k, v) == (if p < s.len() && s[p].0 == k {
            s.update(p, (k, v))
        } else {
            s.insert(p, (k, v))
        }),
        sorted_keys(s) ==> sorted_keys(insert_entry(s, k, v)),
        (forall|j: int| 0 <= j < s.len() ==> plain_key(#[trigger] s[j].0)) && plain_key(k)
            ==> forall|j: int|
            0 <= j < insert_entry(s, k, v).len() ==> plain_key(#[trigger] insert_entry(s, k, v)[j].0),
    decreases p,
{
    if p == 0 {
        if s.len() > 0 {
            lemma_text_lt_total(s[0].0, k);
            if s[0].0 == k {
                assert(seq![(k, v)] + s.drop_first() =~= s.update(0, (k, v)));
            } else {
                assert(seq![(k, v)] + s =~= s.insert(0, (k, v)));
            }
        } else {
            assert(seq![(k, v)] =~= s.insert(0, (k, v)));
        }
    } else {
        lemma_text_lt_total(s[0].0, k);
        let t = s.drop_first();
        assert forall|j: int| 0 <= j < p - 1 implies text_lt(#[trigger] t[j].0, k) by {
            assert(t[j] == s[j + 1]);
        }
        lemma_insert_entry_at(t, k, v, p - 1);
        if p < s.len() && s[p].0 == k {
            assert(seq![s[0]] + t.update(p - 1, (k, v)) =~= s.update(p, (k, v)));
        } else {
            assert(seq![s[0]] + t.insert(p - 1, (k, v)) =~= s.insert(p, (k, v)));
        }
    }
    if (forall|j: int| 0 <= j < s.len() ==> plain_key(#[trigger] s[j].0)) && plain_key(k) {
        let r = insert_entry(s, k, v);
        assert forall|j: int| 0 <= j < r.len() implies plain_key(#[trigger] r[j].0) by {
            if j < p {
                assert(r[j] == s[j]);
            } else if j > p {
                if p < s.len() && s[p].0 == k {
                    assert(r[j] == s[j]);
                } else {
                    assert(r[j] == s[j - 1]);
                }
            }
        }
    }
    if sorted_keys(s) {
        let r = insert_entry(s, k, v);
        if p < s.len() && s[p].0 == k {
            assert forall|i: int, j: int| 0 <= i < j < r.len() implies text_lt(
                #[trigger] r[i].0,
                #[trigger] r[j].0,
            ) by {
                assert(r[i].0 == s[i].0 && r[j].0 == s[j].0);
            }
        } else if p < s.len() {
            lemma_text_lt_total(s[p].0, k);
            assert forall|i: int, j: int| 0 <= i < j < r.len() implies text_lt(
                #[trigger] r[i].0,
                #[trigger] r[j].0,
            ) by {
                if j > p {
                    if j - 1 > p {
                        assert(text_lt(s[p].0, s[j - 1].0));
                        lemma_bytes_lt_transitive(utf8(k), utf8(s[p].0), utf8(s[j - 1].0));
                    }
                    assert(text_lt(k, s[j - 1].0));
                    if i < p {
                        lemma_bytes_lt_transitive(utf8(s[i].0), utf8(k), utf8(s[j - 1].0));
                    }
                }
            }
        }
    }
}

/// Reading header lines stops at the first empty line: lines after it never
/// reach the fields, whatever they hold.
pub proof fn lemma_read_stops_at_blank(acc: Seq<EntryView>, lines: Seq<Seq<u8>>, i: int)
    requires
        0 <= i < lines.len(),
        lines[i].len() == 0,
    ensures
        read_entries(acc, lines) == read_entries(acc, lines.subrange(0, i)),
    decreases i,
{
    let pre = lines.subrange(0, i);
    if i > 0 {
        assert(pre[0] == lines[0]);
        if lines[0].len() > 0 {
            if let Ok(e) = parse_header_line(lines[0]) {
                lemma_read_stops_at_blank(insert_entry(acc, e.0, e.1), lines.drop_first(), i - 1);
                assert(pre.drop_first() =~= lines.drop_first().subrange(0, i - 1));
            }
        }
    }
}

/// A header line that ends at its colon, or one space after it, is a field
/// with an empty value, not an error.
pub proof fn lemma_empty_value_line(key: Seq<char>)
    requires
        forall|i: int| 0 <= i < key.len() ==> (#[trigger] key[i]) as u32 != 0x3A,
    ensures
        parse_header_line(utf8(key).push(0x3A)) == Ok::<EntryView, ErrorView>((key, Seq::empty())),
        parse_header_line(utf8(key) + seq![0x3Au8, 0x20u8]) == Ok::<EntryView, ErrorView>(
            (key, Seq::empty()),
        ),
{
    let kb = utf8(key);
    lemma_utf8_lacks_byte(key, 0x3A);
    let l1 = kb.push(0x3A);
    let l2 = kb + seq![0x3Au8, 0x20u8];
    lemma_first_index_skip(l1, 0x3A, kb.len() as int);
    lemma_first_index_skip(l2, 0x3A, kb.len() as int);
    assert(l1.subrange(0, kb.len() as int) =~= kb);
    assert(l2.subrange(0, kb.len() as int) =~= kb);
    assert(l2.subrange(kb.len() as int + 2, l2.len() as int) =~= Seq::<u8>::empty());
    assert(decode_utf8(kb) == key);
    assert(decode_utf8(Seq::<u8>::empty()) =~= Seq::<char>::empty());
}

/// A header line `key:` followed by any one character (ASCII or not) and
/// then `value` reads as the field `key` with `value`; with nothing after
/// the character, the value is empty.
pub proof fn lemma_value_after_one_char(key: Seq<char>, c: char, value: Seq<char>)
    requires
        plain_key(key),
    ensures
        parse_header_line(utf8(key) + seq![0x3Au8] + utf8(seq![c] + value))
            == Ok::<EntryView, ErrorView>((key, value)),
{
    let kb = utf8(key);
    let rest = utf8(seq![c] + value);
    let line = kb + seq![0x3Au8] + rest;
    lemma_utf8_lacks_byte(key, 0x3A);
    lemma_first_index_skip(line, 0x3A, kb.len() as int);
    assert(line[kb.len() as int] == 0x3A);
    assert(line.subrange(0, kb.len() as int) =~= kb);
    assert(line.subrange(kb.len() as int + 1, line.len() as int) =~= rest);
    encode_utf8_first_scalar(seq![c] + value);
    assert((seq![c] + value).drop_first() =~= value);
    assert(rest =~= encode_scalar(c as u32) + utf8(value));
    assert(after_first_char(rest) =~= utf8(value));
}

/// A header line without a colon fails with `MalformedHeaders`.
pub proof fn lemma_no_colon_line(line: Seq<u8>)
    requires
        forall|i: int| 0 <= i < line.len() ==> line[i] != 0x3A,
    ensures
        parse_header_line(line) == Err::<EntryView, ErrorView>(
            ErrorView::MalformedHeaders(missing_colon_message()),
        ),
{
    lemma_first_index_skip(line, 0x3A, line.len() as int);
}

/// Header lines of joined field lists are the joined header lines.
pub proof fn lemma_entries_bytes_concat(a: Seq<EntryView>, b: Seq<EntryView>)
    ensures
        entries_bytes(a + b) == entries_bytes(a) + entries_bytes(b),
    decreases b.len(),
{
    if b.len() == 0 {
        assert(a + b =~= a);
        assert(entries_bytes(a) + entries_bytes(b) =~= entries_bytes(a));
    } else {
        lemma_entries_bytes_concat(a, b.drop_last());
        assert((a + b).drop_last() =~= a + b.drop_last());
        assert(entries_bytes(a + b) =~= entries_bytes(a) + entries_bytes(b));
    }
}

/// Header fields, kept sorted by key (the byte order of the keys), each key
/// once.
#[derive(Debug, PartialEq, Eq)]
pub struct Headers {
    entries: Vec<(String, String)>,
}

impl View for Headers {
    type V = Seq<EntryView>;

    closed spec fn view(&self) -> Seq<EntryView> {
        self.entries@.map_values(|e: (String, String)| (e.0@, e.1@))
    }
}

impl Headers {
    /// The keys are sorted, each occurring once, and none holds a colon.
    pub open spec fn wf(&self) -> bool {
        &&& sorted_keys(self@)
        &&& forall|i: int| 0 <= i < self@.len() ==> plain_key(#[trigger] self@[i].0)
    }

    /// No fields.
    pub fn new() -> (h: Headers)
        ensures
            h.wf(),
            h@ == Seq::<EntryView>::empty(),
    {
        let h = Headers { entries: Vec::new() };
        assert(h@ =~= Seq::<EntryView>::empty());
        h
    }

    /// The number of fields.
    pub fn len(&self) -> (n: usize)
        ensures
            n == self@.len(),
    {
        self.entries.len()
    }

    /// Sets the field `key` to `value`, replacing any earlier value.
    pub fn insert(&mut self, key: String, value: String)
        requires
            old(self).wf(),
            plain_key(key@),
        ensures
            final(self).wf(),
            final(self)@ == insert_entry(old(self)@, key@, value@),
    {
        let mut i: usize = 0;
        while i < self.entries.len() && text_less(self.entries[i].0.as_str(), key.as_str())
            invariant
                0 <= i <= self@.len(),
                self@.len() == self.entries@.len(),
                sorted_keys(self@),
                forall|j: int| 0 <= j < i ==> text_lt(#[trigger] self@[j].0, key@),
            decreases self@.len() - i,
        {
            i += 1;
        }
        let ghost s = self@;
        proof {
            lemma_insert_entry_at(s, key@, value@, i as int);
        }
        if i < self.entries.len() && text_eq(self.entries[i].0.as_str(), key.as_str()) {
            proof {
                assert(self.entries@.update(i as int, (key, value)).map_values(
                    |e: (String, String)| (e.0@, e.1@),
                ) =~= s.update(i as int, (key@, value@)));
            }
            self.entries.set(i, (key, value));
        } else {
            proof {
                assert(self.entries@.insert(i as int, (key, value)).map_values(
                    |e: (String, String)| (e.0@, e.1@),
                ) =~= s.insert(i as int, (key@, value@)));
            }
            self.entries.insert(i, (key, value));
        }
    }

    /// The value of the field `key`, matched exactly (case-sensitively).
    pub fn get(&self, key: &str) -> (r: Option<&String>)
        ensures
            r matches Some(v) ==> lookup(self@, key@) == Some(v@),
            r is None ==> lookup(self@, key@) is None,
    {
        let mut i: usize = 0;
        while i < self.entries.len()
            invariant
                0 <= i <= self@.len(),
                self@.len() == self.entries@.len(),
                forall|j: int| 0 <= j < i ==> (#[trigger] self@[j]).0 != key@,
            decreases self@.len() - i,
        {
            if text_eq(self.entries[i].0.as_str(), key) {
                proof {
                    lemma_lookup_skip(self@, key@, i as int);
                }
                return Some(&self.entries[i].1);
            }
            i += 1;
        }
        proof {
            lemma_lookup_skip(self@, key@, i as int);
        }
        None
    }

    /// Reads one header line (its line ending removed) into the map: the
    /// key is what precedes the first colon, the value what follows the colon
    /// and the character after it. A line without a colon fails with
    /// `MalformedHeaders` and leaves the map as it was.
    pub fn add_line(&mut self, line: &str) -> (r: Result<(), Error>)
        requires
            old(self).wf(),
        ensures
            final(self).wf(),
            match parse_header_line(utf8(line@)) {
                Ok(e) => r is Ok && final(self)@ == insert_entry(old(self)@, e.0, e.1),
                Err(err) => (r matches Err(x) && x@ == err) && final(self)@ == old(self)@,
            },
    {
        let b = line.as_bytes();
        let mut c: usize = 0;
        while c < b.len() && b[c] != 0x3A
            invariant
                0 <= c <= b@.len(),
                forall|j: int| 0 <= j < c ==> b@[j] != 0x3A,
            decreases b@.len() - c,
        {
            c += 1;
        }
        proof {
            lemma_first_index_skip(b@, 0x3A, c as int);
            assert(first_index(b@, 0x3A) == c);
        }
        if c == b.len() {
            return Err(Error::MalformedHeaders("couldn't parse headers: a line has no colon".to_owned()));
        }
        let start = c + 1;
        let ghost after = b@.subrange(start as int, b@.len() as int);
        proof {
            lemma_utf8_split_at_ascii(b@, c as int);
            lemma_utf8_split_at_ascii(b@, start as int);
        }
        let vstart: usize = if start < b.len() {
            let lead = b[start];
            assert(lead == after[0]);
            let w: usize = if lead < 0x80 {
                1
            } else if lead < 0xE0 {
                2
            } else if lead < 0xF0 {
                3
            } else {
                4
            };
            start + w
        } else {
            start
        };
        proof {
            if start < b@.len() {
                assert(pop_first_scalar(after) =~= b@.subrange(vstart as int, b@.len() as int));
            } else {
                assert(after =~= b@.subrange(vstart as int, b@.len() as int));
            }
        }
        let key = string_from_utf8(copy_range(b, 0, c)).unwrap();
        let value = string_from_utf8(copy_range(b, vstart, b.len())).unwrap();
        proof {
            let kb = b@.subrange(0, c as int);
            decode_utf8_encode_utf8(kb);
            assert(utf8(key@) == kb);
            assert forall|i: int| 0 <= i < key@.len() implies (#[trigger] key@[i]) as u32 != 0x3A by {
                if key@[i] as u32 == 0x3A {
                    lemma_utf8_ascii_char(key@, i);
                    let j = choose|j: int| 0 <= j < kb.len() && kb[j] as u32 == key@[i] as u32;
                    assert(kb[j] == b@[j]);
                }
            }
        }
        self.insert(key, value);
        Ok(())
    }

    /// Reads header lines up to the first empty one (or the end of `lines`);
    /// lines after an empty line are not read. Each line is `key: value`; a
    /// line without a colon fails with `MalformedHeaders`.
    pub fn read(lines: &Vec<String>) -> (r: Result<Headers, Error>)
        ensures
            match read_entries(Seq::empty(), lines_bytes(lines@)) {
                Ok(s) => r matches Ok(h) && h.wf() && h@ == s,
                Err(e) => r matches Err(x) && x@ == e,
            },
            r is Ok <==> forall|i: int|
                0 <= i < blank_index(lines_bytes(lines@)) ==> has_colon(
                    #[trigger] lines_bytes(lines@)[i],
                ),
    {
        let ghost ls = lines_bytes(lines@);
        let mut h = Headers::new();
        let mut i: usize = 0;
        assert(ls.subrange(0, ls.len() as int) =~= ls);
        while i < lines.len()
            invariant
                ls == lines_bytes(lines@),
                h.wf(),
                0 <= i <= lines@.len(),
                read_entries(h@, ls.subrange(i as int, ls.len() as int)) == read_entries(
                    Seq::empty(),
                    ls,
                ),
            decreases lines@.len() - i,
        {
            let line = lines[i].as_str();
            let ghost rest = ls.subrange(i as int, ls.len() as int);
            assert(rest[0] == utf8(line@));
            assert(rest.drop_first() =~= ls.subrange(i + 1, ls.len() as int));
            if line.as_bytes().len() == 0 {
                proof {
                    lemma_read_entries_ok(Seq::empty(), ls);
                }
                return Ok(h);
            }
            match h.add_line(line) {
                Ok(()) => {},
                Err(e) => {
                    proof {
                        lemma_read_entries_ok(Seq::empty(), ls);
                    }
                    return Err(e);
                },
            }
            i += 1;
        }
        proof {
            lemma_read_entries_ok(Seq::empty(), ls);
        }
        Ok(h)
    }

    /// Writes one `key: value` line, ended by CR LF, per field in key order.
    pub fn write(&self, out: &mut Vec<u8>) -> (r: Result<(), Error>)
        ensures
            r is Ok,
            final(out)@ == old(out)@ + entries_bytes(self@),
    {
        let mut i: usize = 0;
        while i < self.entries.len()
            invariant
                0 <= i <= self@.len(),
                self@.len() == self.entries@.len(),
                out@ == old(out)@ + entries_bytes(self@.subrange(0, i as int)),
            decreases self@.len() - i,
        {
            let ghost before = out@;
            let (k, v) = &self.entries[i];
            push_all(out, k.as_str().as_bytes());
            out.push(0x3A);
            out.push(0x20);
            push_all(out, v.as_str().as_bytes());
            out.push(0x0D);
            out.push(0x0A);
            proof {
                let s = self@.subrange(0, i as int + 1);
                assert(s.drop_last() =~= self@.subrange(0, i as int));
                assert(s.last() == (k@, v@));
                assert(out@ =~= before + entry_bytes((k@, v@)));
            }
            i += 1;
        }
        assert(self@.subrange(0, i as int) =~= self@);
        Ok(())
    }

    /// The length that the `Content-Length` field declares: `None` without
    /// the field, 0 when its value is not an unsigned decimal number.
    pub fn get_content_length(&self) -> (r: Option<usize>)
        ensures
            match lookup(self@, content_length_key()) {
                Some(v) => r == Some(content_length_of(v) as usize),
                None => r is None,
            },
    {
        match self.get("Content-Length") {
            Some(v) => match parse_decimal(v.as_str().as_bytes()) {
                Some(n) => Some(n),
                None => Some(0),
            },
            None => None,
        }
    }

    /// Sets the `Content-Length` field to the decimal form of `size`.
    pub fn set_content_length(&mut self, size: usize)
        requires
            old(self).wf(),
        ensures
            final(self).wf(),
            final(self)@ == insert_entry(old(self)@, content_length_key(), decimal_text(size as nat)),
    {
        let mut digits: Vec<u8> = Vec::new();
        push_decimal(&mut digits, size);
        proof {
            assert(digits@ =~= decimal_bytes(size as nat));
            lemma_decimal_round_trip(size as nat);
        }
        let value = string_from_utf8(digits).unwrap();
        let key = "Content-Length".to_owned();
        proof {
            reveal_strlit("Content-Length");
            assert(key@ =~= seq!['C', 'o', 'n', 't', 'e', 'n', 't', '-', 'L', 'e', 'n', 'g', 't', 'h']);
        }
        self.insert(key, value);
    }

    /// The fields of `pairs`, later pairs replacing earlier ones of the same
    /// key.
    pub fn from_pairs(pairs: Vec<(String, String)>) -> (h: Headers)
        requires
            forall|i: int| 0 <= i < pairs@.len() ==> plain_key(#[trigger] pairs@[i].0@),
        ensures
            h.wf(),
            h@ == insert_all(Seq::empty(), pairs@.map_values(|e: (String, String)| (e.0@, e.1@))),
    {
        let ghost ps = pairs@.map_values(|e: (String, String)| (e.0@, e.1@));
        let mut h = Headers::new();
        let mut i: usize = 0;
        while i < pairs.len()
            invariant
                ps == pairs@.map_values(|e: (String, String)| (e.0@, e.1@)),
                forall|j: int| 0 <= j < pairs@.len() ==> plain_key(#[trigger] pairs@[j].0@),
                0 <= i <= pairs@.len(),
                h.wf(),
                h@ == insert_all(Seq::empty(), ps.subrange(0, i as int)),
            decreases pairs@.len() - i,
        {
            let k = pairs[i].0.clone();
            let v = pairs[i].1.clone();
            h.insert(k, v);
            proof {
                assert(ps.subrange(0, i as int + 1).drop_last() =~= ps.subrange(0, i as int));
            }
            i += 1;
        }
        assert(ps.subrange(0, i as int) =~= ps);
        h
    }
}

/// `acc` with each pair of `ps` inserted in turn.
pub open spec fn insert_all(acc: Seq<EntryView>, ps: Seq<EntryView>) -> Seq<EntryView>
    decreases ps.len(),
{
    if ps.len() == 0 {
        acc
    } else {
        insert_entry(insert_all(acc, ps.drop_last()), ps.last().0, ps.last().1)
    }
}

} // verus!
