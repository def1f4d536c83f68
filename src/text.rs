//! Bytes and text: how the wire's bytes relate to the `String`s the message
//! model keeps, and the small comparisons the parsers need.
use vstd::prelude::*;
use vstd::utf8::*;

verus! {

broadcast use vstd::utf8::encode_utf8_decode_utf8, vstd::utf8::encode_utf8_valid_utf8;

/// The bytes that `u8::is_ascii_whitespace` accepts: space, tab, line feed,
/// form feed and carriage return.
pub open spec fn is_ascii_whitespace(b: u8) -> bool {
    b == 0x20 || b == 0x09 || b == 0x0A || b == 0x0C || b == 0x0D
}

/// The UTF-8 form of a text.
pub open spec fn utf8(s: Seq<char>) -> Seq<u8> {
    encode_utf8(s)
}

proof fn lemma_high_bit_set(b: u8)
    by (bit_vector)
    ensures
        (0x80u8 | b) >= 0x80u8,
        (0xC0u8 | b) >= 0x80u8,
        (0xE0u8 | b) >= 0x80u8,
        (0xF0u8 | b) >= 0x80u8,
{
}

proof fn lemma_one_byte_scalar(s: u32)
    by (bit_vector)
    requires
        s <= 0x7f,
    ensures
        ((s & 0x7f) as u8) as u32 == s,
{
}

/// A cut in valid UTF-8 next to an ASCII byte (or at either end) leaves valid
/// UTF-8 on both sides: an ASCII byte is a whole character.
pub open spec fn ascii_cut(b: Seq<u8>, i: int) -> bool {
    i == 0 || i == b.len() || (0 <= i < b.len() && b[i] < 0x80) || (0 < i <= b.len() && b[i
        - 1] < 0x80)
}

pub proof fn lemma_utf8_split_at_ascii(b: Seq<u8>, i: int)
    requires
        valid_utf8(b),
        0 <= i <= b.len(),
        ascii_cut(b, i),
    ensures
        valid_utf8(b.subrange(0, i)),
        valid_utf8(b.subrange(i, b.len() as int)),
    decreases b.len(),
{
    if i == 0 {
        assert(b.subrange(0, 0) =~= Seq::<u8>::empty());
        assert(b.subrange(0, b.len() as int) =~= b);
    } else {
        let w = length_of_first_scalar(b);
        assert(w <= i) by {
            if w > i {
                assert(is_continuation_byte(b[i]));
                if i > 1 {
                    assert(is_continuation_byte(b[i - 1]));
                }
            }
        }
        let rest = pop_first_scalar(b);
        assert(i - w > 0 ==> rest[i - w - 1] == b[i - 1]);
        assert(i - w < rest.len() ==> rest[i - w] == b[i]);
        lemma_utf8_split_at_ascii(rest, i - w);
        let pre = b.subrange(0, i);
        assert(pre[0] == b[0]);
        assert(w >= 2 ==> pre[1] == b[1]);
        assert(w >= 3 ==> pre[2] == b[2]);
        assert(w >= 4 ==> pre[3] == b[3]);
        assert(valid_first_scalar(pre));
        assert(length_of_first_scalar(pre) == w);
        assert(pop_first_scalar(pre) =~= rest.subrange(0, i - w));
        assert(b.subrange(i, b.len() as int) =~= rest.subrange(i - w, rest.len() as int));
    }
}

/// Valid UTF-8 cut at two places next to ASCII bytes is valid between them.
pub proof fn lemma_utf8_slice_at_ascii(b: Seq<u8>, i: int, j: int)
    requires
        valid_utf8(b),
        0 <= i <= j <= b.len(),
        ascii_cut(b, i),
        ascii_cut(b, j),
    ensures
        valid_utf8(b.subrange(i, j)),
{
    lemma_utf8_split_at_ascii(b, j);
    let head = b.subrange(0, j);
    assert(i < j ==> head[i] == b[i]);
    assert(0 < i ==> head[i - 1] == b[i - 1]);
    lemma_utf8_split_at_ascii(head, i);
    assert(head.subrange(i, j) =~= b.subrange(i, j));
}

/// The UTF-8 form of joined texts is the join of their UTF-8 forms.
pub proof fn lemma_utf8_concat(a: Seq<char>, b: Seq<char>)
    ensures
        utf8(a + b) == utf8(a) + utf8(b),
    decreases a.len(),
{
    if a.len() == 0 {
        assert(a + b =~= b);
        assert(utf8(a) =~= Seq::<u8>::empty());
        assert(utf8(a) + utf8(b) =~= utf8(b));
    } else {
        lemma_utf8_concat(a.drop_first(), b);
        assert((a + b).drop_first() =~= a.drop_first() + b);
        assert(utf8(a + b) =~= encode_scalar(a[0] as u32) + utf8(a.drop_first() + b));
    }
}

/// A text with at least one character has a non-empty UTF-8 form.
pub proof fn lemma_utf8_nonempty(a: Seq<char>)
    requires
        a.len() > 0,
    ensures
        utf8(a).len() > 0,
{
    encode_utf8_first_scalar(a);
}

/// A byte below 0x80 in the UTF-8 form of a text is a character of that text
/// with the same code.
pub proof fn lemma_utf8_ascii_byte(s: Seq<char>, i: int)
    requires
        0 <= i < utf8(s).len(),
        utf8(s)[i] < 0x80,
    ensures
        exists|j: int| 0 <= j < s.len() && s[j] as u32 == utf8(s)[i] as u32,
    decreases s.len(),
{
    reveal_with_fuel(encode_utf8, 2);
    let c = s[0] as u32;
    let head = encode_scalar(c);
    let tail = encode_utf8(s.drop_first());
    assert(utf8(s) =~= head + tail);
    if i < head.len() {
        if has_width_1_encoding(c) {
            lemma_one_byte_scalar(c);
            assert(s[0] as u32 == utf8(s)[i] as u32);
        } else {
            char_is_scalar(s[0]);
            lemma_high_bit_set(((c >> 6) & 0x1F) as u8);
            lemma_high_bit_set(((c >> 12) & 0x0F) as u8);
            lemma_high_bit_set(((c >> 18) & 0x7) as u8);
            lemma_high_bit_set((c & 0x3F) as u8);
            lemma_high_bit_set(((c >> 6) & 0x3F) as u8);
            lemma_high_bit_set(((c >> 12) & 0x3F) as u8);
            assert(forall|k: int| 0 <= k < head.len() ==> head[k] >= 0x80);
        }
    } else {
        lemma_utf8_ascii_byte(s.drop_first(), i - head.len());
        let j = choose|j: int|
            0 <= j < s.drop_first().len() && s.drop_first()[j] as u32 == tail[i - head.len()] as u32;
        assert(s[j + 1] as u32 == utf8(s)[i] as u32);
    }
}

/// An ASCII byte occurs in the UTF-8 form of a text only where the text has
/// the character with that code.
pub proof fn lemma_utf8_lacks_byte(s: Seq<char>, x: u8)
    requires
        x < 0x80,
        forall|i: int| 0 <= i < s.len() ==> (#[trigger] s[i]) as u32 != x as u32,
    ensures
        forall|j: int| 0 <= j < utf8(s).len() ==> #[trigger] utf8(s)[j] != x,
{
    assert forall|j: int| 0 <= j < utf8(s).len() implies #[trigger] utf8(s)[j] != x by {
        if utf8(s)[j] == x {
            lemma_utf8_ascii_byte(s, j);
        }
    }
}

/// An ASCII character of a text appears as the byte with its code in the
/// text's UTF-8 form.
pub proof fn lemma_utf8_ascii_char(s: Seq<char>, j: int)
    requires
        0 <= j < s.len(),
        (s[j] as u32) < 0x80,
    ensures
        exists|i: int| 0 <= i < utf8(s).len() && utf8(s)[i] as u32 == s[j] as u32,
    decreases s.len(),
{
    reveal_with_fuel(encode_utf8, 2);
    let head = encode_scalar(s[0] as u32);
    let tail = encode_utf8(s.drop_first());
    assert(utf8(s) =~= head + tail);
    if j == 0 {
        lemma_one_byte_scalar(s[0] as u32);
        assert(utf8(s)[0] as u32 == s[0] as u32);
    } else {
        lemma_utf8_ascii_char(s.drop_first(), j - 1);
        let i = choose|i: int|
            0 <= i < tail.len() && tail[i] as u32 == s.drop_first()[j - 1] as u32;
        assert(utf8(s)[head.len() + i] == tail[i]);
    }
}

/// Relies on `String::from_utf8`: it succeeds exactly on valid UTF-8 and then
/// holds the characters those bytes encode.
#[verifier::external_body]
pub(crate) fn string_from_utf8(bytes: Vec<u8>) -> (r: Option<String>)
    ensures
        r is Some <==> valid_utf8(bytes@),
        r is Some ==> r->Some_0@ == decode_utf8(bytes@),
{
    String::from_utf8(bytes).ok()
}

/// Copies `b[start..end]` into a new vector.
pub fn copy_range(b: &[u8], start: usize, end: usize) -> (r: Vec<u8>)
    requires
        start <= end <= b@.len(),
    ensures
        r@ == b@.subrange(start as int, end as int),
{
    let mut r: Vec<u8> = Vec::with_capacity(end - start);
    let mut i: usize = start;
    while i < end
        invariant
            start <= i <= end <= b@.len(),
            r@ == b@.subrange(start as int, i as int),
        decreases end - i,
    {
        r.push(b[i]);
        i += 1;
        assert(r@ =~= b@.subrange(start as int, i as int));
    }
    r
}

/// Appends all of `b` to `out`.
pub fn push_all(out: &mut Vec<u8>, b: &[u8])
    ensures
        final(out)@ == old(out)@ + b@,
{
    let mut i: usize = 0;
    while i < b.len()
        invariant
            0 <= i <= b@.len(),
            out@ == old(out)@ + b@.subrange(0, i as int),
        decreases b@.len() - i,
    {
        out.push(b[i]);
        i += 1;
        assert(out@ =~= old(out)@ + b@.subrange(0, i as int));
    }
    assert(b@.subrange(0, b@.len() as int) =~= b@);
}

/// Whether two byte strings are equal.
pub fn bytes_eq(a: &[u8], b: &[u8]) -> (r: bool)
    ensures
        r == (a@ == b@),
{
    if a.len() != b.len() {
        return false;
    }
    let mut i: usize = 0;
    while i < a.len()
        invariant
            a@.len() == b@.len(),
            0 <= i <= a@.len(),
            a@.subrange(0, i as int) == b@.subrange(0, i as int),
        decreases a@.len() - i,
    {
        if a[i] != b[i] {
            assert(a@[i as int] != b@[i as int]);
            return false;
        }
        i += 1;
        assert(a@.subrange(0, i as int) =~= a@.subrange(0, i as int - 1).push(a@[i - 1]));
        assert(b@.subrange(0, i as int) =~= b@.subrange(0, i as int - 1).push(b@[i - 1]));
    }
    assert(a@ =~= a@.subrange(0, i as int));
    assert(b@ =~= b@.subrange(0, i as int));
    true
}

/// Whether two texts are equal, compared through their UTF-8 forms.
pub fn text_eq(a: &str, b: &str) -> (r: bool)
    ensures
        r == (a@ == b@),
{
    let r = bytes_eq(a.as_bytes(), b.as_bytes());
    proof {
        if r {
            assert(decode_utf8(encode_utf8(a@)) == decode_utf8(encode_utf8(b@)));
        }
    }
    r
}

/// Lexicographic order on byte strings, as the `Ord` of `[u8]` and of
/// `String` has it.
pub open spec fn bytes_lt(a: Seq<u8>, b: Seq<u8>) -> bool
    decreases a.len(),
{
    if a.len() == 0 {
        b.len() > 0
    } else if b.len() == 0 {
        false
    } else if a[0] != b[0] {
        a[0] < b[0]
    } else {
        bytes_lt(a.drop_first(), b.drop_first())
    }
}

/// The order of texts by their UTF-8 forms.
pub open spec fn text_lt(a: Seq<char>, b: Seq<char>) -> bool {
    bytes_lt(utf8(a), utf8(b))
}

pub proof fn lemma_bytes_lt_irreflexive(a: Seq<u8>)
    ensures
        !bytes_lt(a, a),
    decreases a.len(),
{
    if a.len() > 0 {
        lemma_bytes_lt_irreflexive(a.drop_first());
    }
}

pub proof fn lemma_bytes_lt_transitive(a: Seq<u8>, b: Seq<u8>, c: Seq<u8>)
    requires
        bytes_lt(a, b),
        bytes_lt(b, c),
    ensures
        bytes_lt(a, c),
    decreases a.len(),
{
    if a.len() > 0 && b.len() > 0 && c.len() > 0 && a[0] == b[0] && b[0] == c[0] {
        lemma_bytes_lt_transitive(a.drop_first(), b.drop_first(), c.drop_first());
    }
}

pub proof fn lemma_bytes_lt_total(a: Seq<u8>, b: Seq<u8>)
    ensures
        a == b || bytes_lt(a, b) || bytes_lt(b, a),
        !(bytes_lt(a, b) && bytes_lt(b, a)),
    decreases a.len(),
{
    if a.len() > 0 && b.len() > 0 && a[0] == b[0] {
        lemma_bytes_lt_total(a.drop_first(), b.drop_first());
        if a.drop_first() == b.drop_first() {
            assert(a =~= seq![a[0]] + a.drop_first());
            assert(b =~= seq![b[0]] + b.drop_first());
        }
    } else if a.len() == 0 && b.len() == 0 {
        assert(a =~= b);
    }
}

/// The order of texts is strict and total.
pub proof fn lemma_text_lt_total(a: Seq<char>, b: Seq<char>)
    ensures
        a == b || text_lt(a, b) || text_lt(b, a),
        !(text_lt(a, b) && text_lt(b, a)),
        !text_lt(a, a),
{
    lemma_bytes_lt_total(utf8(a), utf8(b));
    lemma_bytes_lt_irreflexive(utf8(a));
    if utf8(a) == utf8(b) {
        assert(decode_utf8(encode_utf8(a)) == decode_utf8(encode_utf8(b)));
    }
}

/// Whether `a` comes before `b` in lexicographic byte order.
pub fn bytes_less(a: &[u8], b: &[u8]) -> (r: bool)
    ensures
        r == bytes_lt(a@, b@),
{
    let mut i: usize = 0;
    assert(a@.subrange(0, a@.len() as int) =~= a@);
    assert(b@.subrange(0, b@.len() as int) =~= b@);
    while i < a.len() && i < b.len() && a[i] == b[i]
        invariant
            0 <= i <= a@.len(),
            i <= b@.len(),
            bytes_lt(a@, b@) == bytes_lt(
                a@.subrange(i as int, a@.len() as int),
                b@.subrange(i as int, b@.len() as int),
            ),
        decreases a@.len() - i,
    {
        let ghost ra = a@.subrange(i as int, a@.len() as int);
        let ghost rb = b@.subrange(i as int, b@.len() as int);
        assert(ra.drop_first() =~= a@.subrange(i + 1, a@.len() as int));
        assert(rb.drop_first() =~= b@.subrange(i + 1, b@.len() as int));
        i += 1;
    }
    let ghost ra = a@.subrange(i as int, a@.len() as int);
    let ghost rb = b@.subrange(i as int, b@.len() as int);
    if i == a.len() {
        i < b.len()
    } else if i == b.len() {
        false
    } else {
        assert(ra[0] == a@[i as int] && rb[0] == b@[i as int]);
        a[i] < b[i]
    }
}

/// Whether `a` comes before `b` in the order of texts.
pub fn text_less(a: &str, b: &str) -> (r: bool)
    ensures
        r == text_lt(a@, b@),
{
    bytes_less(a.as_bytes(), b.as_bytes())
}

} // verus!
