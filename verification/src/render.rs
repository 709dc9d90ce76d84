//! Rendering notes to HTML for `browse`.
//!
//! Two things happen before Markdown conversion: `[[selector]]` wiki links and
//! `#tag` mentions become internal links. Both are rewritten in the source text
//! rather than in the HTML, so the Markdown parser sees ordinary links and
//! handles escaping and code spans for us.

use vstd::prelude::*;
use vstd::utf8::*;

use crate::text::{
    chars_of, extend_chars, extend_str, find_char, find_char_from, is_whitespace, is_ws,
    lemma_find_char_facts, line_ranges, lines, ranges_within, replace, replace_chars, skip_ws,
    slice_vec, spans, starts_with, string_of, trim, trim_range, trim_start,
};

verus! {

// ───────────────────────── percent-encoding ─────────────────────────

/// Bytes that pass through `url_encode` unchanged: ASCII letters and digits
/// and `- _ . ~ : /`.
pub open spec fn unreserved(b: u8) -> bool {
    ||| 65 <= b <= 90
    ||| 97 <= b <= 122
    ||| 48 <= b <= 57
    ||| b == 45
    ||| b == 95
    ||| b == 46
    ||| b == 126
    ||| b == 58
    ||| b == 47
}

/// An upper-case hexadecimal digit.
pub open spec fn hex_upper(d: u8) -> char {
    if d < 10 {
        (48 + d) as char
    } else {
        (55 + d) as char
    }
}

/// How one byte is written: as itself, or as `%XX`.
pub open spec fn encoded_byte(b: u8) -> Seq<char> {
    if unreserved(b) {
        seq![b as char]
    } else {
        seq!['%', hex_upper(b / 16), hex_upper(b % 16)]
    }
}

/// Percent-encoding of a byte string.
pub open spec fn url_encoded(b: Seq<u8>) -> Seq<char>
    decreases b.len(),
{
    if b.len() == 0 {
        seq![]
    } else {
        url_encoded(b.drop_last()) + encoded_byte(b.last())
    }
}

fn hex_digit_upper(d: u8) -> (r: char)
    requires
        d < 16,
    ensures
        r == hex_upper(d),
{
    if d < 10 {
        (48 + d) as char
    } else {
        (55 + d) as char
    }
}

/// Each byte is written as itself when it is an ASCII letter or digit or
/// one of `- _ . ~ : /`, and otherwise as `%` and its two upper-case
/// hexadecimal digits.
pub proof fn lemma_byte_written(b: u8)
    ensures
        ('a' <= (b as char) <= 'z' || 'A' <= (b as char) <= 'Z' || '0' <= (b as char) <= '9'
            || b as char == '-' || b as char == '_' || b as char == '.' || b as char == '~'
            || b as char == ':' || b as char == '/') ==> encoded_byte(b) == seq![b as char],
        !('a' <= (b as char) <= 'z' || 'A' <= (b as char) <= 'Z' || '0' <= (b as char) <= '9'
            || b as char == '-' || b as char == '_' || b as char == '.' || b as char == '~'
            || b as char == ':' || b as char == '/') ==> encoded_byte(b) == seq![
            '%',
            seq!['0', '1', '2', '3', '4', '5', '6', '7', '8', '9', 'A', 'B', 'C', 'D', 'E', 'F'][(b / 16) as int],
            seq!['0', '1', '2', '3', '4', '5', '6', '7', '8', '9', 'A', 'B', 'C', 'D', 'E', 'F'][(b % 16) as int],
        ],
{
    let h = seq!['0', '1', '2', '3', '4', '5', '6', '7', '8', '9', 'A', 'B', 'C', 'D', 'E', 'F'];
    assert(hex_upper(b / 16) == h[(b / 16) as int]);
    assert(hex_upper(b % 16) == h[(b % 16) as int]);
}

/// Percent-encode everything outside the unreserved set.
pub fn url_encode(value: &str) -> (r: String)
    ensures
        r@ == url_encoded(encode_utf8(value@)),
{
    let bytes = value.as_bytes();
    let mut out: Vec<char> = Vec::new();
    for i in 0..bytes.len()
        invariant
            bytes@ == encode_utf8(value@),
            out@ == url_encoded(bytes@.take(i as int)),
    {
        let b = bytes[i];
        if (65 <= b && b <= 90) || (97 <= b && b <= 122) || (48 <= b && b <= 57) || b == 45 || b
            == 95 || b == 46 || b == 126 || b == 58 || b == 47 {
            out.push(b as char);
        } else {
            out.push('%');
            out.push(hex_digit_upper(b / 16));
            out.push(hex_digit_upper(b % 16));
        }
        assert(bytes@.take(i + 1).drop_last() =~= bytes@.take(i as int));
        assert(out@ =~= url_encoded(bytes@.take(i + 1)));
    }
    assert(bytes@.take(bytes@.len() as int) =~= bytes@);
    string_of(&out)
}

/// The value of a hexadecimal digit in either case.
pub open spec fn hex_value(b: u8) -> Option<u8> {
    if 48 <= b <= 57 {
        Some((b - 48) as u8)
    } else if 97 <= b <= 102 {
        Some((b - 87) as u8)
    } else if 65 <= b <= 70 {
        Some((b - 55) as u8)
    } else {
        None
    }
}

/// `u8::from_str_radix(_, 16)` on two bytes: two hex digits, or a `+` sign
/// and one.
pub open spec fn hex_pair(x: u8, y: u8) -> Option<u8> {
    if x == 43 {
        hex_value(y)
    } else {
        match (hex_value(x), hex_value(y)) {
            (Some(a), Some(b)) => Some((16 * a + b) as u8),
            _ => None,
        }
    }
}

/// The bytes a percent-encoded byte string decodes to: `%XX` becomes the byte
/// it names when `XX` parses, `+` becomes a space, anything else stays.
pub open spec fn url_decoded(b: Seq<u8>) -> Seq<u8>
    decreases b.len(),
{
    if b.len() == 0 {
        seq![]
    } else if b[0] == 37 && 2 < b.len() && hex_pair(b[1], b[2]) is Some {
        seq![hex_pair(b[1], b[2]).unwrap()] + url_decoded(b.skip(3))
    } else if b[0] == 43 {
        seq![32u8] + url_decoded(b.skip(1))
    } else {
        seq![b[0]] + url_decoded(b.skip(1))
    }
}

/// What `String::from_utf8_lossy` makes of a byte string.
pub uninterp spec fn utf8_lossy(bytes: Seq<u8>) -> Seq<char>;

/// `String::from_utf8_lossy`: the bytes as text, each invalid sequence
/// replaced by U+FFFD. Its contract names the result and states the
/// documented case of valid UTF-8, which comes back unchanged.
#[verifier::external_body]
fn from_utf8_lossy(bytes: &[u8]) -> (r: String)
    ensures
        r@ == utf8_lossy(bytes@),
        valid_utf8(bytes@) ==> r@ == decode_utf8(bytes@),
{
    String::from_utf8_lossy(bytes).into_owned()
}

fn hex_value_exec(b: u8) -> (r: Option<u8>)
    ensures
        r == hex_value(b),
{
    if 48 <= b && b <= 57 {
        Some(b - 48)
    } else if 97 <= b && b <= 102 {
        Some(b - 87)
    } else if 65 <= b && b <= 70 {
        Some(b - 55)
    } else {
        None
    }
}

fn hex_pair_exec(x: u8, y: u8) -> (r: Option<u8>)
    ensures
        r == hex_pair(x, y),
{
    if x == 43 {
        hex_value_exec(y)
    } else {
        match (hex_value_exec(x), hex_value_exec(y)) {
            (Some(a), Some(b)) => Some(16 * a + b),
            _ => None,
        }
    }
}

/// Decode a percent-encoded string, treating `+` as a space.
pub fn url_decode(value: &str) -> (r: String)
    ensures
        r@ == utf8_lossy(url_decoded(encode_utf8(value@))),
        valid_utf8(url_decoded(encode_utf8(value@))) ==> r@ == decode_utf8(
            url_decoded(encode_utf8(value@)),
        ),
{
    let bytes = value.as_bytes();
    let mut out: Vec<u8> = Vec::new();
    let mut i: usize = 0;
    assert(bytes@.skip(0) =~= bytes@);
    while i < bytes.len()
        invariant
            i <= bytes@.len(),
            url_decoded(bytes@) == out@ + url_decoded(bytes@.skip(i as int)),
        decreases bytes@.len() - i,
    {
        let ghost rest = bytes@.skip(i as int);
        let b = bytes[i];
        if b == 37 && bytes.len() - i > 2 {
            match hex_pair_exec(bytes[i + 1], bytes[i + 2]) {
                Some(v) => {
                    out.push(v);
                    assert(rest.skip(3) =~= bytes@.skip(i + 3));
                    i += 3;
                },
                None => {
                    out.push(b);
                    assert(rest.skip(1) =~= bytes@.skip(i + 1));
                    i += 1;
                },
            }
        } else if b == 43 {
            out.push(32);
            assert(rest.skip(1) =~= bytes@.skip(i + 1));
            i += 1;
        } else {
            out.push(b);
            assert(rest.skip(1) =~= bytes@.skip(i + 1));
            i += 1;
        }
    }
    assert(url_decoded(bytes@.skip(i as int)) =~= Seq::<u8>::empty());
    assert(out@ + Seq::<u8>::empty() =~= out@);
    from_utf8_lossy(out.as_slice())
}

// ───────────────────────── the round trip ─────────────────────────

/// The bytes of an ASCII character string.
pub open spec fn ascii_bytes(s: Seq<char>) -> Seq<u8> {
    s.map_values(|c: char| c as u8)
}

proof fn lemma_encoded_front(b: Seq<u8>)
    requires
        b.len() > 0,
    ensures
        url_encoded(b) == encoded_byte(b[0]) + url_encoded(b.drop_first()),
    decreases b.len(),
{
    if b.len() == 1 {
        assert(b.drop_last() =~= Seq::<u8>::empty());
        assert(b.drop_first() =~= Seq::<u8>::empty());
        assert(url_encoded(b.drop_first()) =~= Seq::<char>::empty());
        assert(url_encoded(b.drop_last()) =~= Seq::<char>::empty());
        assert(url_encoded(b) =~= encoded_byte(b[0]));
    } else {
        lemma_encoded_front(b.drop_last());
        assert(b.drop_last().drop_first() =~= b.drop_first().drop_last());
        assert(b.drop_first().last() == b.last());
        assert(url_encoded(b) =~= encoded_byte(b[0]) + url_encoded(b.drop_first()));
    }
}

proof fn lemma_hex_upper(d: u8)
    requires
        d < 16,
    ensures
        (hex_upper(d) as u32) < 128,
        hex_value(hex_upper(d) as u8) == Some(d),
        hex_upper(d) != '%',
        hex_upper(d) != '+',
{
}

proof fn lemma_encoded_byte(b: u8)
    ensures
        is_ascii_chars(encoded_byte(b)),
        encoded_byte(b).len() >= 1,
        encoded_byte(b).len() == 1 ==> b != 37 && b != 43 && encoded_byte(b)[0] as u8 == b,
        encoded_byte(b).len() != 1 ==> encoded_byte(b).len() == 3 && encoded_byte(b)[0] == '%'
            && hex_pair(encoded_byte(b)[1] as u8, encoded_byte(b)[2] as u8) == Some(b),
{
    lemma_hex_upper(b / 16);
    lemma_hex_upper(b % 16);
    if !unreserved(b) {
        assert(hex_value(hex_upper(b / 16) as u8) == Some(b / 16));
        assert(16 * (b / 16) + b % 16 == b);
    }
}

proof fn lemma_encoded_ascii(b: Seq<u8>)
    ensures
        is_ascii_chars(url_encoded(b)),
    decreases b.len(),
{
    if b.len() > 0 {
        lemma_encoded_ascii(b.drop_last());
        lemma_encoded_byte(b.last());
        let e = url_encoded(b);
        let p = url_encoded(b.drop_last());
        assert forall|i: int| 0 <= i < e.len() implies '\0' <= #[trigger] e[i] <= '\u{7f}' by {
            if i < p.len() {
                assert(e[i] == p[i]);
            } else {
                assert(e[i] == encoded_byte(b.last())[i - p.len()]);
            }
        }
    }
}

proof fn lemma_decode_encoded(b: Seq<u8>, y: Seq<u8>)
    ensures
        url_decoded(ascii_bytes(url_encoded(b)) + y) == b + url_decoded(y),
    decreases b.len(),
{
    if b.len() == 0 {
        assert(ascii_bytes(url_encoded(b)) + y =~= y);
        assert(b + url_decoded(y) =~= url_decoded(y));
    } else {
        lemma_encoded_front(b);
        lemma_encoded_byte(b[0]);
        let p = encoded_byte(b[0]);
        let rest = url_encoded(b.drop_first());
        let whole = ascii_bytes(url_encoded(b)) + y;
        assert(whole =~= ascii_bytes(p) + (ascii_bytes(rest) + y));
        lemma_decode_encoded(b.drop_first(), y);
        assert(whole.skip(p.len() as int) =~= ascii_bytes(rest) + y);
        if p.len() == 1 {
            assert(whole[0] == b[0]);
        } else {
            assert(whole[0] == 37u8);
            assert(whole[1] == p[1] as u8);
            assert(whole[2] == p[2] as u8);
        }
        assert(url_decoded(whole) =~= seq![b[0]] + (b.drop_first() + url_decoded(y)));
        assert(b =~= seq![b[0]] + b.drop_first());
    }
}

/// Percent-encoding is undone by decoding: the text `url_encode` makes of any
/// string decodes to the string's own bytes, and those bytes are valid UTF-8
/// that read back as the string.
pub proof fn lemma_url_round_trip(s: Seq<char>)
    ensures
        url_decoded(encode_utf8(url_encoded(encode_utf8(s)))) == encode_utf8(s),
        valid_utf8(url_decoded(encode_utf8(url_encoded(encode_utf8(s))))),
        decode_utf8(url_decoded(encode_utf8(url_encoded(encode_utf8(s))))) == s,
{
    let e = url_encoded(encode_utf8(s));
    lemma_encoded_ascii(encode_utf8(s));
    is_ascii_chars_encode_utf8(e);
    let bytes = encode_utf8(e);
    assert(bytes =~= ascii_bytes(e));
    encode_utf8_valid_utf8(e);
    lemma_decode_encoded(encode_utf8(s), seq![]);
    assert(ascii_bytes(e) + Seq::<u8>::empty() =~= ascii_bytes(e));
    assert(encode_utf8(s) + url_decoded(Seq::<u8>::empty()) =~= encode_utf8(s));
    encode_utf8_valid_utf8(s);
    encode_utf8_decode_utf8(s);
}

// ───────────────────────── internal links ─────────────────────────

/// Where internal links point.
#[derive(Debug, Clone)]
pub struct LinkBase {
    /// Host and port, e.g. `//localhost:6789`.
    pub prefix: String,
    /// Notebook that unqualified selectors belong to.
    pub notebook: String,
}

/// A selector with its notebook: unqualified ones belong to `notebook`.
pub open spec fn scoped_selector(notebook: Seq<char>, selector: Seq<char>) -> Seq<char> {
    if find_char_from(selector, ':', 0) is Some {
        selector
    } else {
        notebook + seq![':'] + selector
    }
}

/// The URL of an item.
pub open spec fn item_url_text(prefix: Seq<char>, notebook: Seq<char>, selector: Seq<char>) -> Seq<
    char,
> {
    prefix + seq!['/'] + url_encoded(encode_utf8(scoped_selector(notebook, selector)))
}

/// The URL of a search for a tag.
pub open spec fn tag_url_text(prefix: Seq<char>, notebook: Seq<char>, tag: Seq<char>) -> Seq<char> {
    prefix + seq!['/'] + notebook + ":?--query="@ + url_encoded(encode_utf8(seq!['#'] + tag))
}

impl LinkBase {
    pub fn new(prefix: &str, notebook: &str) -> (r: LinkBase)
        ensures
            r.prefix@ == prefix@,
            r.notebook@ == notebook@,
    {
        LinkBase { prefix: prefix.to_owned(), notebook: notebook.to_owned() }
    }

    fn item_url(&self, selector: &[char]) -> (r: Vec<char>)
        ensures
            r@ == item_url_text(self.prefix@, self.notebook@, selector@),
    {
        let mut scoped: Vec<char> = Vec::new();
        match find_char(selector, ':', 0) {
            Some(_) => {},
            None => {
                extend_str(&mut scoped, self.notebook.as_str());
                scoped.push(':');
            },
        }
        extend_chars(&mut scoped, selector);
        assert(scoped@ =~= scoped_selector(self.notebook@, selector@));
        let s = string_of(&scoped);
        let enc = url_encode(s.as_str());
        let mut out: Vec<char> = Vec::new();
        extend_str(&mut out, self.prefix.as_str());
        out.push('/');
        extend_str(&mut out, enc.as_str());
        assert(out@ =~= item_url_text(self.prefix@, self.notebook@, selector@));
        out
    }

    fn tag_url(&self, tag: &[char]) -> (r: Vec<char>)
        ensures
            r@ == tag_url_text(self.prefix@, self.notebook@, tag@),
    {
        let mut hashed: Vec<char> = Vec::new();
        hashed.push('#');
        extend_chars(&mut hashed, tag);
        assert(hashed@ =~= seq!['#'] + tag@);
        let s = string_of(&hashed);
        let enc = url_encode(s.as_str());
        let mut out: Vec<char> = Vec::new();
        extend_str(&mut out, self.prefix.as_str());
        out.push('/');
        extend_str(&mut out, self.notebook.as_str());
        extend_str(&mut out, ":?--query=");
        extend_str(&mut out, enc.as_str());
        assert(out@ =~= tag_url_text(self.prefix@, self.notebook@, tag@));
        out
    }
}

/// What `char::is_alphanumeric` says of a character.
pub uninterp spec fn alphanumeric(c: char) -> bool;

/// `char::is_alphanumeric`: the Unicode `Alphabetic` or `Numeric` property.
/// The tables behind it are not restated; its contract names the result.
#[verifier::external_body]
fn is_alphanumeric(c: char) -> (r: bool)
    ensures
        r == alphanumeric(c),
{
    c.is_alphanumeric()
}

/// A character that can open a tag.
pub open spec fn tag_start(c: char) -> bool {
    alphanumeric(c) || c == '_'
}

/// A character that can continue a tag.
pub open spec fn tag_char(c: char) -> bool {
    alphanumeric(c) || c == '_' || c == '-'
}

/// The first `]]` at or after `from`.
pub open spec fn find_close(t: Seq<char>, from: int) -> Option<int>
    decreases t.len() - from,
{
    if from < 0 || from + 1 >= t.len() {
        None
    } else if t[from] == ']' && t[from + 1] == ']' {
        Some(from)
    } else {
        find_close(t, from + 1)
    }
}

pub proof fn lemma_find_close(t: Seq<char>, from: int)
    requires
        0 <= from,
    ensures
        find_close(t, from) matches Some(k) ==> from <= k && k + 1 < t.len() && t[k] == ']'
            && t[k + 1] == ']',
    decreases t.len() - from,
{
    if from + 1 < t.len() && !(t[from] == ']' && t[from + 1] == ']') {
        lemma_find_close(t, from + 1);
    }
}

/// Where a tag starting at `j` ends.
pub open spec fn tag_end(t: Seq<char>, j: int) -> int
    decreases t.len() - j,
{
    if j < 0 || j >= t.len() {
        t.len() as int
    } else if tag_char(t[j]) {
        tag_end(t, j + 1)
    } else {
        j
    }
}

pub proof fn lemma_tag_end(t: Seq<char>, j: int)
    requires
        0 <= j <= t.len(),
    ensures
        j <= tag_end(t, j) <= t.len(),
        j < t.len() && tag_char(t[j]) ==> j < tag_end(t, j),
    decreases t.len() - j,
{
    if j < t.len() && tag_char(t[j]) {
        lemma_tag_end(t, j + 1);
    }
}

pub open spec fn all_ws(s: Seq<char>) -> bool {
    forall|k: int| 0 <= k < s.len() ==> is_ws(s[k])
}

/// A `[[selector]]` opening at `i`: where its `]]` is, and the selector.
pub open spec fn wiki_at(t: Seq<char>, i: int) -> Option<(int, Seq<char>)> {
    if 0 <= i && i + 1 < t.len() && t[i] == '[' && t[i + 1] == '[' {
        match find_close(t, i + 2) {
            Some(end) => if trim(t.subrange(i + 2, end)).len() > 0 {
                Some((end, trim(t.subrange(i + 2, end))))
            } else {
                None
            },
            None => None,
        }
    } else {
        None
    }
}

/// A `#tag` at `i`: after whitespace, not at the start of the line's text,
/// and followed by a tag character.
pub open spec fn tag_at(t: Seq<char>, i: int) -> bool {
    &&& 0 < i
    &&& i + 1 < t.len()
    &&& t[i] == '#'
    &&& tag_start(t[i + 1])
    &&& is_ws(t[i - 1])
    &&& !all_ws(t.take(i))
}

/// The text from `i` on with wiki links and tags rewritten as Markdown links.
pub open spec fn linked_from(t: Seq<char>, prefix: Seq<char>, notebook: Seq<char>, i: int) -> Seq<
    char,
>
    decreases t.len() - i,
{
    if i < 0 || i >= t.len() {
        seq![]
    } else {
        match wiki_at(t, i) {
            Some((end, sel)) => {
                proof {
                    lemma_find_close(t, i + 2);
                }
                "[\\[\\["@ + sel + "\\]\\]]("@ + item_url_text(prefix, notebook, sel) + ")"@
                    + linked_from(t, prefix, notebook, end + 2)
            },
            None => if tag_at(t, i) {
                proof {
                    lemma_tag_end(t, i + 1);
                }
                let e = tag_end(t, i + 1);
                let tag = t.subrange(i + 1, e);
                "[#"@ + tag + "]("@ + tag_url_text(prefix, notebook, tag) + ")"@ + linked_from(
                    t,
                    prefix,
                    notebook,
                    e,
                )
            } else {
                seq![t[i]] + linked_from(t, prefix, notebook, i + 1)
            },
        }
    }
}

fn find_close_exec(t: &[char], from: usize) -> (r: Option<usize>)
    ensures
        r matches Some(k) ==> find_close(t@, from as int) == Some(k as int),
        r is None ==> find_close(t@, from as int) is None,
{
    let mut i = from;
    while i < t.len() && t.len() - i > 1
        invariant
            from <= i,
            find_close(t@, from as int) == find_close(t@, i as int),
        decreases t@.len() - i,
    {
        if t[i] == ']' && t[i + 1] == ']' {
            return Some(i);
        }
        i += 1;
    }
    None
}

fn all_whitespace(t: &[char], to: usize) -> (r: bool)
    requires
        to <= t@.len(),
    ensures
        r == all_ws(t@.take(to as int)),
{
    let mut k: usize = 0;
    while k < to
        invariant
            to <= t@.len(),
            k <= to,
            all_ws(t@.take(k as int)),
        decreases to - k,
    {
        if !is_whitespace(t[k]) {
            assert(t@.take(to as int)[k as int] == t@[k as int]);
            return false;
        }
        assert(t@.take(k + 1) =~= t@.take(k as int).push(t@[k as int]));
        k += 1;
    }
    true
}

fn wiki_at_exec(t: &[char], i: usize) -> (r: Option<(usize, Vec<char>)>)
    requires
        i < t@.len(),
    ensures
        match wiki_at(t@, i as int) {
            Some((end, sel)) => r matches Some((e, s)) && e == end && s@ == sel,
            None => r is None,
        },
{
    if t.len() - i > 1 && t[i] == '[' && t[i + 1] == '[' {
        match find_close_exec(t, i + 2) {
            Some(end) => {
                proof {
                    lemma_find_close(t@, i + 2);
                }
                let (a, b) = trim_range(t, i + 2, end);
                if b > a {
                    Some((end, slice_vec(t, a, b)))
                } else {
                    None
                }
            },
            None => None,
        }
    } else {
        None
    }
}

fn linkify_text(t: &[char], base: &LinkBase) -> (r: Vec<char>)
    ensures
        r@ == linked_from(t@, base.prefix@, base.notebook@, 0),
{
    proof {
        reveal_strlit(")");
    }
    let mut out: Vec<char> = Vec::new();
    let mut i: usize = 0;
    while i < t.len()
        invariant
            i <= t@.len(),
            ")"@ == seq![')'],
            linked_from(t@, base.prefix@, base.notebook@, 0) == out@ + linked_from(
                t@,
                base.prefix@,
                base.notebook@,
                i as int,
            ),
        decreases t@.len() - i,
    {
        let ghost before = out@;
        match wiki_at_exec(t, i) {
            Some((end, sel)) => {
                proof {
                    lemma_find_close(t@, i + 2);
                }
                extend_str(&mut out, "[\\[\\[");
                extend_chars(&mut out, &sel);
                extend_str(&mut out, "\\]\\]](");
                extend_chars(&mut out, &base.item_url(&sel));
                out.push(')');
                assert(out@ =~= before + ("[\\[\\["@ + sel@ + "\\]\\]]("@ + item_url_text(
                    base.prefix@,
                    base.notebook@,
                    sel@,
                ) + ")"@));
                i = end + 2;
                continue;
            },
            None => {},
        }
        if t[i] == '#' && t.len() - i > 1 && i > 0 && (t[i + 1] == '_' || is_alphanumeric(t[i + 1]))
            && is_whitespace(t[i - 1]) && !all_whitespace(t, i) {
            proof {
                lemma_tag_end(t@, i + 1);
            }
            let mut e = i + 1;
            while e < t.len() && (t[e] == '_' || t[e] == '-' || is_alphanumeric(t[e]))
                invariant
                    i + 1 <= e <= t@.len(),
                    tag_end(t@, i + 1) == tag_end(t@, e as int),
                decreases t@.len() - e,
            {
                e += 1;
            }
            let tag = slice_vec(t, i + 1, e);
            extend_str(&mut out, "[#");
            extend_chars(&mut out, &tag);
            extend_str(&mut out, "](");
            extend_chars(&mut out, &base.tag_url(&tag));
            out.push(')');
            assert(out@ =~= before + ("[#"@ + tag@ + "]("@ + tag_url_text(
                base.prefix@,
                base.notebook@,
                tag@,
            ) + ")"@));
            i = e;
        } else {
            out.push(t[i]);
            i += 1;
        }
    }
    assert(out@ + Seq::<char>::empty() =~= out@);
    out
}

/// A line with code spans passed through: text between backticks from `i` on,
/// alternating between linked text and code.
pub open spec fn linked_line(s: Seq<char>, prefix: Seq<char>, notebook: Seq<char>, i: int, in_code: bool) -> Seq<char>
    decreases s.len() - i,
{
    if i < 0 || i > s.len() {
        seq![]
    } else {
        match find_char_from(s, '`', i) {
            Some(k) => {
                proof {
                    lemma_find_char_facts(s, '`', i);
                }
                (if in_code {
                    s.subrange(i, k)
                } else {
                    linked_from(s.subrange(i, k), prefix, notebook, 0)
                }) + seq!['`'] + linked_line(s, prefix, notebook, k + 1, !in_code)
            },
            None => if in_code {
                s.skip(i)
            } else {
                linked_from(s.skip(i), prefix, notebook, 0)
            },
        }
    }
}

fn linkify_line(line: &[char], base: &LinkBase) -> (r: Vec<char>)
    ensures
        r@ == linked_line(line@, base.prefix@, base.notebook@, 0, false),
{
    let mut out: Vec<char> = Vec::new();
    let mut i: usize = 0;
    let mut in_code = false;
    while i < line.len()
        invariant
            i <= line@.len(),
            linked_line(line@, base.prefix@, base.notebook@, 0, false) == out@ + linked_line(
                line@,
                base.prefix@,
                base.notebook@,
                i as int,
                in_code,
            ),
        decreases line@.len() - i,
    {
        let ghost before = out@;
        match find_char(line, '`', i) {
            Some(k) => {
                proof {
                    lemma_find_char_facts(line@, '`', i as int);
                }
                let piece = slice_vec(line, i, k);
                if in_code {
                    extend_chars(&mut out, &piece);
                } else {
                    extend_chars(&mut out, &linkify_text(&piece, base));
                }
                out.push('`');
                assert(out@ =~= before + ((if in_code {
                    line@.subrange(i as int, k as int)
                } else {
                    linked_from(line@.subrange(i as int, k as int), base.prefix@, base.notebook@, 0)
                }) + seq!['`']));
                i = k + 1;
                in_code = !in_code;
            },
            None => {
                let piece = slice_vec(line, i, line.len());
                assert(piece@ =~= line@.skip(i as int));
                if in_code {
                    extend_chars(&mut out, &piece);
                } else {
                    extend_chars(&mut out, &linkify_text(&piece, base));
                }
                assert(linked_line(line@, base.prefix@, base.notebook@, line@.len() as int, in_code)
                    =~= Seq::<char>::empty()) by {
                    assert(line@.skip(line@.len() as int) =~= Seq::<char>::empty());
                }
                i = line.len();
            },
        }
    }
    proof {
        assert(line@.skip(i as int) =~= Seq::<char>::empty());
        assert(linked_from(Seq::<char>::empty(), base.prefix@, base.notebook@, 0) =~= Seq::<char>::empty());
    }
    assert(out@ + Seq::<char>::empty() =~= out@);
    out
}

/// A line that opens or closes a fenced code block.
pub open spec fn is_fence(line: Seq<char>) -> bool {
    "```"@.is_prefix_of(trim_start(line)) || "~~~"@.is_prefix_of(trim_start(line))
}

/// Whether the lines before `k` leave a fenced block open.
pub open spec fn fenced_before(ls: Seq<Seq<char>>, k: int) -> bool
    decreases k,
{
    if k <= 0 {
        false
    } else {
        fenced_before(ls, k - 1) != is_fence(ls[k - 1])
    }
}

/// Line `k` as `linkify` writes it, with its newline.
pub open spec fn linked_line_at(ls: Seq<Seq<char>>, prefix: Seq<char>, notebook: Seq<char>, k: int) -> Seq<char> {
    if is_fence(ls[k]) || fenced_before(ls, k) {
        ls[k] + seq!['\n']
    } else {
        linked_line(ls[k], prefix, notebook, 0, false) + seq!['\n']
    }
}

/// The first `n` lines as `linkify` writes them.
pub open spec fn linked_lines(ls: Seq<Seq<char>>, prefix: Seq<char>, notebook: Seq<char>, n: int) -> Seq<char>
    decreases n,
{
    if n <= 0 {
        seq![]
    } else {
        linked_lines(ls, prefix, notebook, n - 1) + linked_line_at(ls, prefix, notebook, n - 1)
    }
}

/// Note source with `[[selector]]` and `#tag` rewritten as Markdown links,
/// fenced blocks and code spans untouched, and a final newline only where the
/// source had one.
pub open spec fn linked(markdown: Seq<char>, prefix: Seq<char>, notebook: Seq<char>) -> Seq<char> {
    let ls = lines(markdown);
    let out = linked_lines(ls, prefix, notebook, ls.len() as int);
    if !(markdown.len() > 0 && markdown.last() == '\n') && out.len() > 0 && out.last() == '\n' {
        out.drop_last()
    } else {
        out
    }
}

fn is_fence_exec(line: &[char]) -> (r: bool)
    ensures
        r == is_fence(line@),
{
    let k = skip_ws(line, 0, line.len());
    let t = slice_vec(line, k, line.len());
    proof {
        assert(line@.subrange(0, line@.len() as int) =~= line@);
    }
    assert(t@ == trim_start(line@));
    starts_with(&t, &chars_of("```")) || starts_with(&t, &chars_of("~~~"))
}

/// Rewrite `[[selector]]` and `#tag` as Markdown links.
///
/// Fenced and inline code are left alone — a `#comment` in a shell snippet is
/// not a tag, and turning it into a link would corrupt the sample.
pub fn linkify(markdown: &str, base: &LinkBase) -> (r: String)
    ensures
        r@ == linked(markdown@, base.prefix@, base.notebook@),
{
    let m = chars_of(markdown);
    let ranges = line_ranges(&m);
    let ghost ls = lines(m@);
    let mut out: Vec<char> = Vec::new();
    let mut fenced = false;
    for k in 0..ranges.len()
        invariant
            spans(m@, ranges@) == ls,
            ranges_within(ranges@, m@.len() as int),
            fenced == fenced_before(ls, k as int),
            out@ == linked_lines(ls, base.prefix@, base.notebook@, k as int),
    {
        let (a, b) = ranges[k];
        assert(ranges@[k as int].0 <= ranges@[k as int].1 <= m@.len());
        let line = slice_vec(&m, a, b);
        assert(line@ == ls[k as int]);
        let fence = is_fence_exec(&line);
        if fence {
            fenced = !fenced;
            extend_chars(&mut out, &line);
        } else if fenced {
            extend_chars(&mut out, &line);
        } else {
            extend_chars(&mut out, &linkify_line(&line, base));
        }
        out.push('\n');
    }
    let n = out.len();
    if !(m.len() > 0 && m[m.len() - 1] == '\n') && n > 0 && out[n - 1] == '\n' {
        out.pop();
    }
    proof {
        assert(ls.len() == ranges@.len());
    }
    string_of(&out)
}

/// What pulldown-cmark's HTML writer makes of Markdown source, parsed with the
/// extensions `options` names.
pub uninterp spec fn markdown_html(source: Seq<char>, options: u32) -> Seq<char>;

/// `pulldown_cmark::html::push_html` over `Parser::new_ext`: the HTML for
/// Markdown source under the given extension bits. Its contract names the
/// result; what HTML CommonMark prescribes is not restated.
#[verifier::external_body]
fn markdown_to_html(source: &str, options: u32) -> (r: String)
    ensures
        r@ == markdown_html(source@, options),
{
    let mut out = String::new();
    let parser = pulldown_cmark::Parser::new_ext(source, pulldown_cmark::Options::from_bits_truncate(options));
    pulldown_cmark::html::push_html(&mut out, parser);
    out
}

/// Tables, footnotes, strikethrough and task lists.
pub const MARKDOWN_EXTENSIONS: u32 = 30;

/// Convert note source to an HTML fragment.
pub fn to_html(markdown: &str, base: &LinkBase) -> (r: String)
    ensures
        r@ == markdown_html(linked(markdown@, base.prefix@, base.notebook@), MARKDOWN_EXTENSIONS),
{
    let linked = linkify(markdown, base);
    markdown_to_html(linked.as_str(), MARKDOWN_EXTENSIONS)
}

// ───────────────────────── HTML ─────────────────────────

/// `& < > "` as HTML entities.
pub open spec fn escaped(t: Seq<char>) -> Seq<char> {
    replace(replace(replace(replace(t, "&"@, "&amp;"@), "<"@, "&lt;"@), ">"@, "&gt;"@), "\""@,
        "&quot;"@)
}

/// Escape text for inclusion in HTML.
pub fn escape(text: &str) -> (r: String)
    ensures
        r@ == escaped(text@),
{
    proof {
        reveal_strlit("&");
        reveal_strlit("<");
        reveal_strlit(">");
        reveal_strlit("\"");
    }
    let t = chars_of(text);
    let a = replace_chars(&t, &chars_of("&"), &chars_of("&amp;"));
    let b = replace_chars(&a, &chars_of("<"), &chars_of("&lt;"));
    let c = replace_chars(&b, &chars_of(">"), &chars_of("&gt;"));
    let d = replace_chars(&c, &chars_of("\""), &chars_of("&quot;"));
    string_of(&d)
}

} // verus!
