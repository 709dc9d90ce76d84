//! Character-level text primitives shared by every parser in the crate.
//!
//! Text is handled as sequences of `char`; every index in this module is a
//! character index, never a byte offset.

use vstd::prelude::*;

verus! {

// ───────────────────────── character classes ─────────────────────────

/// `char::is_whitespace`: the Unicode `White_Space` property.
pub open spec fn is_ws(c: char) -> bool {
    ||| c == ' '
    ||| ('\t' <= c && c <= '\r')
    ||| c == '\u{85}'
    ||| c == '\u{a0}'
    ||| c == '\u{1680}'
    ||| ('\u{2000}' <= c && c <= '\u{200a}')
    ||| c == '\u{2028}'
    ||| c == '\u{2029}'
    ||| c == '\u{202f}'
    ||| c == '\u{205f}'
    ||| c == '\u{3000}'
}

pub fn is_whitespace(c: char) -> (r: bool)
    ensures
        r == is_ws(c),
{
    c == ' ' || ('\t' <= c && c <= '\r') || c == '\u{85}' || c == '\u{a0}' || c == '\u{1680}'
        || ('\u{2000}' <= c && c <= '\u{200a}') || c == '\u{2028}' || c == '\u{2029}' || c
        == '\u{202f}' || c == '\u{205f}' || c == '\u{3000}'
}

pub open spec fn is_digit(c: char) -> bool {
    '0' <= c && c <= '9'
}

pub open spec fn is_upper(c: char) -> bool {
    'A' <= c && c <= 'Z'
}

pub open spec fn is_lower(c: char) -> bool {
    'a' <= c && c <= 'z'
}

pub open spec fn is_ascii_alnum(c: char) -> bool {
    is_digit(c) || is_upper(c) || is_lower(c)
}

/// `char::is_ascii_punctuation`.
pub open spec fn is_ascii_punct(c: char) -> bool {
    ||| ('!' <= c && c <= '/')
    ||| (':' <= c && c <= '@')
    ||| ('[' <= c && c <= '`')
    ||| ('{' <= c && c <= '~')
}

/// `char::to_ascii_lowercase`.
pub open spec fn lower_char(c: char) -> char {
    if is_upper(c) {
        ((c as u32) + 32) as char
    } else {
        c
    }
}

pub fn to_lower_char(c: char) -> (r: char)
    ensures
        r == lower_char(c),
{
    if 'A' <= c && c <= 'Z' {
        let v: u32 = (c as u32) + 32;
        assert(0x61 <= v <= 0x7a);
        char_from_ascii(v)
    } else {
        c
    }
}

/// The character with an ASCII code point.
pub fn char_from_ascii(v: u32) -> (r: char)
    requires
        v < 128,
    ensures
        r == v as char,
        r as u32 == v,
{
    let b: u8 = v as u8;
    b as char
}

/// `str::to_ascii_lowercase`, per character.
pub open spec fn lower(s: Seq<char>) -> Seq<char> {
    s.map_values(|c: char| lower_char(c))
}

pub fn to_lower(s: &[char]) -> (r: Vec<char>)
    ensures
        r@ == lower(s@),
{
    let mut r: Vec<char> = Vec::new();
    for i in 0..s.len()
        invariant
            r@ == lower(s@.take(i as int)),
    {
        r.push(to_lower_char(s[i]));
        assert(lower(s@.take(i + 1)) =~= lower(s@.take(i as int)).push(lower_char(s@[i as int])));
    }
    assert(s@.take(s@.len() as int) =~= s@);
    r
}

/// `eq_ignore_ascii_case`.
pub open spec fn eq_ignore_case(a: Seq<char>, b: Seq<char>) -> bool {
    lower(a) == lower(b)
}

pub fn eq_ignore_case_exec(a: &[char], b: &[char]) -> (r: bool)
    ensures
        r == eq_ignore_case(a@, b@),
{
    if a.len() != b.len() {
        assert(lower(a@).len() != lower(b@).len());
        return false;
    }
    for i in 0..a.len()
        invariant
            a@.len() == b@.len(),
            forall|j: int| 0 <= j < i ==> lower_char(a@[j]) == lower_char(b@[j]),
    {
        if to_lower_char(a[i]) != to_lower_char(b[i]) {
            assert(lower(a@)[i as int] != lower(b@)[i as int]);
            return false;
        }
    }
    assert(lower(a@) =~= lower(b@));
    true
}

// ───────────────────────── trimming ─────────────────────────

/// How many whitespace characters open `s`.
pub open spec fn lead_ws(s: Seq<char>) -> nat
    decreases s.len(),
{
    if s.len() > 0 && is_ws(s[0]) {
        1 + lead_ws(s.drop_first())
    } else {
        0
    }
}

/// How many whitespace characters close `s`.
pub open spec fn trail_ws(s: Seq<char>) -> nat
    decreases s.len(),
{
    if s.len() > 0 && is_ws(s.last()) {
        1 + trail_ws(s.drop_last())
    } else {
        0
    }
}

pub open spec fn trim_start(s: Seq<char>) -> Seq<char> {
    s.skip(lead_ws(s) as int)
}

pub open spec fn trim_end(s: Seq<char>) -> Seq<char> {
    s.take(s.len() - trail_ws(s))
}

/// `str::trim`.
pub open spec fn trim(s: Seq<char>) -> Seq<char> {
    trim_end(trim_start(s))
}

pub proof fn lemma_lead_ws_bound(s: Seq<char>)
    ensures
        lead_ws(s) <= s.len(),
        forall|j: int| 0 <= j < lead_ws(s) ==> is_ws(#[trigger] s[j]),
        lead_ws(s) < s.len() ==> !is_ws(s[lead_ws(s) as int]),
    decreases s.len(),
{
    if s.len() > 0 && is_ws(s[0]) {
        lemma_lead_ws_bound(s.drop_first());
        assert forall|j: int| 0 <= j < lead_ws(s) implies is_ws(#[trigger] s[j]) by {
            if j > 0 {
                assert(s[j] == s.drop_first()[j - 1]);
            }
        }
        if lead_ws(s) < s.len() {
            assert(s[lead_ws(s) as int] == s.drop_first()[lead_ws(s.drop_first()) as int]);
        }
    }
}

pub proof fn lemma_trail_ws_bound(s: Seq<char>)
    ensures
        trail_ws(s) <= s.len(),
        forall|j: int| s.len() - trail_ws(s) <= j < s.len() ==> is_ws(#[trigger] s[j]),
        trail_ws(s) < s.len() ==> !is_ws(s[s.len() - trail_ws(s) - 1]),
    decreases s.len(),
{
    if s.len() > 0 && is_ws(s.last()) {
        lemma_trail_ws_bound(s.drop_last());
        assert forall|j: int| s.len() - trail_ws(s) <= j < s.len() implies is_ws(#[trigger] s[j]) by {
            if j < s.len() - 1 {
                assert(s[j] == s.drop_last()[j]);
            }
        }
        if trail_ws(s) < s.len() {
            assert(s[s.len() - trail_ws(s) - 1] == s.drop_last()[s.drop_last().len() - trail_ws(
                s.drop_last(),
            ) - 1]);
        }
    }
}

/// The characterisation of `lead_ws` that loops use.
pub proof fn lemma_lead_ws_is(s: Seq<char>, k: int)
    requires
        0 <= k <= s.len(),
        forall|j: int| 0 <= j < k ==> is_ws(#[trigger] s[j]),
        k == s.len() || !is_ws(s[k]),
    ensures
        lead_ws(s) == k,
    decreases k,
{
    if k > 0 {
        assert(is_ws(s[0]));
        assert forall|j: int| 0 <= j < k - 1 implies is_ws(#[trigger] s.drop_first()[j]) by {
            assert(s.drop_first()[j] == s[j + 1]);
        }
        if k < s.len() {
            assert(s.drop_first()[k - 1] == s[k]);
        }
        lemma_lead_ws_is(s.drop_first(), k - 1);
    } else {
        if s.len() > 0 {
            assert(!is_ws(s[0]));
        }
    }
}

pub proof fn lemma_trail_ws_is(s: Seq<char>, k: int)
    requires
        0 <= k <= s.len(),
        forall|j: int| s.len() - k <= j < s.len() ==> is_ws(#[trigger] s[j]),
        k == s.len() || !is_ws(s[s.len() - k - 1]),
    ensures
        trail_ws(s) == k,
    decreases k,
{
    if k > 0 {
        assert(is_ws(s[s.len() - 1]));
        let d = s.drop_last();
        assert forall|j: int| d.len() - (k - 1) <= j < d.len() implies is_ws(#[trigger] d[j]) by {
            assert(d[j] == s[j]);
        }
        if k < s.len() {
            assert(d[d.len() - (k - 1) - 1] == s[s.len() - k - 1]);
        }
        lemma_trail_ws_is(d, k - 1);
    } else {
        if s.len() > 0 {
            assert(!is_ws(s[s.len() - 1]));
        }
    }
}

/// The index of the first character of `s[from..to]` that is not whitespace.
pub fn skip_ws(s: &[char], from: usize, to: usize) -> (k: usize)
    requires
        from <= to <= s@.len(),
    ensures
        from <= k <= to,
        k - from == lead_ws(s@.subrange(from as int, to as int)),
{
    let mut k = from;
    while k < to && is_whitespace(s[k])
        invariant
            from <= k <= to <= s@.len(),
            forall|j: int| from <= j < k ==> is_ws(#[trigger] s@[j]),
        decreases to - k,
    {
        k += 1;
    }
    proof {
        let sub = s@.subrange(from as int, to as int);
        assert forall|j: int| 0 <= j < k - from implies is_ws(#[trigger] sub[j]) by {
            assert(sub[j] == s@[from + j]);
        }
        if k < to {
            assert(sub[k - from] == s@[k as int]);
        }
        lemma_lead_ws_is(sub, k - from);
    }
    k
}

/// The end of `s[from..to]` once trailing whitespace is dropped.
pub fn skip_ws_back(s: &[char], from: usize, to: usize) -> (k: usize)
    requires
        from <= to <= s@.len(),
    ensures
        from <= k <= to,
        to - k == trail_ws(s@.subrange(from as int, to as int)),
{
    let mut k = to;
    while k > from && is_whitespace(s[k - 1])
        invariant
            from <= k <= to <= s@.len(),
            forall|j: int| k <= j < to ==> is_ws(#[trigger] s@[j]),
        decreases k - from,
    {
        k -= 1;
    }
    proof {
        let sub = s@.subrange(from as int, to as int);
        assert forall|j: int| sub.len() - (to - k) <= j < sub.len() implies is_ws(
            #[trigger] sub[j],
        ) by {
            assert(sub[j] == s@[from + j]);
        }
        if k > from {
            assert(sub[sub.len() - (to - k) - 1] == s@[k - 1]);
        }
        lemma_trail_ws_is(sub, (to - k) as int);
    }
    k
}

/// Bounds of `trim(s[from..to])` inside `s`.
pub fn trim_range(s: &[char], from: usize, to: usize) -> (r: (usize, usize))
    requires
        from <= to <= s@.len(),
    ensures
        from <= r.0 <= r.1 <= to,
        s@.subrange(r.0 as int, r.1 as int) == trim(s@.subrange(from as int, to as int)),
{
    let a = skip_ws(s, from, to);
    let b = skip_ws_back(s, a, to);
    proof {
        let sub = s@.subrange(from as int, to as int);
        assert(trim_start(sub) =~= s@.subrange(a as int, to as int));
        assert(trim_end(s@.subrange(a as int, to as int)) =~= s@.subrange(a as int, b as int));
    }
    (a, b)
}

pub fn trim_chars(s: &[char]) -> (r: Vec<char>)
    ensures
        r@ == trim(s@),
{
    let (a, b) = trim_range(s, 0, s.len());
    assert(s@.subrange(0, s@.len() as int) =~= s@);
    slice_vec(s, a, b)
}

// ───────────────────────── slicing and searching ─────────────────────────

/// A copy of `s[from..to]`.
pub fn slice_vec(s: &[char], from: usize, to: usize) -> (r: Vec<char>)
    requires
        from <= to <= s@.len(),
    ensures
        r@ == s@.subrange(from as int, to as int),
{
    let mut r: Vec<char> = Vec::new();
    let mut i = from;
    while i < to
        invariant
            from <= i <= to <= s@.len(),
            r@ == s@.subrange(from as int, i as int),
        decreases to - i,
    {
        r.push(s[i]);
        assert(s@.subrange(from as int, i + 1) =~= s@.subrange(from as int, i as int).push(
            s@[i as int],
        ));
        i += 1;
    }
    r
}

/// `pat` occurs in `s` starting at `i`.
pub open spec fn occurs_at(s: Seq<char>, pat: Seq<char>, i: int) -> bool {
    0 <= i && i + pat.len() <= s.len() && s.subrange(i, i + pat.len()) == pat
}

/// The first occurrence of `pat` in `s` at or after `i`.
pub open spec fn find_from(s: Seq<char>, pat: Seq<char>, i: int) -> Option<int>
    decreases s.len() - i,
{
    if i < 0 || i + pat.len() > s.len() {
        None
    } else if occurs_at(s, pat, i) {
        Some(i)
    } else if i >= s.len() {
        None
    } else {
        find_from(s, pat, i + 1)
    }
}

/// `str::find`.
pub open spec fn find(s: Seq<char>, pat: Seq<char>) -> Option<int> {
    find_from(s, pat, 0)
}

pub proof fn lemma_find_from_facts(s: Seq<char>, pat: Seq<char>, i: int)
    requires
        0 <= i,
    ensures
        find_from(s, pat, i) matches Some(k) ==> i <= k && occurs_at(s, pat, k) && forall|j: int|
            i <= j < k ==> !occurs_at(s, pat, j),
        find_from(s, pat, i) is None ==> forall|j: int| i <= j ==> !occurs_at(s, pat, j),
    decreases s.len() - i,
{
    if i + pat.len() > s.len() {
    } else if occurs_at(s, pat, i) {
    } else if i >= s.len() {
        assert(pat.len() == 0);
        assert(s.subrange(i, i + pat.len()) =~= pat);
    } else {
        lemma_find_from_facts(s, pat, i + 1);
    }
}

/// Whether `pat` occurs in `s` at `i`.
pub fn matches_at(s: &[char], pat: &[char], i: usize) -> (r: bool)
    ensures
        r == occurs_at(s@, pat@, i as int),
{
    if pat.len() > s.len() || i > s.len() - pat.len() {
        return false;
    }
    let mut j: usize = 0;
    while j < pat.len()
        invariant
            i + pat.len() <= s.len(),
            j <= pat@.len(),
            forall|k: int| 0 <= k < j ==> s@[i + k] == pat@[k],
        decreases pat@.len() - j,
    {
        if s[i + j] != pat[j] {
            assert(s@.subrange(i as int, i + pat@.len())[j as int] != pat@[j as int]);
            return false;
        }
        j += 1;
    }
    assert(s@.subrange(i as int, i + pat@.len()) =~= pat@);
    true
}

/// The first occurrence of `pat` in `s` at or after `from`.
pub fn find_chars(s: &[char], pat: &[char], from: usize) -> (r: Option<usize>)
    ensures
        r matches Some(k) ==> find_from(s@, pat@, from as int) == Some(k as int),
        r is None ==> find_from(s@, pat@, from as int) is None,
{
    if pat.len() == 0 {
        if from <= s.len() {
            assert(s@.subrange(from as int, from as int) =~= pat@);
            return Some(from);
        }
        return None;
    }
    let mut i = from;
    while i < s.len() && pat.len() <= s.len() - i
        invariant
            from <= i,
            pat@.len() > 0,
            find_from(s@, pat@, from as int) == find_from(s@, pat@, i as int),
        decreases s@.len() + 1 - i,
    {
        if matches_at(s, pat, i) {
            return Some(i);
        }
        i += 1;
    }
    None
}

/// The first index at or after `from` holding `c`.
pub open spec fn find_char_from(s: Seq<char>, c: char, i: int) -> Option<int>
    decreases s.len() - i,
{
    if i < 0 || i >= s.len() {
        None
    } else if s[i] == c {
        Some(i)
    } else {
        find_char_from(s, c, i + 1)
    }
}

pub proof fn lemma_find_char_facts(s: Seq<char>, c: char, i: int)
    requires
        0 <= i,
    ensures
        find_char_from(s, c, i) matches Some(k) ==> i <= k < s.len() && s[k] == c && forall|j: int|
            i <= j < k ==> s[j] != c,
        find_char_from(s, c, i) is None ==> forall|j: int| i <= j < s.len() ==> s[j] != c,
    decreases s.len() - i,
{
    if i < s.len() && s[i] != c {
        lemma_find_char_facts(s, c, i + 1);
    }
}

pub fn find_char(s: &[char], c: char, from: usize) -> (r: Option<usize>)
    ensures
        r matches Some(k) ==> find_char_from(s@, c, from as int) == Some(k as int),
        r is None ==> find_char_from(s@, c, from as int) is None,
{
    let mut i = from;
    while i < s.len()
        invariant
            from <= i,
            find_char_from(s@, c, from as int) == find_char_from(s@, c, i as int),
        decreases s@.len() - i,
    {
        if s[i] == c {
            return Some(i);
        }
        i += 1;
    }
    None
}

/// The last index before `to` holding `c`.
pub open spec fn rfind_char_before(s: Seq<char>, c: char, to: int) -> Option<int>
    decreases to,
{
    if to <= 0 || to > s.len() {
        None
    } else if s[to - 1] == c {
        Some(to - 1)
    } else {
        rfind_char_before(s, c, to - 1)
    }
}

pub proof fn lemma_rfind_char_facts(s: Seq<char>, c: char, to: int)
    requires
        to <= s.len(),
    ensures
        rfind_char_before(s, c, to) matches Some(k) ==> 0 <= k < to && s[k] == c && forall|j: int|
            k < j < to ==> s[j] != c,
        rfind_char_before(s, c, to) is None ==> forall|j: int| 0 <= j < to ==> s[j] != c,
    decreases to,
{
    if to > 0 && s[to - 1] != c {
        lemma_rfind_char_facts(s, c, to - 1);
    }
}

pub fn rfind_char(s: &[char], c: char, to: usize) -> (r: Option<usize>)
    requires
        to <= s@.len(),
    ensures
        r matches Some(k) ==> rfind_char_before(s@, c, to as int) == Some(k as int),
        r is None ==> rfind_char_before(s@, c, to as int) is None,
{
    let mut i = to;
    while i > 0
        invariant
            i <= to <= s@.len(),
            rfind_char_before(s@, c, to as int) == rfind_char_before(s@, c, i as int),
        decreases i,
    {
        if s[i - 1] == c {
            return Some(i - 1);
        }
        i -= 1;
    }
    None
}

pub fn starts_with(s: &[char], pat: &[char]) -> (r: bool)
    ensures
        r == pat@.is_prefix_of(s@),
        r == occurs_at(s@, pat@, 0),
{
    let r = matches_at(s, pat, 0);
    proof {
        if pat@.len() <= s@.len() {
            assert(r == (s@.subrange(0, pat@.len() as int) == pat@));
            if r {
                assert forall|i: int| 0 <= i < pat@.len() implies pat@[i] == s@[i] by {
                    assert(s@.subrange(0, pat@.len() as int)[i] == s@[i]);
                }
            }
            if pat@.is_prefix_of(s@) {
                assert(s@.subrange(0, pat@.len() as int) =~= pat@);
            }
        }
    }
    r
}

pub fn ends_with(s: &[char], pat: &[char]) -> (r: bool)
    ensures
        r == pat@.is_suffix_of(s@),
{
    if pat.len() > s.len() {
        return false;
    }
    let r = matches_at(s, pat, s.len() - pat.len());
    proof {
        let k = s@.len() - pat@.len();
        if r {
            assert forall|i: int| 0 <= i < pat@.len() implies pat@[i] == s@[s@.len() - pat@.len()
                + i] by {
                assert(s@.subrange(k, k + pat@.len())[i] == s@[k + i]);
            }
        }
        if pat@.is_suffix_of(s@) {
            assert(s@.subrange(k, k + pat@.len()) =~= pat@);
        }
    }
    r
}

/// The texts of a run of strings.
pub open spec fn texts(v: Seq<String>) -> Seq<Seq<char>> {
    v.map_values(|s: String| s@)
}

/// How many newlines `s` holds.
pub open spec fn newlines(s: Seq<char>) -> nat
    decreases s.len(),
{
    if s.len() == 0 {
        0
    } else {
        newlines(s.drop_last()) + if s.last() == '\n' {
            1nat
        } else {
            0nat
        }
    }
}

/// Newlines add up over a concatenation.
pub proof fn lemma_newlines_append(a: Seq<char>, b: Seq<char>)
    ensures
        newlines(a + b) == newlines(a) + newlines(b),
    decreases b.len(),
{
    if b.len() == 0 {
        assert(a + b =~= a);
    } else {
        lemma_newlines_append(a, b.drop_last());
        assert((a + b).drop_last() =~= a + b.drop_last());
        assert((a + b).last() == b.last());
    }
}

/// Text without a newline counts none.
pub proof fn lemma_no_newlines(x: Seq<char>)
    requires
        !x.contains('\n'),
    ensures
        newlines(x) == 0,
    decreases x.len(),
{
    if x.len() > 0 {
        assert(!x.drop_last().contains('\n')) by {
            if x.drop_last().contains('\n') {
                let j = choose|j: int| 0 <= j < x.drop_last().len() && x.drop_last()[j] == '\n';
                assert(x[j] == '\n');
            }
        }
        lemma_no_newlines(x.drop_last());
        assert(x.last() != '\n') by {
            assert(x[x.len() - 1] == x.last());
        }
    }
}

// ───────────────────────── byte offsets ─────────────────────────

/// UTF-8 encoding distributes over concatenation.
pub proof fn lemma_encode_append(a: Seq<char>, b: Seq<char>)
    ensures
        vstd::utf8::encode_utf8(a + b) == vstd::utf8::encode_utf8(a) + vstd::utf8::encode_utf8(b),
    decreases a.len(),
{
    if a.len() == 0 {
        assert(a + b =~= b);
        assert(vstd::utf8::encode_utf8(a) =~= Seq::<u8>::empty());
        assert(vstd::utf8::encode_utf8(a) + vstd::utf8::encode_utf8(b) =~= vstd::utf8::encode_utf8(b));
    } else {
        lemma_encode_append(a.drop_first(), b);
        assert((a + b).drop_first() =~= a.drop_first() + b);
        assert((a + b)[0] == a[0]);
    }
}

/// How many bytes UTF-8 takes for `c`.
fn char_width(c: char) -> (r: usize)
    ensures
        r == vstd::utf8::encode_scalar(c as u32).len(),
        1 <= r <= 4,
{
    let u = c as u32;
    proof {
        vstd::utf8::char_is_scalar(c);
    }
    if u < 0x80 {
        1
    } else if u < 0x800 {
        2
    } else if u < 0x10000 {
        3
    } else {
        4
    }
}

/// The byte offset in `raw` of its `k`th character.
pub fn byte_offset(raw: &str, k: usize) -> (r: usize)
    requires
        k <= raw@.len(),
    ensures
        r == vstd::utf8::encode_utf8(raw@.take(k as int)).len(),
{
    let bytes = raw.as_bytes();
    let total = bytes.len();
    assert(bytes@ == vstd::utf8::encode_utf8(raw@));
    let cs = chars_of(raw);
    let mut acc: usize = 0;
    let mut i: usize = 0;
    assert(raw@.take(0) =~= Seq::<char>::empty());
    assert(vstd::utf8::encode_utf8(Seq::<char>::empty()) =~= Seq::<u8>::empty());
    while i < k
        invariant
            i <= k <= raw@.len(),
            cs@ == raw@,
            total == vstd::utf8::encode_utf8(raw@).len(),
            acc == vstd::utf8::encode_utf8(raw@.take(i as int)).len(),
        decreases k - i,
    {
        let w = char_width(cs[i]);
        proof {
            let c = raw@[i as int];
            assert(raw@.take(i + 1) =~= raw@.take(i as int) + seq![c]);
            lemma_encode_append(raw@.take(i as int), seq![c]);
            assert(seq![c].drop_first() =~= Seq::<char>::empty());
            assert(vstd::utf8::encode_utf8(seq![c]) =~= vstd::utf8::encode_scalar(c as u32)
                + vstd::utf8::encode_utf8(Seq::<char>::empty()));
            assert(raw@ =~= raw@.take(i + 1) + raw@.skip(i + 1));
            lemma_encode_append(raw@.take(i + 1), raw@.skip(i + 1));
        }
        acc = acc + w;
        i = i + 1;
    }
    acc
}

// ───────────────────────── lines ─────────────────────────

/// Drop one trailing carriage return.
pub open spec fn strip_cr(s: Seq<char>) -> Seq<char> {
    if s.len() > 0 && s.last() == '\r' {
        s.drop_last()
    } else {
        s
    }
}

/// The lines of `s[start..]`, scanning from `i`: each `\n` ends a line
/// (dropping a `\r` right before it), and a final line without a newline is
/// kept as it is.
pub open spec fn lines_acc(s: Seq<char>, start: int, i: int) -> Seq<Seq<char>>
    decreases s.len() - i,
{
    if start < 0 || i < start || i >= s.len() {
        if 0 <= start < s.len() {
            seq![s.subrange(start, s.len() as int)]
        } else {
            seq![]
        }
    } else if s[i] == '\n' {
        seq![strip_cr(s.subrange(start, i))] + lines_acc(s, i + 1, i + 1)
    } else {
        lines_acc(s, start, i + 1)
    }
}

/// `str::lines`.
pub open spec fn lines(s: Seq<char>) -> Seq<Seq<char>> {
    lines_acc(s, 0, 0)
}

proof fn lemma_lines_shift(s: Seq<char>, k: int, st: int, i: int)
    requires
        0 <= k <= st <= i <= s.len(),
    ensures
        lines_acc(s, st, i) == lines_acc(s.skip(k), st - k, i - k),
    decreases s.len() - i,
{
    let t = s.skip(k);
    if i >= s.len() {
        if st < s.len() {
            assert(s.subrange(st, s.len() as int) =~= t.subrange(st - k, t.len() as int));
        }
    } else {
        assert(t[i - k] == s[i]);
        if s[i] == '\n' {
            assert(s.subrange(st, i) =~= t.subrange(st - k, i - k));
            lemma_lines_shift(s, k, i + 1, i + 1);
        } else {
            lemma_lines_shift(s, k, st, i + 1);
        }
    }
}

proof fn lemma_lines_prefix_scan(a: Seq<char>, b: Seq<char>, st: int, i: int)
    requires
        a.len() > 0,
        a.last() == '\n',
        0 <= st <= i < a.len(),
    ensures
        lines_acc(a + b, st, i) == lines_acc(a, st, i) + lines_acc(a + b, a.len() as int, a.len() as int),
    decreases a.len() - i,
{
    let s = a + b;
    let n = a.len() as int;
    assert(s[i] == a[i]);
    if a[i] == '\n' {
        assert(s.subrange(st, i) =~= a.subrange(st, i));
        if i + 1 < n {
            lemma_lines_prefix_scan(a, b, i + 1, i + 1);
        } else {
            assert(lines_acc(a, n, n) =~= Seq::<Seq<char>>::empty());
        }
        assert(lines_acc(s, st, i) =~= seq![strip_cr(a.subrange(st, i))] + lines_acc(s, i + 1, i + 1));
        assert(lines_acc(a, st, i) =~= seq![strip_cr(a.subrange(st, i))] + lines_acc(a, i + 1, i + 1));
    } else {
        assert(i + 1 < n);
        lemma_lines_prefix_scan(a, b, st, i + 1);
    }
}

/// Lines of a concatenation whose first part ends a line.
pub proof fn lemma_lines_append(a: Seq<char>, b: Seq<char>)
    requires
        a.len() == 0 || a.last() == '\n',
    ensures
        lines(a + b) == lines(a) + lines(b),
{
    if a.len() == 0 {
        assert(a + b =~= b);
        assert(lines(a) =~= Seq::<Seq<char>>::empty());
        assert(lines(a) + lines(b) =~= lines(b));
    } else {
        let n = a.len() as int;
        lemma_lines_prefix_scan(a, b, 0, 0);
        lemma_lines_shift(a + b, n, n, n);
        assert((a + b).skip(n) =~= b);
    }
}

proof fn lemma_lines_single_scan(x: Seq<char>, i: int)
    requires
        0 <= i <= x.len(),
        !x.contains('\n'),
    ensures
        lines_acc(x.push('\n'), 0, i) == seq![strip_cr(x)],
    decreases x.len() - i,
{
    let s = x.push('\n');
    if i < x.len() {
        assert(s[i] == x[i]);
        assert(x[i] != '\n');
        lemma_lines_single_scan(x, i + 1);
    } else {
        assert(s.subrange(0, i) =~= x);
        assert(lines_acc(s, i + 1, i + 1) =~= Seq::<Seq<char>>::empty());
        assert(lines_acc(s, 0, i) =~= seq![strip_cr(x)] + lines_acc(s, i + 1, i + 1));
    }
}

/// A line without a newline, ended by one, reads back as itself (less a
/// closing carriage return).
pub proof fn lemma_lines_single(x: Seq<char>)
    requires
        !x.contains('\n'),
    ensures
        lines(x.push('\n')) == seq![strip_cr(x)],
{
    lemma_lines_single_scan(x, 0);
}

/// Lines, each closed by a newline.
pub open spec fn joined_lines(ls: Seq<Seq<char>>) -> Seq<char>
    decreases ls.len(),
{
    if ls.len() == 0 {
        seq![]
    } else {
        joined_lines(ls.drop_last()) + ls.last().push('\n')
    }
}

/// A run of lines, each closed by a newline, splits back into those lines.
pub proof fn lemma_lines_joined(ls: Seq<Seq<char>>)
    requires
        forall|i: int| 0 <= i < ls.len() ==> !(#[trigger] ls[i]).contains('\n'),
        forall|i: int| 0 <= i < ls.len() ==> (#[trigger] ls[i]).len() == 0 || ls[i].last() != '\r',
    ensures
        lines(joined_lines(ls)) == ls,
    decreases ls.len(),
{
    if ls.len() > 0 {
        let init = ls.drop_last();
        assert forall|i: int| 0 <= i < init.len() implies !(#[trigger] init[i]).contains('\n') by {
            assert(init[i] == ls[i]);
        }
        assert forall|i: int| 0 <= i < init.len() implies (#[trigger] init[i]).len() == 0
            || init[i].last() != '\r' by {
            assert(init[i] == ls[i]);
        }
        lemma_lines_joined(init);
        let a = joined_lines(init);
        if init.len() > 0 {
            assert(a.last() == '\n');
        }
        lemma_lines_append(a, ls.last().push('\n'));
        lemma_lines_single(ls.last());
        assert(strip_cr(ls.last()) == ls.last());
        assert(lines(joined_lines(ls)) =~= init.push(ls.last()));
        assert(init.push(ls.last()) =~= ls);
    }
}

/// No carriage return stands right before a newline.
pub open spec fn no_crlf(s: Seq<char>) -> bool {
    forall|j: int| 0 <= j < s.len() - 1 && #[trigger] s[j] == '\r' ==> s[j + 1] != '\n'
}

/// Text whose every line is closed by a newline, with no carriage return
/// before one, is its lines joined back together.
pub proof fn lemma_joined_lines_of(s: Seq<char>)
    requires
        s.len() == 0 || s.last() == '\n',
        no_crlf(s),
    ensures
        joined_lines(lines(s)) == s,
    decreases s.len(),
{
    if s.len() == 0 {
        assert(lines(s) =~= Seq::<Seq<char>>::empty());
    } else {
        let n = s.len() as int;
        lemma_rfind_char_facts(s, '\n', n - 1);
        let cut = match rfind_char_before(s, '\n', n - 1) {
            Some(k) => k + 1,
            None => 0,
        };
        let a = s.subrange(0, cut);
        let x = s.subrange(cut, n - 1);
        assert(s =~= a + x.push('\n'));
        assert(!x.contains('\n')) by {
            if x.contains('\n') {
                let j = choose|j: int| 0 <= j < x.len() && x[j] == '\n';
                assert(s[cut + j] == '\n');
            }
        }
        if cut > 0 {
            assert(a.last() == '\n');
        }
        assert(no_crlf(a)) by {
            assert forall|j: int| 0 <= j < a.len() - 1 && #[trigger] a[j] == '\r' implies a[j + 1] != '\n' by {
                assert(a[j] == s[j] && a[j + 1] == s[j + 1]);
            }
        }
        lemma_joined_lines_of(a);
        lemma_lines_append(a, x.push('\n'));
        lemma_lines_single(x);
        if x.len() > 0 {
            assert(s[n - 2] == x.last());
            assert(s[n - 1] == '\n');
        }
        assert(strip_cr(x) == x);
        assert(lines(s) =~= lines(a).push(x));
        assert(lines(s).drop_last() =~= lines(a));
    }
}

/// Text that does not end a line keeps its last line: that line is not
/// empty and ends with the text's last character.
pub proof fn lemma_lines_last(s: Seq<char>, st: int, i: int)
    requires
        0 <= st <= i <= s.len(),
        s.len() > 0,
        s.last() != '\n',
        st == 0 || s[st - 1] == '\n',
    ensures
        lines_acc(s, st, i).len() > 0,
        lines_acc(s, st, i).last().len() > 0,
        lines_acc(s, st, i).last().last() == s.last(),
    decreases s.len() - i,
{
    if i >= s.len() {
        assert(st < s.len());
    } else if s[i] == '\n' {
        lemma_lines_last(s, i + 1, i + 1);
    } else {
        lemma_lines_last(s, st, i + 1);
    }
}

/// Closing the last line with a newline changes no line, when that line
/// does not end in a carriage return.
pub proof fn lemma_lines_push_newline(s: Seq<char>, st: int, i: int)
    requires
        0 <= st <= i <= s.len(),
        s.len() > 0,
        s.last() != '\n',
        s.last() != '\r',
        st == 0 || s[st - 1] == '\n',
    ensures
        lines_acc(s.push('\n'), st, i) == lines_acc(s, st, i),
    decreases s.len() - i,
{
    let s2 = s.push('\n');
    if i >= s.len() {
        assert(st < s.len());
        assert(s2[i] == '\n');
        assert(s2.subrange(st, i) =~= s.subrange(st, i));
        assert(lines_acc(s2, i + 1, i + 1) =~= Seq::<Seq<char>>::empty());
        assert(strip_cr(s.subrange(st, i)) == s.subrange(st, i));
        assert(lines_acc(s2, st, i) =~= seq![s.subrange(st, i)]);
    } else {
        assert(s2[i] == s[i]);
        if s[i] == '\n' {
            assert(s2.subrange(st, i) =~= s.subrange(st, i));
            lemma_lines_push_newline(s, i + 1, i + 1);
        } else {
            lemma_lines_push_newline(s, st, i + 1);
        }
    }
}

/// Trimming keeps out what the text keeps out, and what it leaves does not
/// end in whitespace.
pub proof fn lemma_trim_within(x: Seq<char>, c: char)
    ensures
        !x.contains(c) ==> !trim(x).contains(c),
        trim(x).len() > 0 ==> !is_ws(trim(x).last()),
{
    lemma_lead_ws_bound(x);
    let t = trim_start(x);
    lemma_trail_ws_bound(t);
    let u = trim(x);
    if !x.contains(c) && u.contains(c) {
        let j = choose|j: int| 0 <= j < u.len() && u[j] == c;
        assert(u[j] == x[lead_ws(x) + j]);
    }
    if u.len() > 0 {
        assert(u.last() == t[t.len() - trail_ws(t) - 1]);
    }
}

/// Trimming twice trims no more than once.
pub proof fn lemma_trim_idempotent(s: Seq<char>)
    ensures
        trim(trim(s)) == trim(s),
{
    let t = trim_start(s);
    let u = trim(s);
    lemma_lead_ws_bound(s);
    lemma_trail_ws_bound(t);
    if u.len() == 0 {
        assert(trim(u) =~= u);
    } else {
        assert(u[0] == t[0]);
        assert(t[0] == s[lead_ws(s) as int]);
        lemma_lead_ws_is(u, 0);
        assert(u[u.len() - 1] == t[t.len() - trail_ws(t) - 1]);
        lemma_trail_ws_is(u, 0);
        assert(u.skip(0) =~= u);
        assert(trim_start(u).take(trim_start(u).len() - 0) =~= u);
    }
}

/// What trimming keeps is a stretch of the text it was given.
pub proof fn lemma_trim_chars(s: Seq<char>, c: char)
    requires
        !s.contains(c),
    ensures
        !trim(s).contains(c),
{
    let t = trim_start(s);
    lemma_lead_ws_bound(s);
    lemma_trail_ws_bound(t);
    let u = trim(s);
    assert forall|k: int| 0 <= k < u.len() implies u[k] != c by {
        assert(u[k] == t[k]);
        assert(t[k] == s[lead_ws(s) + k]);
    }
}

proof fn lemma_lines_acc_no_newline(s: Seq<char>, st: int, i: int)
    requires
        0 <= st <= i <= s.len(),
        forall|j: int| st <= j < i ==> s[j] != '\n',
    ensures
        forall|k: int|
            0 <= k < lines_acc(s, st, i).len() ==> !(#[trigger] lines_acc(s, st, i)[k]).contains('\n'),
    decreases s.len() - i,
{
    if i >= s.len() {
        if st < s.len() {
            let x = s.subrange(st, s.len() as int);
            assert forall|j: int| 0 <= j < x.len() implies x[j] != '\n' by {
                assert(x[j] == s[st + j]);
            }
            assert(!x.contains('\n'));
            assert(lines_acc(s, st, i) =~= seq![x]);
            assert forall|k: int| 0 <= k < lines_acc(s, st, i).len() implies !(
            #[trigger] lines_acc(s, st, i)[k]).contains('\n') by {
                assert(lines_acc(s, st, i)[k] == x);
            }
        } else {
            assert(lines_acc(s, st, i) =~= Seq::<Seq<char>>::empty());
        }
    } else if s[i] == '\n' {
        let x = strip_cr(s.subrange(st, i));
        assert forall|j: int| 0 <= j < x.len() implies x[j] != '\n' by {
            assert(x[j] == s[st + j]);
        }
        assert(!x.contains('\n'));
        lemma_lines_acc_no_newline(s, i + 1, i + 1);
        let rest = lines_acc(s, i + 1, i + 1);
        assert(lines_acc(s, st, i) =~= seq![x] + rest);
        assert forall|k: int| 0 <= k < lines_acc(s, st, i).len() implies !(
        #[trigger] lines_acc(s, st, i)[k]).contains('\n') by {
            if k > 0 {
                assert(lines_acc(s, st, i)[k] == rest[k - 1]);
            } else {
                assert(lines_acc(s, st, i)[k] == x);
            }
        }
    } else {
        lemma_lines_acc_no_newline(s, st, i + 1);
        assert(lines_acc(s, st, i) == lines_acc(s, st, i + 1));
    }
}

/// No line holds a newline.
pub proof fn lemma_line_has_no_newline(s: Seq<char>, k: int)
    requires
        0 <= k < lines(s).len(),
    ensures
        !lines(s)[k].contains('\n'),
{
    lemma_lines_acc_no_newline(s, 0, 0);
}

/// The text each range covers.
pub open spec fn spans(s: Seq<char>, r: Seq<(usize, usize)>) -> Seq<Seq<char>> {
    r.map_values(|p: (usize, usize)| s.subrange(p.0 as int, p.1 as int))
}

pub open spec fn ranges_within(r: Seq<(usize, usize)>, n: int) -> bool {
    forall|k: int| 0 <= k < r.len() ==> (#[trigger] r[k]).0 <= r[k].1 <= n
}

/// Where each line of `s[start..]` lies, scanning from `i`: the start of
/// its text and the end, before a `\r\n` or `\n` ending (as `lines_acc`).
pub open spec fn spans_acc(s: Seq<char>, start: int, i: int) -> Seq<(int, int)>
    decreases s.len() - i,
{
    if start < 0 || i < start || i >= s.len() {
        if 0 <= start < s.len() {
            seq![(start, s.len() as int)]
        } else {
            seq![]
        }
    } else if s[i] == '\n' {
        seq![(start, if i > start && s[i - 1] == '\r' { i - 1 } else { i })] + spans_acc(s, i + 1, i + 1)
    } else {
        spans_acc(s, start, i + 1)
    }
}

/// Where each line of `s` lies.
pub open spec fn line_spans(s: Seq<char>) -> Seq<(int, int)> {
    spans_acc(s, 0, 0)
}

pub open spec fn ranges_view(r: Seq<(usize, usize)>) -> Seq<(int, int)> {
    r.map_values(|p: (usize, usize)| (p.0 as int, p.1 as int))
}

proof fn lemma_acc_scan(s: Seq<char>, st: int, i: int, e: int)
    requires
        0 <= st <= i <= e <= s.len(),
        forall|j: int| i <= j < e ==> s[j] != '\n',
    ensures
        lines_acc(s, st, i) == lines_acc(s, st, e),
        spans_acc(s, st, i) == spans_acc(s, st, e),
    decreases e - i,
{
    if i < e {
        assert(s[i] != '\n');
        lemma_acc_scan(s, st, i + 1, e);
    }
}

proof fn lemma_spans_within(s: Seq<char>, st: int, i: int)
    requires
        0 <= st <= i,
    ensures
        spans_acc(s, st, i).len() == lines_acc(s, st, i).len(),
        forall|k: int|
            0 <= k < spans_acc(s, st, i).len() ==> st <= (#[trigger] spans_acc(s, st, i)[k]).0 <= spans_acc(
                s,
                st,
                i,
            )[k].1 <= s.len(),
    decreases s.len() - i,
{
    if i < s.len() {
        if s[i] == '\n' {
            lemma_spans_within(s, i + 1, i + 1);
            let rest = spans_acc(s, i + 1, i + 1);
            let all = spans_acc(s, st, i);
            assert forall|k: int| 0 <= k < all.len() implies st <= (#[trigger] all[k]).0 <= all[k].1 <= s.len() by {
                if k > 0 {
                    assert(all[k] == rest[k - 1]);
                }
            }
        } else {
            lemma_spans_within(s, st, i + 1);
        }
    }
}

/// A non-empty text without a newline is one line.
proof fn lemma_lines_one(x: Seq<char>)
    requires
        x.len() > 0,
        !x.contains('\n'),
    ensures
        lines(x) == seq![x],
{
    assert forall|j: int| 0 <= j < x.len() implies x[j] != '\n' by {
        if x[j] == '\n' {
            assert(x.contains('\n'));
        }
    }
    lemma_acc_scan(x, 0, 0, x.len() as int);
    assert(x.subrange(0, x.len() as int) =~= x);
}

proof fn lemma_splice_from(s: Seq<char>, st: int, k: int, h: Seq<char>)
    requires
        0 <= st <= s.len(),
        st == 0 || s[st - 1] == '\n',
        0 <= k < lines_acc(s, st, st).len(),
        !h.contains('\n'),
        h.len() > 0,
        h.last() != '\r',
    ensures
        spans_acc(s, st, st).len() == lines_acc(s, st, st).len(),
        lines(
            (s.take(spans_acc(s, st, st)[k].0) + h + s.skip(spans_acc(s, st, st)[k].1)).skip(st),
        ) == lines_acc(s, st, st).update(k, h),
    decreases s.len() - st,
{
    lemma_spans_within(s, st, st);
    lemma_find_char_facts(s, '\n', st);
    let sp = spans_acc(s, st, st);
    let ls = lines_acc(s, st, st);
    let (a, b) = sp[k];
    let s2 = s.take(a) + h + s.skip(b);
    match find_char_from(s, '\n', st) {
        Some(e) => {
            lemma_acc_scan(s, st, st, e);
            let b0 = if e > st && s[e - 1] == '\r' { e - 1 } else { e };
            assert(sp == seq![(st, b0)] + spans_acc(s, e + 1, e + 1));
            assert(ls == seq![strip_cr(s.subrange(st, e))] + lines_acc(s, e + 1, e + 1));
            let r = s.skip(e + 1);
            lemma_lines_shift(s, e + 1, e + 1, e + 1);
            assert(r =~= s.skip(e + 1));
            assert(lines_acc(s.skip(e + 1), 0, 0) == lines(r));
            if k == 0 {
                assert(a == st && b == b0);
                if b0 == e - 1 {
                    let hc = h.push('\r');
                    assert(!hc.contains('\n')) by {
                        if hc.contains('\n') {
                            let j = choose|j: int| 0 <= j < hc.len() && hc[j] == '\n';
                            assert(h[j] == '\n');
                        }
                    }
                    assert(s2.skip(st) =~= hc.push('\n') + r);
                    lemma_lines_append(hc.push('\n'), r);
                    lemma_lines_single(hc);
                    assert(strip_cr(hc) =~= h);
                } else {
                    assert(s2.skip(st) =~= h.push('\n') + r);
                    lemma_lines_append(h.push('\n'), r);
                    lemma_lines_single(h);
                }
                assert(lines(s2.skip(st)) =~= ls.update(k, h));
            } else {
                lemma_spans_within(s, e + 1, e + 1);
                let sp2 = spans_acc(s, e + 1, e + 1);
                assert(sp[k] == sp2[k - 1]);
                assert(e + 1 <= a);
                lemma_splice_from(s, e + 1, k - 1, h);
                let first = s.subrange(st, e + 1);
                assert(s2.skip(st) =~= first + s2.skip(e + 1));
                lemma_lines_append(first, s2.skip(e + 1));
                let x = s.subrange(st, e);
                assert(!x.contains('\n')) by {
                    if x.contains('\n') {
                        let j = choose|j: int| 0 <= j < x.len() && x[j] == '\n';
                        assert(s[st + j] == '\n');
                    }
                }
                assert(first =~= x.push('\n'));
                lemma_lines_single(x);
                assert(lines(s2.skip(st)) =~= ls.update(k, h));
            }
        },
        None => {
            lemma_acc_scan(s, st, st, s.len() as int);
            assert(st < s.len());
            assert(k == 0);
            assert(a == st && b == s.len());
            assert(s2.skip(st) =~= h);
            lemma_lines_one(h);
            assert(lines(s2.skip(st)) =~= ls.update(k, h));
        },
    }
}

/// A first line closed by a newline, and not ending in a carriage return,
/// spans the text before that newline.
pub proof fn lemma_first_span(x: Seq<char>, rest: Seq<char>)
    requires
        !x.contains('\n'),
        x.len() == 0 || x.last() != '\r',
    ensures
        line_spans(x.push('\n') + rest).len() > 0,
        line_spans(x.push('\n') + rest)[0] == (0int, x.len() as int),
{
    let s = x.push('\n') + rest;
    let e = x.len() as int;
    assert forall|j: int| 0 <= j < e implies s[j] != '\n' by {
        assert(s[j] == x[j]);
        if x[j] == '\n' {
            assert(x.contains('\n'));
        }
    }
    lemma_acc_scan(s, 0, 0, e);
    assert(s[e] == '\n');
    if e > 0 {
        assert(s[e - 1] == x.last());
    }
    assert(spans_acc(s, 0, e) == seq![(0int, e)] + spans_acc(s, e + 1, e + 1));
}

/// Replacing the text of one line (its line ending kept) with other text
/// on one line changes that line and no other.
pub proof fn lemma_line_splice(s: Seq<char>, k: int, h: Seq<char>)
    requires
        0 <= k < lines(s).len(),
        !h.contains('\n'),
        h.len() > 0,
        h.last() != '\r',
    ensures
        line_spans(s).len() == lines(s).len(),
        lines(s.take(line_spans(s)[k].0) + h + s.skip(line_spans(s)[k].1)) == lines(s).update(k, h),
{
    lemma_splice_from(s, 0, k, h);
    let t = s.take(line_spans(s)[k].0) + h + s.skip(line_spans(s)[k].1);
    assert(t.skip(0) =~= t);
}

/// The ranges of the lines of `s`.
pub fn line_ranges(s: &[char]) -> (r: Vec<(usize, usize)>)
    ensures
        spans(s@, r@) == lines(s@),
        ranges_view(r@) == line_spans(s@),
        ranges_within(r@, s@.len() as int),
{
    let mut r: Vec<(usize, usize)> = Vec::new();
    let mut start: usize = 0;
    let mut i: usize = 0;
    while i < s.len()
        invariant
            start <= i <= s@.len(),
            lines(s@) == spans(s@, r@) + lines_acc(s@, start as int, i as int),
            line_spans(s@) == ranges_view(r@) + spans_acc(s@, start as int, i as int),
            ranges_within(r@, s@.len() as int),
        decreases s@.len() - i,
    {
        if s[i] == '\n' {
            let end = if i > start && s[i - 1] == '\r' {
                i - 1
            } else {
                i
            };
            proof {
                assert(s@.subrange(start as int, end as int) =~= strip_cr(
                    s@.subrange(start as int, i as int),
                ));
                assert(spans(s@, r@.push((start, end))) =~= spans(s@, r@).push(
                    s@.subrange(start as int, end as int),
                ));
                assert(ranges_view(r@.push((start, end))) =~= ranges_view(r@).push((start as int, end as int)));
            }
            r.push((start, end));
            start = i + 1;
        }
        i += 1;
    }
    if start < s.len() {
        proof {
            assert(spans(s@, r@.push((start, s.len()))) =~= spans(s@, r@).push(
                s@.subrange(start as int, s@.len() as int),
            ));
            assert(ranges_view(r@.push((start, s.len()))) =~= ranges_view(r@).push((start as int, s@.len() as int)));
        }
        r.push((start, s.len()));
    }
    proof {
        assert(lines(s@) =~= spans(s@, r@));
        assert(line_spans(s@) =~= ranges_view(r@));
    }
    r
}

// ───────────────────────── splitting ─────────────────────────

/// The non-empty pieces of `s[start..]` between occurrences of `c`, scanning
/// from `i`: `str::split` followed by dropping empty pieces.
pub open spec fn pieces_acc(s: Seq<char>, c: char, start: int, i: int) -> Seq<Seq<char>>
    decreases s.len() - i,
{
    if start < 0 || i < start || i >= s.len() {
        if 0 <= start < s.len() {
            seq![s.subrange(start, s.len() as int)]
        } else {
            seq![]
        }
    } else if s[i] == c {
        if start < i {
            seq![s.subrange(start, i)] + pieces_acc(s, c, i + 1, i + 1)
        } else {
            pieces_acc(s, c, i + 1, i + 1)
        }
    } else {
        pieces_acc(s, c, start, i + 1)
    }
}

/// `s.split(c).filter(|p| !p.is_empty())`.
pub open spec fn pieces(s: Seq<char>, c: char) -> Seq<Seq<char>> {
    pieces_acc(s, c, 0, 0)
}

/// The ranges of the non-empty pieces of `s[from..to]` separated by `c`.
pub fn piece_ranges(s: &[char], c: char) -> (r: Vec<(usize, usize)>)
    ensures
        spans(s@, r@) == pieces(s@, c),
        ranges_within(r@, s@.len() as int),
        forall|k: int| 0 <= k < r@.len() ==> (#[trigger] r@[k]).0 < r@[k].1,
{
    let mut r: Vec<(usize, usize)> = Vec::new();
    let mut start: usize = 0;
    let mut i: usize = 0;
    while i < s.len()
        invariant
            start <= i <= s@.len(),
            pieces(s@, c) == spans(s@, r@) + pieces_acc(s@, c, start as int, i as int),
            ranges_within(r@, s@.len() as int),
            forall|k: int| 0 <= k < r@.len() ==> (#[trigger] r@[k]).0 < r@[k].1,
        decreases s@.len() - i,
    {
        if s[i] == c {
            if start < i {
                proof {
                    assert(spans(s@, r@.push((start, i))) =~= spans(s@, r@).push(
                        s@.subrange(start as int, i as int),
                    ));
                }
                r.push((start, i));
            }
            start = i + 1;
        }
        i += 1;
    }
    if start < s.len() {
        proof {
            assert(spans(s@, r@.push((start, s.len()))) =~= spans(s@, r@).push(
                s@.subrange(start as int, s@.len() as int),
            ));
        }
        r.push((start, s.len()));
    }
    proof {
        assert(pieces(s@, c) =~= spans(s@, r@));
    }
    r
}

/// `str::split_once` on a character: the text before and after its first
/// occurrence.
pub open spec fn split_once(s: Seq<char>, c: char) -> Option<(Seq<char>, Seq<char>)> {
    match find_char_from(s, c, 0) {
        Some(k) => Some((s.take(k), s.skip(k + 1))),
        None => None,
    }
}

/// `str::rsplit_once` on a character.
pub open spec fn rsplit_once(s: Seq<char>, c: char) -> Option<(Seq<char>, Seq<char>)> {
    match rfind_char_before(s, c, s.len() as int) {
        Some(k) => Some((s.take(k), s.skip(k + 1))),
        None => None,
    }
}

// ───────────────────────── replacing ─────────────────────────

/// `str::replace` from index `i`: occurrences of `pat` are replaced left to
/// right without overlapping.
pub open spec fn replace_from(s: Seq<char>, pat: Seq<char>, rep: Seq<char>, i: int) -> Seq<char>
    decreases s.len() - i,
{
    if pat.len() == 0 || i < 0 || i >= s.len() {
        seq![]
    } else if occurs_at(s, pat, i) {
        rep + replace_from(s, pat, rep, i + pat.len())
    } else {
        seq![s[i]] + replace_from(s, pat, rep, i + 1)
    }
}

/// `str::replace` for a non-empty pattern.
pub open spec fn replace(s: Seq<char>, pat: Seq<char>, rep: Seq<char>) -> Seq<char> {
    replace_from(s, pat, rep, 0)
}

pub fn replace_chars(s: &[char], pat: &[char], rep: &[char]) -> (r: Vec<char>)
    requires
        pat@.len() > 0,
    ensures
        r@ == replace(s@, pat@, rep@),
{
    let mut out: Vec<char> = Vec::new();
    let mut i: usize = 0;
    while i < s.len()
        invariant
            pat@.len() > 0,
            i <= s@.len(),
            replace(s@, pat@, rep@) == out@ + replace_from(s@, pat@, rep@, i as int),
        decreases s@.len() - i,
    {
        if matches_at(s, pat, i) {
            extend_chars(&mut out, rep);
            i += pat.len();
        } else {
            out.push(s[i]);
            i += 1;
        }
    }
    assert(out@ + Seq::<char>::empty() =~= out@);
    out
}

/// Whether `pat` occurs anywhere in `s`.
pub open spec fn contains(s: Seq<char>, pat: Seq<char>) -> bool {
    find(s, pat) is Some
}

pub fn contains_chars(s: &[char], pat: &[char]) -> (r: bool)
    ensures
        r == contains(s@, pat@),
{
    find_chars(s, pat, 0).is_some()
}

// ───────────────────────── words ─────────────────────────

/// The whitespace-separated words of `s[start..]`, scanning from `i`.
pub open spec fn words_acc(s: Seq<char>, start: int, i: int) -> Seq<Seq<char>>
    decreases s.len() - i,
{
    if start < 0 || i < start || i >= s.len() {
        if 0 <= start < s.len() {
            seq![s.subrange(start, s.len() as int)]
        } else {
            seq![]
        }
    } else if is_ws(s[i]) {
        if start < i {
            seq![s.subrange(start, i)] + words_acc(s, i + 1, i + 1)
        } else {
            words_acc(s, i + 1, i + 1)
        }
    } else {
        words_acc(s, start, i + 1)
    }
}

/// `str::split_whitespace`.
pub open spec fn words(s: Seq<char>) -> Seq<Seq<char>> {
    words_acc(s, 0, 0)
}

/// Items joined with a separator.
pub open spec fn join_with(items: Seq<Seq<char>>, sep: Seq<char>) -> Seq<char>
    decreases items.len(),
{
    if items.len() == 0 {
        seq![]
    } else if items.len() == 1 {
        items[0]
    } else {
        join_with(items.drop_last(), sep) + sep + items.last()
    }
}

pub proof fn lemma_join_with_push(items: Seq<Seq<char>>, sep: Seq<char>, x: Seq<char>)
    ensures
        join_with(items.push(x), sep) == if items.len() == 0 {
            x
        } else {
            join_with(items, sep) + sep + x
        },
{
    assert(items.push(x).drop_last() =~= items);
    if items.len() == 0 {
        assert(items.push(x)[0] == x);
    }
}

/// `s.split_whitespace().collect::<Vec<_>>().join(" ")`.
pub fn collapse_whitespace(s: &[char]) -> (r: Vec<char>)
    ensures
        r@ == join_with(words(s@), seq![' ']),
{
    let mut out: Vec<char> = Vec::new();
    let ghost mut done: Seq<Seq<char>> = seq![];
    let mut any = false;
    let mut start: usize = 0;
    let mut i: usize = 0;
    while i < s.len()
        invariant
            start <= i <= s@.len(),
            words(s@) == done + words_acc(s@, start as int, i as int),
            out@ == join_with(done, seq![' ']),
            any == (done.len() > 0),
        decreases s@.len() - i,
    {
        if is_whitespace(s[i]) {
            if start < i {
                let ghost w = s@.subrange(start as int, i as int);
                proof {
                    lemma_join_with_push(done, seq![' '], w);
                }
                if any {
                    out.push(' ');
                }
                any = true;
                let piece = slice_vec(s, start, i);
                extend_chars(&mut out, &piece);
                proof {
                    if done.len() > 0 {
                        assert(out@ =~= join_with(done, seq![' ']) + seq![' '] + w);
                    } else {
                        assert(out@ =~= w);
                    }
                    assert(done.push(w) + words_acc(s@, i + 1, i + 1) =~= done + (seq![w]
                        + words_acc(s@, i + 1, i + 1)));
                    done = done.push(w);
                }
            }
            start = i + 1;
        }
        i += 1;
    }
    if start < s.len() {
        let ghost w = s@.subrange(start as int, s@.len() as int);
        proof {
            lemma_join_with_push(done, seq![' '], w);
        }
        if any {
            out.push(' ');
        }
        let piece = slice_vec(s, start, s.len());
        extend_chars(&mut out, &piece);
        proof {
            if done.len() > 0 {
                assert(out@ =~= join_with(done, seq![' ']) + seq![' '] + w);
            } else {
                assert(out@ =~= w);
            }
            assert(words(s@) =~= done.push(w));
        }
    } else {
        assert(words(s@) =~= done);
    }
    out
}

// ───────────────────────── strings ─────────────────────────

/// Append one character to a `String`.
#[verifier::external_body]
pub(crate) fn push_char(s: &mut String, c: char)
    ensures
        final(s)@ == old(s)@.push(c),
{
    s.push(c);
}

/// Append a `str` to a `String`.
#[verifier::external_body]
pub(crate) fn push_str(s: &mut String, t: &str)
    ensures
        final(s)@ == old(s)@ + t@,
{
    s.push_str(t);
}

pub fn push_chars(s: &mut String, t: &[char])
    ensures
        final(s)@ == old(s)@ + t@,
{
    let ghost start = s@;
    for i in 0..t.len()
        invariant
            s@ == start + t@.take(i as int),
    {
        push_char(s, t[i]);
        assert(start + t@.take(i + 1) =~= (start + t@.take(i as int)).push(t@[i as int]));
    }
    assert(t@.take(t@.len() as int) =~= t@);
}

/// A `String` holding exactly the given characters.
pub fn string_of(t: &[char]) -> (r: String)
    ensures
        r@ == t@,
{
    let mut r = String::new();
    push_chars(&mut r, t);
    assert(Seq::<char>::empty() + t@ =~= t@);
    r
}

/// Append the characters of `t` to a character buffer.
pub fn extend_chars(v: &mut Vec<char>, t: &[char])
    ensures
        final(v)@ == old(v)@ + t@,
{
    let ghost start = v@;
    for i in 0..t.len()
        invariant
            v@ == start + t@.take(i as int),
    {
        v.push(t[i]);
        assert(start + t@.take(i + 1) =~= (start + t@.take(i as int)).push(t@[i as int]));
    }
    assert(t@.take(t@.len() as int) =~= t@);
}

/// Append the characters of `t` to a character buffer.
pub fn extend_str(v: &mut Vec<char>, t: &str)
    ensures
        final(v)@ == old(v)@ + t@,
{
    let c = chars_of(t);
    extend_chars(v, &c);
}

/// The characters of `s`, in order.
pub fn chars_of(s: &str) -> (v: Vec<char>)
    ensures
        v@ == s@,
{
    let mut v: Vec<char> = Vec::new();
    for c in it: s.chars()
        invariant
            v@ == it.seq().take(it.index() as int),
            it.seq() == s@,
    {
        v.push(c);
    }
    v
}

/// Whether two strings hold the same text.
pub fn str_eq(a: &str, b: &str) -> (r: bool)
    ensures
        r == (a@ == b@),
{
    let x = chars_of(a);
    let y = chars_of(b);
    chars_eq(&x, &y)
}

pub fn chars_eq(a: &[char], b: &[char]) -> (r: bool)
    ensures
        r == (a@ == b@),
{
    if a.len() != b.len() {
        return false;
    }
    for i in 0..a.len()
        invariant
            a@.len() == b@.len(),
            forall|j: int| 0 <= j < i ==> a@[j] == b@[j],
    {
        if a[i] != b[i] {
            return false;
        }
    }
    assert(a@ =~= b@);
    true
}

/// Duplicate a `String`, keeping its text.
pub fn copy_string(s: &String) -> (r: String)
    ensures
        r@ == s@,
{
    s.clone()
}

// ───────────────────────── numbers ─────────────────────────

pub open spec fn digit_char(d: nat) -> char
    recommends
        d < 10,
{
    ((d + 48) as u32) as char
}

/// The decimal rendering of `n`, as `Display` writes it.
pub open spec fn decimal(n: nat) -> Seq<char>
    decreases n,
{
    if n < 10 {
        seq![digit_char(n)]
    } else {
        decimal(n / 10).push(digit_char(n % 10))
    }
}

pub fn digit_to_char(d: u64) -> (r: char)
    requires
        d < 10,
    ensures
        r == digit_char(d as nat),
{
    char_from_ascii((d + 48) as u32)
}

/// The decimal digits of `n`.
pub fn decimal_chars(n: u64) -> (r: Vec<char>)
    ensures
        r@ == decimal(n as nat),
    decreases n,
{
    if n < 10 {
        let mut r: Vec<char> = Vec::new();
        r.push(digit_to_char(n));
        r
    } else {
        let mut r = decimal_chars(n / 10);
        r.push(digit_to_char(n % 10));
        r
    }
}

/// `n.to_string()`.
pub fn usize_to_string(n: usize) -> (r: String)
    ensures
        r@ == decimal(n as nat),
{
    let d = decimal_chars(n as u64);
    string_of(&d)
}

/// The value of a run of ASCII digits.
pub open spec fn digits_value(s: Seq<char>) -> nat
    decreases s.len(),
{
    if s.len() == 0 {
        0
    } else {
        digits_value(s.drop_last()) * 10 + ((s.last() as u32) - 48) as nat
    }
}

pub open spec fn all_digits(s: Seq<char>) -> bool {
    forall|i: int| 0 <= i < s.len() ==> is_digit(#[trigger] s[i])
}

/// `<usize as FromStr>::from_str`: an optional `+`, then one or more digits,
/// with no overflow.
pub open spec fn parse_unsigned(s: Seq<char>, max: nat) -> Option<nat> {
    let body = if s.len() > 0 && s[0] == '+' {
        s.drop_first()
    } else {
        s
    };
    if body.len() > 0 && all_digits(body) && digits_value(body) <= max {
        Some(digits_value(body))
    } else {
        None
    }
}

pub proof fn lemma_digits_value_monotone(s: Seq<char>, i: int)
    requires
        0 <= i <= s.len(),
        all_digits(s),
    ensures
        digits_value(s.take(i)) <= digits_value(s),
    decreases s.len() - i,
{
    if i < s.len() {
        lemma_digits_value_monotone(s, i + 1);
        assert(s.take(i + 1).drop_last() =~= s.take(i));
        assert(is_digit(s[i]));
    } else {
        assert(s.take(i) =~= s);
    }
}

/// Parse an unsigned decimal no larger than `max`.
pub fn parse_unsigned_exec(s: &[char], max: u64) -> (r: Option<u64>)
    ensures
        r matches Some(v) ==> parse_unsigned(s@, max as nat) == Some(v as nat),
        r is None ==> parse_unsigned(s@, max as nat) is None,
{
    let start: usize = if s.len() > 0 && s[0] == '+' {
        1
    } else {
        0
    };
    let ghost body = if s@.len() > 0 && s@[0] == '+' {
        s@.drop_first()
    } else {
        s@
    };
    assert(body =~= s@.skip(start as int));
    if start >= s.len() {
        assert(body.len() == 0);
        return None;
    }
    let mut v: u64 = 0;
    let mut i = start;
    while i < s.len()
        invariant
            start <= i <= s@.len(),
            body == s@.skip(start as int),
            body == (if s@.len() > 0 && s@[0] == '+' {
                s@.drop_first()
            } else {
                s@
            }),
            forall|j: int| start <= j < i ==> is_digit(#[trigger] s@[j]),
            v as nat == digits_value(body.take(i - start)),
            v <= max,
        decreases s@.len() - i,
    {
        let c = s[i];
        if !('0' <= c && c <= '9') {
            proof {
                assert(body[i - start] == s@[i as int]);
                assert(!is_digit(body[i - start]));
                assert(!all_digits(body));
                assert(parse_unsigned(s@, max as nat) is None);
            }
            return None;
        }
        let d = (c as u32 - 48) as u64;
        assert(body.take(i + 1 - start).drop_last() =~= body.take(i - start));
        assert(body.take(i + 1 - start).last() == c);
        let nv: u128 = (v as u128) * 10 + (d as u128);
        if nv > max as u128 {
            proof {
                assert(digits_value(body.take(i + 1 - start)) == v * 10 + d);
                if all_digits(body) {
                    lemma_digits_value_monotone(body, i + 1 - start);
                    assert(digits_value(body) > max);
                }
                assert(parse_unsigned(s@, max as nat) is None);
            }
            return None;
        }
        v = nv as u64;
        i += 1;
    }
    proof {
        assert(body.take(i - start) =~= body);
        assert forall|j: int| 0 <= j < body.len() implies is_digit(#[trigger] body[j]) by {
            assert(body[j] == s@[start + j]);
        }
    }
    Some(v)
}

// ───────────────────────── order ─────────────────────────

/// Lexicographic order on names, character by character.
pub open spec fn name_less(a: Seq<char>, b: Seq<char>) -> bool
    decreases a.len(),
{
    if a.len() == 0 {
        b.len() > 0
    } else if b.len() == 0 {
        false
    } else if a[0] != b[0] {
        a[0] < b[0]
    } else {
        name_less(a.drop_first(), b.drop_first())
    }
}

pub proof fn lemma_name_less_irreflexive(a: Seq<char>)
    ensures
        !name_less(a, a),
    decreases a.len(),
{
    if a.len() > 0 {
        lemma_name_less_irreflexive(a.drop_first());
    }
}

pub proof fn lemma_name_less_transitive(a: Seq<char>, b: Seq<char>, c: Seq<char>)
    requires
        name_less(a, b),
        name_less(b, c),
    ensures
        name_less(a, c),
    decreases a.len(),
{
    if a.len() > 0 && b.len() > 0 && c.len() > 0 && a[0] == b[0] && b[0] == c[0] {
        lemma_name_less_transitive(a.drop_first(), b.drop_first(), c.drop_first());
    }
}

pub proof fn lemma_name_less_total(a: Seq<char>, b: Seq<char>)
    ensures
        a == b || name_less(a, b) || name_less(b, a),
    decreases a.len(),
{
    if a.len() > 0 && b.len() > 0 && a[0] == b[0] {
        lemma_name_less_total(a.drop_first(), b.drop_first());
        if a.drop_first() == b.drop_first() {
            assert(a =~= seq![a[0]] + a.drop_first());
            assert(b =~= seq![b[0]] + b.drop_first());
        }
    } else if a.len() == 0 && b.len() == 0 {
        assert(a =~= b);
    }
}

pub fn name_less_exec(a: &[char], b: &[char]) -> (r: bool)
    ensures
        r == name_less(a@, b@),
{
    let mut i: usize = 0;
    assert(a@.skip(0) =~= a@ && b@.skip(0) =~= b@);
    while i < a.len() && i < b.len() && a[i] == b[i]
        invariant
            i <= a@.len(),
            i <= b@.len(),
            name_less(a@, b@) == name_less(a@.skip(i as int), b@.skip(i as int)),
        decreases a@.len() - i,
    {
        assert(a@.skip(i as int).drop_first() =~= a@.skip(i + 1));
        assert(b@.skip(i as int).drop_first() =~= b@.skip(i + 1));
        i += 1;
    }
    if i == a.len() {
        i < b.len()
    } else if i == b.len() {
        false
    } else {
        a[i] < b[i]
    }
}

// ───────────────────────── matching ends ─────────────────────────

/// The number of `c`s that open `s`.
pub open spec fn lead_count(s: Seq<char>, c: char) -> nat
    decreases s.len(),
{
    if s.len() > 0 && s[0] == c {
        1 + lead_count(s.drop_first(), c)
    } else {
        0
    }
}

/// The number of `c`s that close `s`.
pub open spec fn trail_count(s: Seq<char>, c: char) -> nat
    decreases s.len(),
{
    if s.len() > 0 && s.last() == c {
        1 + trail_count(s.drop_last(), c)
    } else {
        0
    }
}

pub proof fn lemma_counts(s: Seq<char>, c: char)
    ensures
        lead_count(s, c) <= s.len(),
        trail_count(s, c) <= s.len(),
    decreases s.len(),
{
    if s.len() > 0 {
        lemma_counts(s.drop_first(), c);
        lemma_counts(s.drop_last(), c);
    }
}

/// `trim_matches(c)`: every leading and trailing `c` removed.
pub open spec fn trim_matching(s: Seq<char>, c: char) -> Seq<char> {
    let a = s.skip(lead_count(s, c) as int);
    a.take(a.len() - trail_count(a, c))
}

pub fn trim_matching_exec(s: &[char], c: char) -> (r: Vec<char>)
    ensures
        r@ == trim_matching(s@, c),
{
    proof {
        lemma_counts(s@, c);
    }
    let mut a: usize = 0;
    assert(s@.skip(0) =~= s@);
    while a < s.len() && s[a] == c
        invariant
            a <= s@.len(),
            lead_count(s@, c) == a + lead_count(s@.skip(a as int), c),
        decreases s@.len() - a,
    {
        assert(s@.skip(a as int).drop_first() =~= s@.skip(a + 1));
        a += 1;
    }
    let rest = slice_vec(s, a, s.len());
    assert(rest@ =~= s@.skip(a as int));
    proof {
        lemma_counts(rest@, c);
    }
    let mut b: usize = rest.len();
    assert(rest@.take(b as int) =~= rest@);
    while b > 0 && rest[b - 1] == c
        invariant
            b <= rest@.len(),
            trail_count(rest@, c) == (rest@.len() - b) + trail_count(rest@.take(b as int), c),
        decreases b,
    {
        assert(rest@.take(b as int).drop_last() =~= rest@.take(b - 1));
        b -= 1;
    }
    slice_vec(&rest, 0, b)
}

} // verus!
