//! YAML frontmatter parsing and rendering.
//!
//! Parsing is deliberately forgiving: a note whose frontmatter fails to parse is
//! treated as having none at all, rather than as an error. Notes are handwritten
//! and a malformed header should never make a note invisible to search.
//!
//! Offsets here count characters.

use std::ops::Range;
use vstd::utf8::encode_utf8;

use vstd::prelude::*;

use crate::text::texts;

use crate::text::{
    chars_eq, chars_of, find_char, find_char_from, find_chars, is_digit, is_ws, all_digits, lead_ws, lemma_find_char_facts,
    lemma_find_from_facts, lemma_lead_ws_bound, line_ranges, lines, lower, occurs_at, push_char,
    push_chars, push_str, ranges_within, skip_ws, skip_ws_back, slice_vec, spans, starts_with,
    string_of, to_lower, trail_ws, trim, trim_end, trim_range, trim_start, find,
};
use crate::yaml::{
    entries_view, field_view, parse_top_level, scalar_view, Field, FieldView, Scalar, ScalarView,
    yaml_top_level,
};

verus! {

/// The recognised frontmatter fields of a note.
///
/// `keys` records every top-level key present in the source, in document
/// order, including ones this struct does not model.
#[derive(Debug)]
pub struct Frontmatter {
    pub title: Option<String>,
    pub tags: Vec<String>,
    pub created: Option<String>,
    pub updated: Option<String>,
    pub keys: Vec<String>,
}

/// The fields of a frontmatter block, as text.
pub struct FrontmatterView {
    pub title: Option<Seq<char>>,
    pub tags: Seq<Seq<char>>,
    pub created: Option<Seq<char>>,
    pub updated: Option<Seq<char>>,
    pub keys: Seq<Seq<char>>,
}

pub open spec fn opt_text(o: Option<String>) -> Option<Seq<char>> {
    match o {
        Some(s) => Some(s@),
        None => None,
    }
}


impl Frontmatter {
    pub open spec fn view_fields(&self) -> FrontmatterView {
        FrontmatterView {
            title: opt_text(self.title),
            tags: texts(self.tags@),
            created: opt_text(self.created),
            updated: opt_text(self.updated),
            keys: texts(self.keys@),
        }
    }

    /// Whether the block had `key` at its top level.
    pub fn has(&self, key: &str) -> (r: bool)
        ensures
            r == texts(self.keys@).contains(key@),
    {
        let k = chars_of(key);
        for i in 0..self.keys.len()
            invariant
                k@ == key@,
                forall|j: int| 0 <= j < i ==> texts(self.keys@)[j] != k@,
        {
            let c = chars_of(self.keys[i].as_str());
            assert(texts(self.keys@)[i as int] == self.keys@[i as int]@);
            if chars_eq(&c, &k) {
                assert(texts(self.keys@)[i as int] == key@);
                return true;
            }
        }
        false
    }
}

// ───────────────────────── reading the mapping ─────────────────────────

/// `scalar_to_string`: strings and numbers as written, booleans as `true` /
/// `false`; anything else has no text.
pub open spec fn scalar_text(s: ScalarView) -> Option<Seq<char>> {
    match s {
        ScalarView::Str(t) => Some(t),
        ScalarView::Number(t) => Some(t),
        ScalarView::Bool(b) => Some(
            if b {
                seq!['t', 'r', 'u', 'e']
            } else {
                seq!['f', 'a', 'l', 's', 'e']
            },
        ),
        ScalarView::Other => None,
    }
}

pub open spec fn field_text(f: FieldView) -> Option<Seq<char>> {
    match f {
        FieldView::One(s) => scalar_text(s),
        FieldView::List(_) => None,
    }
}

/// The texts of the scalars in a list, skipping those without one.
pub open spec fn scalar_texts(items: Seq<ScalarView>) -> Seq<Seq<char>>
    decreases items.len(),
{
    if items.len() == 0 {
        seq![]
    } else {
        scalar_texts(items.drop_last()) + match scalar_text(items.last()) {
            Some(t) => seq![t],
            None => seq![],
        }
    }
}

/// `value_to_tags`: a list of scalars, or a lone scalar.
pub open spec fn field_tags(f: FieldView) -> Seq<Seq<char>> {
    match f {
        FieldView::List(items) => scalar_texts(items),
        FieldView::One(s) => match scalar_text(s) {
            Some(t) => seq![t],
            None => seq![],
        },
    }
}

/// The value filed under the string key `key`, scanning from entry `i`.
pub open spec fn lookup_from(m: Seq<(ScalarView, FieldView)>, key: Seq<char>, i: int) -> Option<
    FieldView,
>
    decreases m.len() - i,
{
    if i < 0 || i >= m.len() {
        None
    } else if m[i].0 == ScalarView::Str(key) {
        Some(m[i].1)
    } else {
        lookup_from(m, key, i + 1)
    }
}

pub open spec fn lookup(m: Seq<(ScalarView, FieldView)>, key: Seq<char>) -> Option<FieldView> {
    lookup_from(m, key, 0)
}

/// The string keys of a mapping, in order.
pub open spec fn string_keys(m: Seq<(ScalarView, FieldView)>) -> Seq<Seq<char>>
    decreases m.len(),
{
    if m.len() == 0 {
        seq![]
    } else {
        string_keys(m.drop_last()) + match m.last().0 {
            ScalarView::Str(k) => seq![k],
            _ => seq![],
        }
    }
}

pub open spec fn lookup_text(m: Seq<(ScalarView, FieldView)>, key: Seq<char>) -> Option<Seq<char>> {
    match lookup(m, key) {
        Some(f) => field_text(f),
        None => None,
    }
}

/// The frontmatter fields a mapping carries.
pub open spec fn fields_of(m: Seq<(ScalarView, FieldView)>) -> FrontmatterView {
    FrontmatterView {
        title: lookup_text(m, seq!['t', 'i', 't', 'l', 'e']),
        tags: match lookup(m, seq!['t', 'a', 'g', 's']) {
            Some(f) => field_tags(f),
            None => seq![],
        },
        created: lookup_text(m, seq!['c', 'r', 'e', 'a', 't', 'e', 'd']),
        updated: lookup_text(m, seq!['u', 'p', 'd', 'a', 't', 'e', 'd']),
        keys: string_keys(m),
    }
}

fn scalar_to_string(s: &Scalar) -> (r: Option<String>)
    ensures
        opt_text(r) == scalar_text(scalar_view(*s)),
{
    match s {
        Scalar::Str(t) => Some(t.clone()),
        Scalar::Number(t) => Some(t.clone()),
        Scalar::Bool(b) => {
            let v: Vec<char> = if *b {
                vec!['t', 'r', 'u', 'e']
            } else {
                vec!['f', 'a', 'l', 's', 'e']
            };
            let r = string_of(&v);
            proof {
                if *b {
                    assert(v@ =~= seq!['t', 'r', 'u', 'e']);
                } else {
                    assert(v@ =~= seq!['f', 'a', 'l', 's', 'e']);
                }
            }
            Some(r)
        },
        Scalar::Other => None,
    }
}

fn field_to_tags(f: &Field) -> (r: Vec<String>)
    ensures
        texts(r@) == field_tags(field_view(*f)),
{
    match f {
        Field::List(items) => {
            let mut r: Vec<String> = Vec::new();
            let ghost iv = items@.map_values(|s: Scalar| scalar_view(s));
            for i in 0..items.len()
                invariant
                    iv == items@.map_values(|s: Scalar| scalar_view(s)),
                    texts(r@) == scalar_texts(iv.take(i as int)),
            {
                proof {
                    assert(iv.take(i + 1).drop_last() =~= iv.take(i as int));
                    assert(iv.take(i + 1).last() == scalar_view(items@[i as int]));
                }
                let ghost before = r@;
                match scalar_to_string(&items[i]) {
                    Some(t) => {
                        r.push(t);
                        assert(texts(r@) =~= texts(before).push(t@));
                    },
                    None => {},
                }
            }
            assert(iv.take(items@.len() as int) =~= iv);
            r
        },
        Field::One(s) => {
            let mut r: Vec<String> = Vec::new();
            match scalar_to_string(s) {
                Some(t) => {
                    r.push(t);
                    assert(texts(r@) =~= seq![t@]);
                },
                None => {
                    assert(texts(r@) =~= Seq::<Seq<char>>::empty());
                },
            }
            r
        },
    }
}

/// The value under the string key `key`.
fn lookup_exec(m: &Vec<(Scalar, Field)>, key: &[char]) -> (r: Option<usize>)
    ensures
        r matches Some(i) ==> i < m@.len() && lookup(entries_view(m@), key@) == Some(
            field_view(m@[i as int].1),
        ),
        r is None ==> lookup(entries_view(m@), key@) is None,
{
    let ghost mv = entries_view(m@);
    let mut i: usize = 0;
    while i < m.len()
        invariant
            mv == entries_view(m@),
            lookup_from(mv, key@, 0) == lookup_from(mv, key@, i as int),
        decreases m@.len() - i,
    {
        let hit = match &m[i].0 {
            Scalar::Str(t) => {
                let c = chars_of(t.as_str());
                chars_eq(&c, key)
            },
            _ => false,
        };
        proof {
            assert(mv[i as int] == (scalar_view(m@[i as int].0), field_view(m@[i as int].1)));
            if hit {
                assert(mv[i as int].0 == ScalarView::Str(key@));
            } else {
                assert(mv[i as int].0 != ScalarView::Str(key@));
            }
        }
        if hit {
            return Some(i);
        }
        i += 1;
    }
    None
}

fn lookup_text_exec(m: &Vec<(Scalar, Field)>, key: &[char]) -> (r: Option<String>)
    ensures
        opt_text(r) == lookup_text(entries_view(m@), key@),
{
    match lookup_exec(m, key) {
        Some(i) => match &m[i].1 {
            Field::One(s) => scalar_to_string(s),
            Field::List(_) => None,
        },
        None => None,
    }
}

/// Read the frontmatter fields out of a YAML mapping's entries.
pub fn frontmatter_from_entries(m: &Vec<(Scalar, Field)>) -> (r: Frontmatter)
    ensures
        r.view_fields() == fields_of(entries_view(m@)),
{
    let ghost mv = entries_view(m@);
    let mut keys: Vec<String> = Vec::new();
    for i in 0..m.len()
        invariant
            mv == entries_view(m@),
            texts(keys@) == string_keys(mv.take(i as int)),
    {
        proof {
            assert(mv.take(i + 1).drop_last() =~= mv.take(i as int));
            assert(mv.take(i + 1).last() == (scalar_view(m@[i as int].0), field_view(m@[i as int].1)));
        }
        let ghost before = keys@;
        match &m[i].0 {
            Scalar::Str(k) => {
                keys.push(k.clone());
                assert(texts(keys@) =~= texts(before).push(k@));
            },
            _ => {},
        }
    }
    assert(mv.take(m@.len() as int) =~= mv);
    let title_key: Vec<char> = vec!['t', 'i', 't', 'l', 'e'];
    let tags_key: Vec<char> = vec!['t', 'a', 'g', 's'];
    let created_key: Vec<char> = vec!['c', 'r', 'e', 'a', 't', 'e', 'd'];
    let updated_key: Vec<char> = vec!['u', 'p', 'd', 'a', 't', 'e', 'd'];
    assert(title_key@ =~= seq!['t', 'i', 't', 'l', 'e']);
    assert(tags_key@ =~= seq!['t', 'a', 'g', 's']);
    assert(created_key@ =~= seq!['c', 'r', 'e', 'a', 't', 'e', 'd']);
    assert(updated_key@ =~= seq!['u', 'p', 'd', 'a', 't', 'e', 'd']);
    let tags = match lookup_exec(m, &tags_key) {
        Some(i) => field_to_tags(&m[i].1),
        None => {
            let v: Vec<String> = Vec::new();
            assert(texts(v@) =~= Seq::<Seq<char>>::empty());
            v
        },
    };
    Frontmatter {
        title: lookup_text_exec(m, &title_key),
        tags,
        created: lookup_text_exec(m, &created_key),
        updated: lookup_text_exec(m, &updated_key),
        keys,
    }
}

// ───────────────────────── locating the block ─────────────────────────

/// A byte-order mark at the start of a note is skipped.
pub open spec fn bom_len(raw: Seq<char>) -> int {
    if raw.len() > 0 && raw[0] == '\u{feff}' {
        1
    } else {
        0
    }
}

/// Where the opening `---` line ends, if `t` opens with one: the delimiter,
/// an optional carriage return, then a newline.
pub open spec fn after_open(t: Seq<char>) -> Option<int> {
    if t.len() >= 3 && t[0] == '-' && t[1] == '-' && t[2] == '-' {
        let k = if t.len() > 3 && t[3] == '\r' {
            4int
        } else {
            3int
        };
        if t.len() > k && t[k] == '\n' {
            Some(k + 1)
        } else {
            None
        }
    } else {
        None
    }
}

/// Just past the newline that ends the line starting at `c`, or the end.
pub open spec fn line_end(t: Seq<char>, c: int) -> int {
    match find_char_from(t, '\n', c) {
        Some(k) => k + 1,
        None => t.len() as int,
    }
}

/// A line that closes a frontmatter block: `---` or `...` once trailing
/// whitespace is dropped.
pub open spec fn is_closing(line: Seq<char>) -> bool {
    trim_end(line) == seq!['-', '-', '-'] || trim_end(line) == seq!['.', '.', '.']
}

/// The closing line at or after `c`: its start and the end of its line.
pub open spec fn close_from(t: Seq<char>, c: int) -> Option<(int, int)>
    decreases t.len() - c,
{
    if c < 0 || c > t.len() {
        None
    } else if is_closing(t.subrange(c, line_end(t, c))) {
        Some((c, line_end(t, c)))
    } else if line_end(t, c) >= t.len() || line_end(t, c) <= c {
        None
    } else {
        close_from(t, line_end(t, c))
    }
}

/// The block in `t`: the YAML between the delimiters, and where the block
/// ends.
pub open spec fn locate_block(t: Seq<char>) -> Option<(Seq<char>, int)> {
    match after_open(t) {
        Some(a) => match close_from(t, a) {
            Some((c, e)) => Some((t.subrange(a, c), e)),
            None => None,
        },
        None => None,
    }
}

/// The frontmatter a note carries: its fields, and where the block ends in
/// the note's text.
pub open spec fn split_spec(raw: Seq<char>) -> Option<(FrontmatterView, int)> {
    let off = bom_len(raw);
    match locate_block(raw.skip(off)) {
        Some((yaml, end)) => match yaml_top_level(yaml) {
            Some(Some(m)) => Some((fields_of(m), off + end)),
            _ => None,
        },
        None => None,
    }
}

/// A Markdown note split into its frontmatter and body.
#[derive(Debug)]
pub struct Document {
    /// Parsed frontmatter, if the note opened with a well-formed YAML block.
    pub frontmatter: Option<Frontmatter>,
    /// Byte range of the whole block in the note's text, delimiters
    /// included, ending just past the newline that follows the closing `---`.
    pub span: Option<Range<usize>>,
    /// Everything after the frontmatter block.
    pub body: String,
}

proof fn lemma_line_end(t: Seq<char>, c: int)
    requires
        0 <= c <= t.len(),
    ensures
        c <= line_end(t, c) <= t.len(),
        c < t.len() ==> c < line_end(t, c),
        forall|j: int| c <= j < line_end(t, c) - 1 ==> t[j] != '\n',
        line_end(t, c) < t.len() ==> t[line_end(t, c) - 1] == '\n',
{
    lemma_find_char_facts(t, '\n', c);
}

proof fn lemma_close_from(t: Seq<char>, c: int)
    requires
        0 <= c <= t.len(),
    ensures
        close_from(t, c) matches Some((a, e)) ==> c <= a <= e <= t.len(),
    decreases t.len() - c,
{
    lemma_line_end(t, c);
    if !is_closing(t.subrange(c, line_end(t, c))) && !(line_end(t, c) >= t.len() || line_end(t, c)
        <= c) {
        lemma_close_from(t, line_end(t, c));
    }
}

/// A block, when a note has one, ends inside the note and after any
/// byte-order mark.
pub proof fn lemma_split_bounds(raw: Seq<char>)
    ensures
        split_spec(raw) matches Some((_, end)) ==> bom_len(raw) <= end <= raw.len(),
{
    let off = bom_len(raw);
    let t = raw.skip(off);
    match after_open(t) {
        Some(a) => lemma_close_from(t, a),
        None => {},
    }
}

/// A note's frontmatter block opens its text, after any byte-order mark,
/// with a `---` line, and ends past that line.
pub proof fn lemma_split_opens_with_delimiter(raw: Seq<char>)
    ensures
        split_spec(raw) matches Some((_, end)) ==> {
            &&& seq!['-', '-', '-'].is_prefix_of(raw.skip(bom_len(raw)))
            &&& bom_len(raw) + 4 <= end <= raw.len()
        },
{
    lemma_split_bounds(raw);
    let off = bom_len(raw);
    let t = raw.skip(off);
    match after_open(t) {
        Some(a) => {
            lemma_close_from(t, a);
            assert(t.subrange(0, 3) =~= seq!['-', '-', '-']);
        },
        None => {},
    }
}

/// The span of a note's frontmatter starts at byte 0, or at byte 3, just
/// past a byte-order mark.
pub proof fn lemma_span_starts_at_bom(raw: Seq<char>)
    ensures
        encode_utf8(raw.take(bom_len(raw))).len() == 3 * bom_len(raw),
{
    let t = raw.take(bom_len(raw));
    if bom_len(raw) == 1 {
        assert(t[0] == '\u{feff}');
        assert(t.drop_first() =~= Seq::<char>::empty());
        assert(encode_utf8(t.drop_first()) =~= Seq::<u8>::empty());
        assert(('\u{feff}' as u32) == 0xFEFFu32);
        assert(encode_utf8(t) == vstd::utf8::encode_scalar(t[0] as u32) + encode_utf8(t.drop_first()));
    } else {
        assert(t =~= Seq::<char>::empty());
    }
}

/// Touching a note that has no frontmatter, or whose frontmatter has no
/// `updated` key, gives back the note unchanged.
pub proof fn lemma_touch_without_key(raw: Seq<char>, stamp: Seq<char>)
    requires
        split_spec(raw) matches Some((fm, _)) ==> !fm.keys.contains(updated_key().drop_last()),
    ensures
        touched(raw, stamp) == raw,
{
}

/// Touching changes nothing before the block and nothing after it: the
/// byte-order mark and the whole body stay as they were.
pub proof fn lemma_touch_keeps_body(raw: Seq<char>, stamp: Seq<char>)
    ensures
        split_spec(raw) matches Some((_, end)) ==> {
            &&& touched(raw, stamp).take(bom_len(raw)) == raw.take(bom_len(raw))
            &&& raw.skip(end).is_suffix_of(touched(raw, stamp))
        },
{
    lemma_split_bounds(raw);
    match split_spec(raw) {
        Some((fm, end)) => {
            if fm.keys.contains(updated_key().drop_last()) {
                let start = bom_len(raw);
                let mid = touch_scan(raw.subrange(start, end), 0, 0, stamp);
                let t = raw.take(start) + mid + raw.skip(end);
                assert(t.take(start) =~= raw.take(start));
                assert(t.subrange(t.len() - raw.skip(end).len(), t.len() as int) =~= raw.skip(end));
            } else {
                assert(raw.subrange(raw.len() - raw.skip(end).len(), raw.len() as int) =~= raw.skip(end));
            }
        },
        None => {},
    }
}

proof fn lemma_touch_body_one_line(line: Seq<char>, stamp: Seq<char>)
    requires
        !line.contains('\n'),
        !stamp.contains('\n'),
    ensures
        !touch_body(line, stamp).contains('\n'),
{
    let t = touch_body(line, stamp);
    if t.contains('\n') {
        let j = choose|j: int| 0 <= j < t.len() && t[j] == '\n';
        if updated_key().is_prefix_of(trim_start(line)) {
            crate::text::lemma_lead_ws_bound(line);
            let k = lead_ws(line) as int;
            if j < k {
                assert(line[j] == '\n');
            } else if j >= k + 9 {
                assert(stamp[j - k - 9] == '\n');
            }
        } else {
            assert(line[j] == '\n');
        }
    }
}

proof fn lemma_touch_scan_newlines(s: Seq<char>, st: int, i: int, stamp: Seq<char>)
    requires
        0 <= st <= i <= s.len(),
        forall|j: int| st <= j < i ==> s[j] != '\n',
        !stamp.contains('\n'),
    ensures
        crate::text::newlines(touch_scan(s, st, i, stamp)) == crate::text::newlines(s.subrange(st, s.len() as int)),
    decreases s.len() - i,
{
    if i >= s.len() {
        if st < s.len() {
            let x = s.subrange(st, s.len() as int);
            assert(!x.contains('\n')) by {
                if x.contains('\n') {
                    let j = choose|j: int| 0 <= j < x.len() && x[j] == '\n';
                    assert(s[st + j] == '\n');
                }
            }
            lemma_touch_body_one_line(x, stamp);
            crate::text::lemma_no_newlines(x);
            crate::text::lemma_no_newlines(touch_body(x, stamp));
        } else {
            assert(s.subrange(st, s.len() as int) =~= Seq::<char>::empty());
        }
    } else if s[i] == '\n' {
        let body = crate::text::strip_cr(s.subrange(st, i));
        let bl = body.len() as int;
        assert(!body.contains('\n')) by {
            if body.contains('\n') {
                let j = choose|j: int| 0 <= j < body.len() && body[j] == '\n';
                assert(s[st + j] == '\n');
            }
        }
        lemma_touch_body_one_line(body, stamp);
        crate::text::lemma_no_newlines(touch_body(body, stamp));
        let mid = s.subrange(st + bl, i + 1);
        let mid0 = s.subrange(st + bl, i);
        assert(!mid0.contains('\n')) by {
            if mid0.contains('\n') {
                let j = choose|j: int| 0 <= j < mid0.len() && mid0[j] == '\n';
                assert(s[st + bl + j] == '\n');
            }
        }
        crate::text::lemma_no_newlines(mid0);
        assert(mid =~= mid0.push('\n'));
        assert(mid.drop_last() =~= mid0);
        assert(mid.last() == '\n');
        assert(crate::text::newlines(mid) == 1);
        lemma_touch_scan_newlines(s, i + 1, i + 1, stamp);
        let rec = touch_scan(s, i + 1, i + 1, stamp);
        crate::text::lemma_newlines_append(touch_body(body, stamp), mid);
        crate::text::lemma_newlines_append(touch_body(body, stamp) + mid, rec);
        let head = s.subrange(st, i + 1);
        let h0 = s.subrange(st, i);
        assert(!h0.contains('\n')) by {
            if h0.contains('\n') {
                let j = choose|j: int| 0 <= j < h0.len() && h0[j] == '\n';
                assert(s[st + j] == '\n');
            }
        }
        crate::text::lemma_no_newlines(h0);
        assert(head =~= h0.push('\n'));
        assert(head.drop_last() =~= h0);
        assert(head.last() == '\n');
        assert(crate::text::newlines(head) == 1);
        assert(s.subrange(st, s.len() as int) =~= head + s.subrange(i + 1, s.len() as int));
        crate::text::lemma_newlines_append(head, s.subrange(i + 1, s.len() as int));
    } else {
        lemma_touch_scan_newlines(s, st, i + 1, stamp);
    }
}

/// Touching keeps the note's line count: a stamp on one line replaces the
/// `updated` value, and every line ending stays.
pub proof fn lemma_touch_keeps_line_count(raw: Seq<char>, stamp: Seq<char>)
    requires
        !stamp.contains('\n'),
    ensures
        crate::text::newlines(touched(raw, stamp)) == crate::text::newlines(raw),
{
    lemma_split_bounds(raw);
    if let Some((fm, end)) = split_spec(raw) {
        if fm.keys.contains(updated_key().drop_last()) {
            let start = bom_len(raw);
            let block = raw.subrange(start, end);
            let mid = touch_scan(block, 0, 0, stamp);
            lemma_touch_scan_newlines(block, 0, 0, stamp);
            assert(block.subrange(0, block.len() as int) =~= block);
            assert(touched(raw, stamp) == raw.take(start) + mid + raw.skip(end));
            lemma_newlines3(raw.take(start), mid, raw.skip(end));
            lemma_newlines3(raw.take(start), block, raw.skip(end));
            assert(raw =~= raw.take(start) + block + raw.skip(end));
        }
    }
}

/// `s[a..b]` is a whole line of `s`: it starts the text or follows a
/// newline, and runs up to the next newline or the end.
pub open spec fn is_line_of(s: Seq<char>, a: int, b: int) -> bool {
    &&& 0 <= a <= b <= s.len()
    &&& (a == 0 || s[a - 1] == '\n')
    &&& (b == s.len() || s[b] == '\n')
    &&& forall|j: int| a <= j < b ==> s[j] != '\n'
}

/// The text an `updated` line reads after touching.
pub open spec fn updated_line(stamp: Seq<char>) -> Seq<char> {
    seq!['u', 'p', 'd', 'a', 't', 'e', 'd', ':', ' '] + stamp
}

/// Touching a note whose frontmatter has an `updated` key, set on a line of
/// its own (`updated: ...`, perhaps indented), writes `updated: <stamp>`
/// into the note.
pub proof fn lemma_touch_writes_stamp(raw: Seq<char>, stamp: Seq<char>, a: int, b: int)
    requires
        split_spec(raw) matches Some((fm, end)) && fm.keys.contains(updated_key().drop_last())
            && is_line_of(raw.subrange(bom_len(raw) as int, end), a, b)
            && updated_key().is_prefix_of(trim_start(raw.subrange(bom_len(raw) as int, end).subrange(a, b))),
    ensures
        exists|k: int| occurs_at(touched(raw, stamp), updated_line(stamp), k),
{
    lemma_split_bounds(raw);
    let (fm, end) = split_spec(raw).unwrap();
    let start = bom_len(raw) as int;
    let block = raw.subrange(start, end);
    lemma_scan_writes_stamp(block, 0, 0, stamp, a, b);
    let mid = touch_scan(block, 0, 0, stamp);
    let k = choose|k: int| occurs_at(mid, updated_line(stamp), k);
    lemma_occurs_within(raw.take(start), mid, raw.skip(end), updated_line(stamp), k);
    assert(touched(raw, stamp) == raw.take(start) + mid + raw.skip(end));
    assert(occurs_at(touched(raw, stamp), updated_line(stamp), k + start));
}

proof fn lemma_occurs_within(p: Seq<char>, t: Seq<char>, q: Seq<char>, w: Seq<char>, k: int)
    requires
        occurs_at(t, w, k),
    ensures
        occurs_at(p + t + q, w, k + p.len()),
{
    assert((p + t + q).subrange(k + p.len(), k + p.len() + w.len()) =~= t.subrange(k, k + w.len()));
}

proof fn lemma_lead_ws_at(s: Seq<char>, l: int)
    requires
        0 <= l < s.len(),
        forall|j: int| 0 <= j < l ==> is_ws(#[trigger] s[j]),
        !is_ws(s[l]),
    ensures
        lead_ws(s) == l,
    decreases l,
{
    if l > 0 {
        assert forall|j: int| 0 <= j < l - 1 implies is_ws(#[trigger] s.drop_first()[j]) by {
            assert(s.drop_first()[j] == s[j + 1]);
        }
        lemma_lead_ws_at(s.drop_first(), l - 1);
    }
}

/// A line that opens with `updated:` still does once a closing `\r` is
/// dropped, with the same indent.
proof fn lemma_strip_cr_keeps_key(x: Seq<char>)
    requires
        updated_key().is_prefix_of(trim_start(x)),
    ensures
        updated_key().is_prefix_of(trim_start(crate::text::strip_cr(x))),
        lead_ws(crate::text::strip_cr(x)) == lead_ws(x),
{
    lemma_lead_ws_bound(x);
    let l = lead_ws(x) as int;
    let y = crate::text::strip_cr(x);
    assert(trim_start(x)[0] == 'u');
    assert(x[l] == trim_start(x)[0]);
    if x.len() > 0 && x.last() == '\r' {
        assert(trim_start(x)[7] == ':');
        assert(x[l + 7] == trim_start(x)[7]);
        assert(l + 8 <= y.len());
        assert(!is_ws(y[l]));
        lemma_lead_ws_at(y, l);
        assert forall|j: int| 0 <= j < 8 implies trim_start(y)[j] == updated_key()[j] by {
            assert(trim_start(y)[j] == y[l + j]);
            assert(trim_start(x)[j] == x[l + j]);
        }
    }
}

proof fn lemma_body_writes_stamp(line: Seq<char>, stamp: Seq<char>)
    requires
        updated_key().is_prefix_of(trim_start(line)),
    ensures
        occurs_at(touch_body(line, stamp), updated_line(stamp), lead_ws(line) as int),
{
    lemma_lead_ws_bound(line);
    let l = lead_ws(line) as int;
    let t = touch_body(line, stamp);
    assert(t == line.take(l) + updated_line(stamp));
    assert(t.subrange(l, l + updated_line(stamp).len()) =~= updated_line(stamp));
}

proof fn lemma_scan_writes_stamp(s: Seq<char>, st: int, i: int, stamp: Seq<char>, a: int, b: int)
    requires
        0 <= st <= i <= s.len(),
        st <= a,
        forall|j: int| st <= j < i ==> s[j] != '\n',
        is_line_of(s, a, b),
        updated_key().is_prefix_of(trim_start(s.subrange(a, b))),
    ensures
        exists|k: int| occurs_at(touch_scan(s, st, i, stamp), updated_line(stamp), k),
    decreases s.len() - i,
{
    let w = updated_line(stamp);
    if i >= s.len() {
        if st < a {
            assert(s[a - 1] == '\n');
        }
        if b < s.len() {
            assert(s[b] == '\n');
        }
        let line = s.subrange(st, s.len() as int);
        if st == s.len() {
            assert(trim_start(s.subrange(a, b)).len() == 0);
        }
        lemma_body_writes_stamp(line, stamp);
        assert(touch_scan(s, st, i, stamp) == touch_body(line, stamp));
        assert(occurs_at(touch_scan(s, st, i, stamp), w, lead_ws(line) as int));
    } else if s[i] == '\n' {
        let body = crate::text::strip_cr(s.subrange(st, i));
        let rest = s.subrange(st + body.len(), i + 1);
        let rec = touch_scan(s, i + 1, i + 1, stamp);
        assert(touch_scan(s, st, i, stamp) == touch_body(body, stamp) + rest + rec);
        if st == a {
            if b < i {
                assert(s[b] == '\n');
            }
            if b > i {
                assert(s[i] != '\n');
            }
            assert(b == i);
            lemma_strip_cr_keeps_key(s.subrange(a, b));
            lemma_body_writes_stamp(body, stamp);
            let k = lead_ws(body) as int;
            lemma_occurs_within(Seq::<char>::empty(), touch_body(body, stamp), rest + rec, w, k);
            assert(Seq::<char>::empty() + touch_body(body, stamp) + (rest + rec)
                =~= touch_scan(s, st, i, stamp));
            assert(occurs_at(touch_scan(s, st, i, stamp), w, k));
        } else {
            assert(s[a - 1] == '\n');
            assert(a - 1 >= i);
            lemma_scan_writes_stamp(s, i + 1, i + 1, stamp, a, b);
            let k = choose|k: int| occurs_at(rec, w, k);
            lemma_occurs_within(touch_body(body, stamp) + rest, rec, Seq::<char>::empty(), w, k);
            assert(touch_body(body, stamp) + rest + rec + Seq::<char>::empty() =~= touch_scan(s, st, i, stamp));
            assert(occurs_at(touch_scan(s, st, i, stamp), w, k + (touch_body(body, stamp) + rest).len()));
        }
    } else {
        lemma_scan_writes_stamp(s, st, i + 1, stamp, a, b);
        assert(touch_scan(s, st, i, stamp) == touch_scan(s, st, i + 1, stamp));
    }
}

proof fn lemma_newlines3(a: Seq<char>, b: Seq<char>, c: Seq<char>)
    ensures
        crate::text::newlines(a + b + c) == crate::text::newlines(a) + crate::text::newlines(b)
            + crate::text::newlines(c),
{
    crate::text::lemma_newlines_append(a, b);
    crate::text::lemma_newlines_append(a + b, c);
}

fn is_closing_exec(t: &[char], a: usize, b: usize) -> (r: bool)
    requires
        a <= b <= t@.len(),
    ensures
        r == is_closing(t@.subrange(a as int, b as int)),
{
    let e = skip_ws_back(t, a, b);
    proof {
        assert(trim_end(t@.subrange(a as int, b as int)) =~= t@.subrange(a as int, e as int));
    }
    if e - a != 3 {
        return false;
    }
    let dashes = t[a] == '-' && t[a + 1] == '-' && t[a + 2] == '-';
    let dots = t[a] == '.' && t[a + 1] == '.' && t[a + 2] == '.';
    proof {
        let x = t@.subrange(a as int, e as int);
        assert(x[0] == t@[a as int] && x[1] == t@[a + 1] && x[2] == t@[a + 2]);
        if dashes {
            assert(x =~= seq!['-', '-', '-']);
        }
        if dots {
            assert(x =~= seq!['.', '.', '.']);
        }
    }
    dashes || dots
}

/// Find the block: the bounds of its YAML payload and where it ends.
fn locate_exec(t: &[char]) -> (r: Option<(usize, usize, usize)>)
    ensures
        r matches Some((a, c, e)) ==> a <= c <= e <= t@.len() && locate_block(t@) == Some(
            (t@.subrange(a as int, c as int), e as int),
        ),
        r is None ==> locate_block(t@) is None,
{
    if !(t.len() >= 3 && t[0] == '-' && t[1] == '-' && t[2] == '-') {
        return None;
    }
    let k: usize = if t.len() > 3 && t[3] == '\r' {
        4
    } else {
        3
    };
    if !(t.len() > k && t[k] == '\n') {
        return None;
    }
    let a = k + 1;
    assert(after_open(t@) == Some(a as int));
    let mut cursor = a;
    loop
        invariant
            a <= cursor <= t@.len(),
            after_open(t@) == Some(a as int),
            close_from(t@, a as int) == close_from(t@, cursor as int),
        decreases t@.len() - cursor,
    {
        proof {
            lemma_line_end(t@, cursor as int);
            lemma_find_char_facts(t@, '\n', cursor as int);
        }
        let n = t.len();
        let end = match find_char(t, '\n', cursor) {
            Some(k) => {
                assert(k < n);
                k + 1
            },
            None => n,
        };
        assert(end == line_end(t@, cursor as int));
        if is_closing_exec(t, cursor, end) {
            assert(close_from(t@, cursor as int) == Some((cursor as int, end as int)));
            return Some((a, cursor, end));
        }
        if end >= t.len() || end <= cursor {
            return None;
        }
        cursor = end;
    }
}

impl Document {
    /// Split `raw` into frontmatter and body. The span is a byte range into
    /// `raw`: it starts at 0, or just past a byte-order mark, and ends where
    /// the body begins.
    pub fn split(raw: &str) -> (r: Document)
        ensures
            match split_spec(raw@) {
                Some((fm, end)) => {
                    &&& bom_len(raw@) <= end <= raw@.len()
                    &&& r.frontmatter matches Some(f) && f.view_fields() == fm
                    &&& r.span == Some(
                        encode_utf8(raw@.take(bom_len(raw@))).len() as usize..encode_utf8(
                            raw@.take(end),
                        ).len() as usize,
                    )
                    &&& r.body@ == raw@.skip(end)
                },
                None => r.frontmatter is None && r.span is None && r.body@ == raw@,
            },
    {
        let d = Document::split_chars(raw);
        proof {
            lemma_split_bounds(raw@);
        }
        match d.span {
            Some(sp) => {
                let a = crate::text::byte_offset(raw, sp.start);
                let b = crate::text::byte_offset(raw, sp.end);
                let n = chars_of(raw).len();
                let ghost end = split_spec(raw@).unwrap().1;
                assert(end <= n);
                assert(sp.start == bom_len(raw@) && sp.end == end);
                assert(a == encode_utf8(raw@.take(bom_len(raw@))).len());
                assert(b == encode_utf8(raw@.take(end)).len());
                Document { frontmatter: d.frontmatter, span: Some(a..b), body: d.body }
            },
            None => d,
        }
    }

    /// The same split, with the block's range counted in characters of
    /// `raw` rather than bytes.
    pub(crate) fn split_chars(raw: &str) -> (r: Document)
        ensures
            match split_spec(raw@) {
                Some((fm, end)) => {
                    &&& bom_len(raw@) <= end <= raw@.len()
                    &&& r.frontmatter matches Some(f) && f.view_fields() == fm
                    &&& r.span == Some(bom_len(raw@) as usize..end as usize)
                    &&& r.body@ == raw@.skip(end)
                },
                None => r.frontmatter is None && r.span is None && r.body@ == raw@,
            },
            r.span matches Some(sp) ==> sp.start <= sp.end <= raw@.len(),
    {
        let all = chars_of(raw);
        let off: usize = if all.len() > 0 && all[0] == '\u{feff}' {
            1
        } else {
            0
        };
        let text = slice_vec(&all, off, all.len());
        assert(text@ =~= raw@.skip(off as int));
        let (a, c, e) = match locate_exec(&text) {
            Some(found) => found,
            None => {
                return Document { frontmatter: None, span: None, body: raw.to_owned() };
            },
        };
        let yaml = string_of(&slice_vec(&text, a, c));
        let parsed = parse_top_level(yaml.as_str());
        let m = match parsed {
            Some(Some(m)) => m,
            _ => {
                return Document { frontmatter: None, span: None, body: raw.to_owned() };
            },
        };
        let fm = frontmatter_from_entries(&m);
        let end = off + e;
        let body = string_of(&slice_vec(&all, end, all.len()));
        assert(all@.subrange(end as int, all@.len() as int) =~= raw@.skip(end as int));
        Document { frontmatter: Some(fm), span: Some(off..end), body }
    }
}

// ───────────────────────── touching `updated` ─────────────────────────

pub open spec fn updated_key() -> Seq<char> {
    seq!['u', 'p', 'd', 'a', 't', 'e', 'd', ':']
}

/// A line of the block after touching, without its line ending: an
/// `updated:` line becomes `updated: <stamp>` with its indent kept, any
/// other line stays as it is.
pub open spec fn touch_body(line: Seq<char>, stamp: Seq<char>) -> Seq<char> {
    if updated_key().is_prefix_of(trim_start(line)) {
        line.take(lead_ws(line) as int) + seq!['u', 'p', 'd', 'a', 't', 'e', 'd', ':', ' '] + stamp
    } else {
        line
    }
}

/// The text of `s` from `st` on, scanning at `i`, each line touched and
/// every line ending (`\n` or `\r\n`) kept as it was.
pub open spec fn touch_scan(s: Seq<char>, st: int, i: int, stamp: Seq<char>) -> Seq<char>
    decreases s.len() - i,
{
    if st < 0 || i < st || i >= s.len() {
        if 0 <= st < s.len() {
            touch_body(s.subrange(st, s.len() as int), stamp)
        } else {
            seq![]
        }
    } else if s[i] == '\n' {
        let body = crate::text::strip_cr(s.subrange(st, i));
        touch_body(body, stamp) + s.subrange(st + body.len(), i + 1) + touch_scan(s, i + 1, i + 1, stamp)
    } else {
        touch_scan(s, st, i + 1, stamp)
    }
}

/// The note with `updated` set to `stamp`, or unchanged when it has no block
/// or no `updated` key.
pub open spec fn touched(raw: Seq<char>, stamp: Seq<char>) -> Seq<char> {
    match split_spec(raw) {
        Some((fm, end)) => if fm.keys.contains(updated_key().drop_last()) {
            let start = bom_len(raw);
            raw.take(start) + touch_scan(raw.subrange(start, end), 0, 0, stamp) + raw.skip(end)
        } else {
            raw
        },
        None => raw,
    }
}

/// Append one line of the block, touched.
fn touch_piece(out: &mut String, block: &Vec<char>, x: usize, y: usize, key: &Vec<char>, stamp: &Vec<char>)
    requires
        x <= y <= block@.len(),
        key@ == updated_key(),
    ensures
        final(out)@ == old(out)@ + touch_body(block@.subrange(x as int, y as int), stamp@),
{
    let ghost line = block@.subrange(x as int, y as int);
    let w = skip_ws(block, x, y);
    let rest = slice_vec(block, w, y);
    assert(rest@ =~= trim_start(line));
    if starts_with(&rest, key) {
        let indent = slice_vec(block, x, w);
        let ghost before = out@;
        push_chars(out, &indent);
        push_chars(out, key);
        push_char(out, ' ');
        push_chars(out, stamp);
        proof {
            assert(indent@ =~= line.take(lead_ws(line) as int));
            assert(key@.push(' ') =~= seq!['u', 'p', 'd', 'a', 't', 'e', 'd', ':', ' ']);
            assert(out@ =~= before + touch_body(line, stamp@));
        }
    } else {
        push_chars(out, &slice_vec(block, x, y));
    }
}

/// Set the `updated` field to `stamp`, leaving everything else as it was.
///
/// A note without frontmatter, or without an `updated` key, is returned
/// unchanged — writing a header into a file that never had one would be a
/// bigger change than an edit asked for.
pub fn touch_updated(raw: &str, stamp: &str) -> (r: String)
    ensures
        r@ == touched(raw@, stamp@),
{
    let doc = Document::split_chars(raw);
    let ghost sp = split_spec(raw@);
    let (start, end) = match (&doc.span, &doc.frontmatter) {
        (Some(span), Some(fm)) => {
            let key: Vec<char> = vec!['u', 'p', 'd', 'a', 't', 'e', 'd'];
            assert(key@ =~= updated_key().drop_last());
            let ks = string_of(&key);
            if !fm.has(ks.as_str()) {
                return raw.to_owned();
            }
            (span.start, span.end)
        },
        _ => return raw.to_owned(),
    };
    let all = chars_of(raw);
    let block = slice_vec(&all, start, end);
    let stamp_chars = chars_of(stamp);
    let key: Vec<char> = vec!['u', 'p', 'd', 'a', 't', 'e', 'd', ':'];
    assert(key@ =~= updated_key());
    let mut out = string_of(&slice_vec(&all, 0, start));
    let ghost head = out@;
    let ghost whole = touch_scan(block@, 0, 0, stamp@);
    let mut st: usize = 0;
    let mut i: usize = 0;
    while i < block.len()
        invariant
            st <= i <= block@.len(),
            head + whole == out@ + touch_scan(block@, st as int, i as int, stamp@),
            whole == touch_scan(block@, 0, 0, stamp@),
            key@ == updated_key(),
            stamp_chars@ == stamp@,
        decreases block@.len() - i,
    {
        if block[i] == '\n' {
            let b = if i > st && block[i - 1] == '\r' {
                i - 1
            } else {
                i
            };
            let ghost seg = block@.subrange(st as int, i as int);
            assert(crate::text::strip_cr(seg) =~= block@.subrange(st as int, b as int));
            let ghost before = out@;
            touch_piece(&mut out, &block, st, b, &key, &stamp_chars);
            push_chars(&mut out, &slice_vec(&block, b, i + 1));
            assert(out@ =~= before + touch_body(crate::text::strip_cr(seg), stamp@) + block@.subrange(
                st + crate::text::strip_cr(seg).len(),
                i + 1,
            ));
            st = i + 1;
        }
        i += 1;
    }
    if st < block.len() {
        touch_piece(&mut out, &block, st, block.len(), &key, &stamp_chars);
    }
    push_chars(&mut out, &slice_vec(&all, end, all.len()));
    proof {
        assert(all@.subrange(end as int, all@.len() as int) =~= raw@.skip(end as int));
        assert(all@.subrange(0, start as int) =~= raw@.take(start as int));
        assert(block@ =~= raw@.subrange(start as int, end as int));
        let (fmv, e2) = sp.unwrap();
        assert(e2 == end);
        assert(start == bom_len(raw@));
        assert(fmv.keys.contains(updated_key().drop_last()));
    }
    out
}

// ───────────────────────── rendering ─────────────────────────

/// Characters that make YAML read a plain scalar as something else when they
/// open it.
pub open spec fn is_indicator(c: char) -> bool {
    c == '-' || c == '?' || c == ':' || c == ',' || c == '[' || c == ']' || c == '{' || c == '}'
        || c == '#' || c == '&' || c == '*' || c == '!' || c == '|' || c == '>' || c == '\''
        || c == '"' || c == '%' || c == '@' || c == '`'
}

/// Words YAML reads as booleans or null.
pub open spec fn is_reserved_word(s: Seq<char>) -> bool {
    let l = lower(s);
    ||| l == seq!['t', 'r', 'u', 'e']
    ||| l == seq!['f', 'a', 'l', 's', 'e']
    ||| l == seq!['y', 'e', 's']
    ||| l == seq!['n', 'o']
    ||| l == seq!['o', 'n']
    ||| l == seq!['o', 'f', 'f']
    ||| l == seq!['n', 'u', 'l', 'l']
    ||| l == seq!['~']
}

pub open spec fn is_sign(c: char) -> bool {
    c == '+' || c == '-'
}

/// The mantissa of a decimal float: digits with at most one dot, and at
/// least one digit.
pub open spec fn is_mantissa(m: Seq<char>) -> bool {
    &&& forall|i: int| 0 <= i < m.len() ==> is_digit(#[trigger] m[i]) || m[i] == '.'
    &&& forall|i: int, j: int| 0 <= i < j < m.len() ==> !(#[trigger] m[i] == '.' && #[trigger] m[j]
        == '.')
    &&& exists|i: int| 0 <= i < m.len() && is_digit(#[trigger] m[i])
}

/// An exponent's digits: an optional sign, then one or more digits.
pub open spec fn is_exponent(x: Seq<char>) -> bool {
    exp_digits(x).len() > 0 && all_digits(exp_digits(x))
}

/// An exponent without its sign.
pub open spec fn exp_digits(x: Seq<char>) -> Seq<char> {
    if x.len() > 0 && is_sign(x[0]) {
        x.drop_first()
    } else {
        x
    }
}

/// The first `e` or `E` in `s`, or its length.
pub open spec fn exp_at(s: Seq<char>, i: int) -> int
    decreases s.len() - i,
{
    if i < 0 || i >= s.len() {
        s.len() as int
    } else if s[i] == 'e' || s[i] == 'E' {
        i
    } else {
        exp_at(s, i + 1)
    }
}

/// What `<f64 as FromStr>::from_str` accepts: an optional sign, then `inf`,
/// `infinity` or `nan` in any case, or a decimal number with an optional
/// exponent.
pub open spec fn is_float(s: Seq<char>) -> bool {
    let b = if s.len() > 0 && is_sign(s[0]) {
        s.drop_first()
    } else {
        s
    };
    let l = lower(b);
    let k = exp_at(b, 0);
    ||| l == seq!['i', 'n', 'f']
    ||| l == seq!['i', 'n', 'f', 'i', 'n', 'i', 't', 'y']
    ||| l == seq!['n', 'a', 'n']
    ||| (is_mantissa(b.take(k)) && (k == b.len() || is_exponent(b.skip(k + 1))))
}

/// A digit of the radix a `0x`, `0o` or `0b` prefix names.
pub open spec fn radix_digit(c: char, radix: char) -> bool {
    if radix == 'x' {
        is_digit(c) || ('a' <= c && c <= 'f') || ('A' <= c && c <= 'F')
    } else if radix == 'o' {
        '0' <= c && c <= '7'
    } else {
        c == '0' || c == '1'
    }
}

/// What YAML reads as a hexadecimal, octal or binary integer: an optional
/// sign, `0x`, `0o` or `0b`, then one or more digits of that radix.
pub open spec fn is_radix_int(v: Seq<char>) -> bool {
    radix_body(if v.len() > 0 && is_sign(v[0]) {
        v.drop_first()
    } else {
        v
    })
}

/// `0x`, `0o` or `0b`, then one or more digits of that radix.
pub open spec fn radix_body(b: Seq<char>) -> bool {
    &&& b.len() >= 3
    &&& b[0] == '0'
    &&& (b[1] == 'x' || b[1] == 'o' || b[1] == 'b')
    &&& forall|i: int| 2 <= i < b.len() ==> radix_digit(#[trigger] b[i], b[1])
}

/// When a plain scalar would not read back as the same string.
pub open spec fn needs_quoting(v: Seq<char>) -> bool {
    ||| v.len() == 0
    ||| trim(v) != v
    ||| is_indicator(v[0])
    ||| find(v, seq![':', ' ']) is Some
    ||| find(v, seq![' ', '#']) is Some
    ||| v.last() == ':'
    ||| is_reserved_word(v)
    ||| is_float(v)
    ||| is_radix_int(v)
}

/// Inside double quotes, backslashes and quotes are escaped.
pub open spec fn escape_quoted(v: Seq<char>) -> Seq<char>
    decreases v.len(),
{
    if v.len() == 0 {
        seq![]
    } else {
        escape_quoted(v.drop_last()) + if v.last() == '\\' {
            seq!['\\', '\\']
        } else if v.last() == '"' {
            seq!['\\', '"']
        } else {
            seq![v.last()]
        }
    }
}

/// A value holding ` #` (which YAML would read as the start of a comment)
/// or `: ` (which it would read as a mapping) is written double-quoted, with
/// its quotes and backslashes escaped; so a value written plain holds
/// neither.
pub proof fn lemma_scalar_quotes_comment_and_colon(v: Seq<char>, k: int)
    requires
        occurs_at(v, seq![' ', '#'], k) || occurs_at(v, seq![':', ' '], k),
    ensures
        yaml_scalar_text(v) == seq!['"'] + escape_quoted(v) + seq!['"'],
{
    lemma_find_from_facts(v, seq![' ', '#'], 0);
    lemma_find_from_facts(v, seq![':', ' '], 0);
}

/// A value written as it is, unquoted, is one YAML reads back whole: not
/// empty, without surrounding whitespace, and without ` #` or `: ` inside.
pub proof fn lemma_plain_scalar_is_safe(v: Seq<char>)
    requires
        yaml_scalar_text(v) == v,
    ensures
        v.len() > 0,
        trim(v) == v,
        v.last() != ':',
        forall|k: int| !occurs_at(v, seq![' ', '#'], k) && !occurs_at(v, seq![':', ' '], k),
        !(v[0] == '-' || v[0] == '?' || v[0] == ':' || v[0] == ',' || v[0] == '[' || v[0] == ']'
            || v[0] == '{' || v[0] == '}' || v[0] == '#' || v[0] == '&' || v[0] == '*' || v[0] == '!'
            || v[0] == '|' || v[0] == '>' || v[0] == '\'' || v[0] == '"' || v[0] == '%' || v[0] == '@'
            || v[0] == '`'),
        lower(v) != seq!['t', 'r', 'u', 'e'] && lower(v) != seq!['f', 'a', 'l', 's', 'e'],
        lower(v) != seq!['y', 'e', 's'] && lower(v) != seq!['n', 'o'],
        lower(v) != seq!['o', 'n'] && lower(v) != seq!['o', 'f', 'f'],
        lower(v) != seq!['n', 'u', 'l', 'l'] && v != seq!['~'],
        !all_digits(v),
{
    assert((seq!['"'] + escape_quoted(v) + seq!['"']).len() == escape_quoted(v).len() + 2);
    lemma_escape_quoted_len(v);
    if v == seq!['~'] {
        assert(lower(v) =~= seq!['~']);
    }
    if v.len() > 0 && all_digits(v) {
        lemma_digits_are_a_number(v);
    }
    assert forall|k: int| !occurs_at(v, seq![' ', '#'], k) && !occurs_at(v, seq![':', ' '], k) by {
        if occurs_at(v, seq![' ', '#'], k) || occurs_at(v, seq![':', ' '], k) {
            lemma_scalar_quotes_comment_and_colon(v, k);
        }
    }
}

/// Digits alone read as a number.
proof fn lemma_digits_are_a_number(v: Seq<char>)
    requires
        v.len() > 0,
        all_digits(v),
    ensures
        is_float(v),
{
    lemma_no_exponent(v, 0);
    assert(!is_sign(v[0]));
    assert(v.take(v.len() as int) =~= v);
    assert(is_digit(v[0]));
    assert forall|i: int, j: int| 0 <= i < j < v.len() implies !(#[trigger] v[i] == '.' && #[trigger] v[j]
        == '.') by {
        assert(is_digit(v[i]));
    }
}

proof fn lemma_no_exponent(v: Seq<char>, i: int)
    requires
        0 <= i,
        all_digits(v),
    ensures
        exp_at(v, i) == v.len(),
    decreases v.len() - i,
{
    if i < v.len() {
        assert(is_digit(v[i]));
        lemma_no_exponent(v, i + 1);
    }
}

proof fn lemma_escape_quoted_len(v: Seq<char>)
    ensures
        escape_quoted(v).len() >= v.len(),
    decreases v.len(),
{
    if v.len() > 0 {
        lemma_escape_quoted_len(v.drop_last());
    }
}

/// A scalar as YAML, quoted only when the plain form would be misread.
pub open spec fn yaml_scalar_text(v: Seq<char>) -> Seq<char> {
    if needs_quoting(v) {
        seq!['"'] + escape_quoted(v) + seq!['"']
    } else {
        v
    }
}

fn exp_index(s: &[char]) -> (r: usize)
    ensures
        r as int == exp_at(s@, 0),
        r <= s@.len(),
{
    let mut i: usize = 0;
    while i < s.len()
        invariant
            i <= s@.len(),
            exp_at(s@, 0) == exp_at(s@, i as int),
        decreases s@.len() - i,
    {
        if s[i] == 'e' || s[i] == 'E' {
            return i;
        }
        i += 1;
    }
    i
}

fn is_mantissa_exec(m: &[char]) -> (r: bool)
    ensures
        r == is_mantissa(m@),
{
    let mut dot: Option<usize> = None;
    let mut digit = false;
    for i in 0..m.len()
        invariant
            forall|j: int| 0 <= j < i ==> is_digit(#[trigger] m@[j]) || m@[j] == '.',
            forall|j: int, k: int| 0 <= j < k < i ==> !(#[trigger] m@[j] == '.' && #[trigger] m@[k]
                == '.'),
            dot matches Some(d) ==> d < i && m@[d as int] == '.',
            dot is None ==> forall|j: int| 0 <= j < i ==> m@[j] != '.',
            digit == exists|j: int| 0 <= j < i && is_digit(#[trigger] m@[j]),
    {
        let c = m[i];
        if c == '.' {
            if let Some(d) = dot {
                assert(!(m@[d as int] == '.' && m@[i as int] == '.') ==> false);
                return false;
            }
            dot = Some(i);
        } else if '0' <= c && c <= '9' {
            digit = true;
        } else {
            return false;
        }
    }
    digit
}

fn is_exponent_exec(x: &[char]) -> (r: bool)
    ensures
        r == is_exponent(x@),
{
    let start: usize = if x.len() > 0 && (x[0] == '+' || x[0] == '-') {
        1
    } else {
        0
    };
    let ghost d = exp_digits(x@);
    assert(d =~= x@.skip(start as int));
    if start >= x.len() {
        return false;
    }
    let mut i = start;
    while i < x.len()
        invariant
            start <= i <= x@.len(),
            d == x@.skip(start as int),
            d == exp_digits(x@),
            forall|j: int| start <= j < i ==> is_digit(#[trigger] x@[j]),
        decreases x@.len() - i,
    {
        if !('0' <= x[i] && x[i] <= '9') {
            assert(d[i - start] == x@[i as int]);
            assert(!is_digit(d[i - start]));
            assert(!all_digits(d));
            return false;
        }
        i += 1;
    }
    assert forall|j: int| 0 <= j < d.len() implies is_digit(#[trigger] d[j]) by {
        assert(d[j] == x@[start + j]);
    }
    true
}

fn eq_lit(s: &[char], lit: &[char]) -> (r: bool)
    ensures
        r == (s@ == lit@),
{
    chars_eq(s, lit)
}

fn is_float_exec(s: &[char]) -> (r: bool)
    ensures
        r == is_float(s@),
{
    let start: usize = if s.len() > 0 && (s[0] == '+' || s[0] == '-') {
        1
    } else {
        0
    };
    let b = slice_vec(s, start, s.len());
    assert(b@ =~= (if s@.len() > 0 && is_sign(s@[0]) {
        s@.drop_first()
    } else {
        s@
    }));
    let l = to_lower(&b);
    let inf: Vec<char> = vec!['i', 'n', 'f'];
    let infinity: Vec<char> = vec!['i', 'n', 'f', 'i', 'n', 'i', 't', 'y'];
    let nan: Vec<char> = vec!['n', 'a', 'n'];
    assert(inf@ =~= seq!['i', 'n', 'f']);
    assert(infinity@ =~= seq!['i', 'n', 'f', 'i', 'n', 'i', 't', 'y']);
    assert(nan@ =~= seq!['n', 'a', 'n']);
    if eq_lit(&l, &inf) || eq_lit(&l, &infinity) || eq_lit(&l, &nan) {
        return true;
    }
    let k = exp_index(&b);
    let mant = slice_vec(&b, 0, k);
    assert(mant@ =~= b@.take(k as int));
    if !is_mantissa_exec(&mant) {
        return false;
    }
    if k == b.len() {
        return true;
    }
    let x = slice_vec(&b, k + 1, b.len());
    assert(x@ =~= b@.skip(k + 1));
    is_exponent_exec(&x)
}

fn is_reserved_exec(s: &[char]) -> (r: bool)
    ensures
        r == is_reserved_word(s@),
{
    let l = to_lower(s);
    let w1: Vec<char> = vec!['t', 'r', 'u', 'e'];
    let w2: Vec<char> = vec!['f', 'a', 'l', 's', 'e'];
    let w3: Vec<char> = vec!['y', 'e', 's'];
    let w4: Vec<char> = vec!['n', 'o'];
    let w5: Vec<char> = vec!['o', 'n'];
    let w6: Vec<char> = vec!['o', 'f', 'f'];
    let w7: Vec<char> = vec!['n', 'u', 'l', 'l'];
    let w8: Vec<char> = vec!['~'];
    assert(w1@ =~= seq!['t', 'r', 'u', 'e']);
    assert(w2@ =~= seq!['f', 'a', 'l', 's', 'e']);
    assert(w3@ =~= seq!['y', 'e', 's']);
    assert(w4@ =~= seq!['n', 'o']);
    assert(w5@ =~= seq!['o', 'n']);
    assert(w6@ =~= seq!['o', 'f', 'f']);
    assert(w7@ =~= seq!['n', 'u', 'l', 'l']);
    assert(w8@ =~= seq!['~']);
    eq_lit(&l, &w1) || eq_lit(&l, &w2) || eq_lit(&l, &w3) || eq_lit(&l, &w4) || eq_lit(&l, &w5)
        || eq_lit(&l, &w6) || eq_lit(&l, &w7) || eq_lit(&l, &w8)
}

fn needs_quoting_exec(v: &[char]) -> (r: bool)
    ensures
        r == needs_quoting(v@),
{
    if v.len() == 0 {
        return true;
    }
    let (a, b) = trim_range(v, 0, v.len());
    assert(v@.subrange(0, v@.len() as int) =~= v@);
    if a != 0 || b != v.len() {
        proof {
            if trim(v@) == v@ {
                assert(trim(v@).len() == b - a);
            }
        }
        return true;
    }
    assert(trim(v@) =~= v@);
    let c = v[0];
    if c == '-' || c == '?' || c == ':' || c == ',' || c == '[' || c == ']' || c == '{' || c == '}'
        || c == '#' || c == '&' || c == '*' || c == '!' || c == '|' || c == '>' || c == '\''
        || c == '"' || c == '%' || c == '@' || c == '`' {
        return true;
    }
    let colon_space: Vec<char> = vec![':', ' '];
    let space_hash: Vec<char> = vec![' ', '#'];
    assert(colon_space@ =~= seq![':', ' ']);
    assert(space_hash@ =~= seq![' ', '#']);
    if find_chars(v, &colon_space, 0).is_some() || find_chars(v, &space_hash, 0).is_some() {
        return true;
    }
    if v[v.len() - 1] == ':' {
        return true;
    }
    is_reserved_exec(v) || is_float_exec(v) || is_radix_int_exec(v)
}

fn is_radix_int_exec(v: &[char]) -> (r: bool)
    ensures
        r == is_radix_int(v@),
{
    let start: usize = if v.len() > 0 && (v[0] == '+' || v[0] == '-') {
        1
    } else {
        0
    };
    let b = slice_vec(v, start, v.len());
    assert(b@ =~= (if v@.len() > 0 && is_sign(v@[0]) {
        v@.drop_first()
    } else {
        v@
    }));
    if b.len() < 3 || b[0] != '0' || !(b[1] == 'x' || b[1] == 'o' || b[1] == 'b') {
        return false;
    }
    let radix = b[1];
    for i in 2..b.len()
        invariant
            b@.len() >= 3,
            b@ == (if v@.len() > 0 && is_sign(v@[0]) {
                v@.drop_first()
            } else {
                v@
            }),
            b@[0] == '0',
            radix == b@[1],
            radix == 'x' || radix == 'o' || radix == 'b',
            forall|j: int| 2 <= j < i ==> radix_digit(#[trigger] b@[j], radix),
    {
        let c = b[i];
        let ok = if radix == 'x' {
            ('0' <= c && c <= '9') || ('a' <= c && c <= 'f') || ('A' <= c && c <= 'F')
        } else if radix == 'o' {
            '0' <= c && c <= '7'
        } else {
            c == '0' || c == '1'
        };
        if !ok {
            proof {
                let bb = if v@.len() > 0 && is_sign(v@[0]) {
                    v@.drop_first()
                } else {
                    v@
                };
                assert(bb == b@);
                assert(2 <= i < bb.len() && !radix_digit(bb[i as int], bb[1]));
                assert(!radix_body(bb));
            }
            return false;
        }
    }
    true
}

/// Render a scalar as YAML, quoting only when the plain form would be ambiguous.
pub fn yaml_scalar(value: &str) -> (r: String)
    ensures
        r@ == yaml_scalar_text(value@),
{
    let v = chars_of(value);
    if !needs_quoting_exec(&v) {
        return value.to_owned();
    }
    let mut out = String::new();
    push_char(&mut out, '"');
    for i in 0..v.len()
        invariant
            out@ == seq!['"'] + escape_quoted(v@.take(i as int)),
    {
        let c = v[i];
        if c == '\\' {
            push_char(&mut out, '\\');
            push_char(&mut out, '\\');
        } else if c == '"' {
            push_char(&mut out, '\\');
            push_char(&mut out, '"');
        } else {
            push_char(&mut out, c);
        }
        proof {
            assert(v@.take(i + 1).drop_last() =~= v@.take(i as int));
            assert(out@ =~= seq!['"'] + escape_quoted(v@.take(i + 1)));
        }
    }
    push_char(&mut out, '"');
    assert(v@.take(v@.len() as int) =~= v@);
    out
}

/// Items joined with `, `.
pub open spec fn join_comma(items: Seq<Seq<char>>) -> Seq<char>
    decreases items.len(),
{
    if items.len() == 0 {
        seq![]
    } else if items.len() == 1 {
        items[0]
    } else {
        join_comma(items.drop_last()) + seq![',', ' '] + items.last()
    }
}

/// A `tags:` value: an inline YAML sequence.
pub open spec fn yaml_tags_text(tags: Seq<Seq<char>>) -> Seq<char> {
    seq!['['] + join_comma(tags.map_values(|t: Seq<char>| yaml_scalar_text(t))) + seq![']']
}

/// Render a `tags:` value as an inline YAML sequence.
pub fn yaml_tags(tags: &[String]) -> (r: String)
    ensures
        r@ == yaml_tags_text(texts(tags@)),
{
    let ghost items = texts(tags@).map_values(|t: Seq<char>| yaml_scalar_text(t));
    let mut out = String::new();
    push_char(&mut out, '[');
    for i in 0..tags.len()
        invariant
            items == texts(tags@).map_values(|t: Seq<char>| yaml_scalar_text(t)),
            out@ == seq!['['] + join_comma(items.take(i as int)),
    {
        if i > 0 {
            push_char(&mut out, ',');
            push_char(&mut out, ' ');
        }
        let item = yaml_scalar(tags[i].as_str());
        push_str(&mut out, item.as_str());
        proof {
            assert(items.take(i + 1).drop_last() =~= items.take(i as int));
            assert(items[i as int] == item@);
            if i == 0 {
                assert(items.take(1) =~= seq![item@]);
            }
            assert(out@ =~= seq!['['] + join_comma(items.take(i + 1)));
        }
    }
    push_char(&mut out, ']');
    assert(items.take(tags@.len() as int) =~= items);
    out
}

/// The block every newly written note opens with.
pub open spec fn block_text(kind: Seq<char>, title: Seq<char>, tags: Seq<Seq<char>>, stamp: Seq<
    char,
>) -> Seq<char> {
    seq!['-', '-', '-', '\n', 't', 'y', 'p', 'e', ':', ' '] + kind + seq![
        '\n',
        't',
        'i',
        't',
        'l',
        'e',
        ':',
        ' ',
    ] + yaml_scalar_text(title) + seq!['\n', 't', 'a', 'g', 's', ':', ' '] + yaml_tags_text(tags)
        + seq!['\n', 'c', 'r', 'e', 'a', 't', 'e', 'd', ':', ' '] + stamp + seq![
        '\n',
        'u',
        'p',
        'd',
        'a',
        't',
        'e',
        'd',
        ':',
        ' ',
    ] + stamp + seq!['\n', '-', '-', '-', '\n']
}

/// Render the block every newly written note opens with, closing delimiter
/// included. `kind` is the note's `type`.
pub fn render_block(kind: &str, title: &str, tags: &[String], stamp: &str) -> (r: String)
    ensures
        r@ == block_text(kind@, title@, texts(tags@), stamp@),
{
    let mut out: Vec<char> = vec!['-', '-', '-', '\n', 't', 'y', 'p', 'e', ':', ' '];
    crate::text::extend_str(&mut out, kind);
    crate::text::extend_str(&mut out, "\ntitle: ");
    let t = yaml_scalar(title);
    crate::text::extend_str(&mut out, t.as_str());
    crate::text::extend_str(&mut out, "\ntags: ");
    let g = yaml_tags(tags);
    crate::text::extend_str(&mut out, g.as_str());
    crate::text::extend_str(&mut out, "\ncreated: ");
    crate::text::extend_str(&mut out, stamp);
    crate::text::extend_str(&mut out, "\nupdated: ");
    crate::text::extend_str(&mut out, stamp);
    crate::text::extend_str(&mut out, "\n---\n");
    proof {
        reveal_strlit("\ntitle: ");
        reveal_strlit("\ntags: ");
        reveal_strlit("\ncreated: ");
        reveal_strlit("\nupdated: ");
        reveal_strlit("\n---\n");
        assert(out@ =~= block_text(kind@, title@, texts(tags@), stamp@));
    }
    string_of(&out)
}

} // verus!
