//! Terminal formatting: ANSI styling and the listing and search layouts.

use vstd::prelude::*;

use crate::note::Note;
use crate::paths::{file_stem, file_stem_of};
use crate::search::{sort_key, Hit, MatchLine};
use crate::text::{
    chars_eq, chars_of, decimal, decimal_chars, extend_chars, extend_str, slice_vec, string_of,
};
use crate::theme::{default_theme, nb_theme, Theme};

verus! {

/// ANSI styling, switched off when stdout is not a terminal.
#[derive(Debug, Clone, Copy)]
pub struct Style {
    pub enabled: bool,
    pub theme: Theme,
}

/// Text in an SGR escape when styling is on.
pub open spec fn wrapped(enabled: bool, code: Seq<char>, text: Seq<char>) -> Seq<char> {
    if enabled {
        "\u{1b}["@ + code + seq!['m'] + text + "\u{1b}[0m"@
    } else {
        text
    }
}

/// The SGR code for a 256-colour foreground.
pub open spec fn colour_code(colour: u8) -> Seq<char> {
    "38;5;"@ + decimal(colour as nat)
}

impl Style {
    /// Styling on when writing to a terminal and `$NO_COLOR` (its value given
    /// as `no_color`) is unset or empty.
    pub fn detect(is_terminal: bool, no_color: Option<&str>, theme: Theme) -> (r: Style)
        ensures
            r.enabled == (is_terminal && !(no_color matches Some(v) && v@.len() > 0)),
            r.theme == theme,
    {
        let forced_off = match no_color {
            Some(v) => !v.is_empty(),
            None => false,
        };
        Style { enabled: is_terminal && !forced_off, theme }
    }

    /// No styling, default colours.
    pub fn plain() -> (r: Style)
        ensures
            !r.enabled,
            r.theme == nb_theme(),
    {
        Style { enabled: false, theme: default_theme() }
    }

    /// Styling with colour forced on.
    pub fn themed(theme: Theme) -> (r: Style)
        ensures
            r.enabled,
            r.theme == theme,
    {
        Style { enabled: true, theme }
    }

    fn wrap(&self, code: &[char], text: &str) -> (r: String)
        ensures
            r@ == wrapped(self.enabled, code@, text@),
    {
        if self.enabled {
            let mut out: Vec<char> = Vec::new();
            extend_str(&mut out, "\u{1b}[");
            extend_chars(&mut out, code);
            out.push('m');
            extend_str(&mut out, text);
            extend_str(&mut out, "\u{1b}[0m");
            string_of(&out)
        } else {
            text.to_owned()
        }
    }

    fn coloured(&self, colour: u8, text: &str) -> (r: String)
        ensures
            r@ == wrapped(self.enabled, colour_code(colour), text@),
    {
        let mut code = chars_of("38;5;");
        extend_chars(&mut code, &decimal_chars(colour as u64));
        self.wrap(&code, text)
    }

    /// The colour to scan for: paths and notebook names.
    pub fn path(&self, text: &str) -> (r: String)
        ensures
            r@ == wrapped(self.enabled, colour_code(self.theme.primary), text@),
    {
        self.coloured(self.theme.primary, text)
    }

    pub fn title(&self, text: &str) -> (r: String)
        ensures
            r@ == wrapped(self.enabled, "1"@, text@),
    {
        self.wrap(&chars_of("1"), text)
    }

    pub fn dim(&self, text: &str) -> (r: String)
        ensures
            r@ == wrapped(self.enabled, "2"@, text@),
    {
        self.wrap(&chars_of("2"), text)
    }

    /// Supporting detail: line numbers and other secondary marks.
    pub fn line_number(&self, text: &str) -> (r: String)
        ensures
            r@ == wrapped(self.enabled, colour_code(self.theme.secondary), text@),
    {
        self.coloured(self.theme.secondary, text)
    }
}

// ───────────────────────── widths ─────────────────────────

/// Characters that take two columns: the CJK and full-width blocks.
pub open spec fn wide(c: char) -> bool {
    let v = c as u32;
    ||| 0x1100 <= v <= 0x115F
    ||| 0x2E80 <= v <= 0xA4CF
    ||| 0xAC00 <= v <= 0xD7A3
    ||| 0xF900 <= v <= 0xFAFF
    ||| 0xFE30 <= v <= 0xFE6F
    ||| 0xFF00 <= v <= 0xFF60
    ||| 0xFFE0 <= v <= 0xFFE6
    ||| 0x20000 <= v <= 0x3FFFD
}

pub fn is_wide(c: char) -> (r: bool)
    ensures
        r == wide(c),
{
    let v = c as u32;
    (0x1100 <= v && v <= 0x115F) || (0x2E80 <= v && v <= 0xA4CF) || (0xAC00 <= v && v <= 0xD7A3)
        || (0xF900 <= v && v <= 0xFAFF) || (0xFE30 <= v && v <= 0xFE6F) || (0xFF00 <= v && v
        <= 0xFF60) || (0xFFE0 <= v && v <= 0xFFE6) || (0x20000 <= v && v <= 0x3FFFD)
}

/// Approximate display width, counting CJK characters as two columns.
pub open spec fn width(s: Seq<char>) -> nat
    decreases s.len(),
{
    if s.len() == 0 {
        0
    } else {
        width(s.drop_last()) + if wide(s.last()) {
            2nat
        } else {
            1nat
        }
    }
}

pub open spec fn char_width(c: char) -> nat {
    if wide(c) {
        2
    } else {
        1
    }
}

proof fn lemma_width_front(s: Seq<char>)
    requires
        s.len() > 0,
    ensures
        width(s) == char_width(s[0]) + width(s.drop_first()),
    decreases s.len(),
{
    if s.len() > 1 {
        lemma_width_front(s.drop_last());
        assert(s.drop_last().drop_first() =~= s.drop_first().drop_last());
        assert(s.drop_first().last() == s.last());
    } else {
        assert(s.drop_last() =~= Seq::<char>::empty());
        assert(s.drop_first() =~= Seq::<char>::empty());
    }
}

/// A character never takes more columns than UTF-8 bytes.
proof fn lemma_width_bytes(s: Seq<char>)
    ensures
        width(s) <= vstd::utf8::encode_utf8(s).len(),
    decreases s.len(),
{
    if s.len() > 0 {
        lemma_width_front(s);
        lemma_width_bytes(s.drop_first());
        vstd::utf8::char_is_scalar(s[0]);
        let v = s[0] as u32;
        assert(vstd::utf8::encode_scalar(v).len() >= char_width(s[0]));
    }
}

proof fn lemma_width_prefix(s: Seq<char>, i: int)
    requires
        0 <= i <= s.len(),
    ensures
        width(s.take(i)) <= width(s),
    decreases s.len() - i,
{
    if i < s.len() {
        lemma_width_prefix(s, i + 1);
        assert(s.take(i + 1).drop_last() =~= s.take(i));
    } else {
        assert(s.take(i) =~= s);
    }
}

/// Approximate display width, counting CJK characters as two columns.
///
/// Enough to keep columns aligned for a mix of Japanese and ASCII paths
/// without pulling in a full Unicode width table.
pub fn display_width(text: &str) -> (r: usize)
    ensures
        r == width(text@),
{
    let t = chars_of(text);
    let bytes = text.as_bytes().len();
    proof {
        lemma_width_bytes(text@);
    }
    let mut w: usize = 0;
    for i in 0..t.len()
        invariant
            t@ == text@,
            w == width(t@.take(i as int)),
            width(t@) <= bytes,
    {
        assert(t@.take(i + 1).drop_last() =~= t@.take(i as int));
        proof {
            lemma_width_prefix(t@, i + 1);
        }
        if is_wide(t[i]) {
            w += 2;
        } else {
            w += 1;
        }
    }
    assert(t@.take(t@.len() as int) =~= t@);
    w
}

/// At most `max` characters, and an ellipsis when some were cut.
pub open spec fn truncated(text: Seq<char>, max: nat) -> Seq<char> {
    if text.len() <= max {
        text
    } else {
        text.take(max as int) + seq!['…']
    }
}

pub fn truncate(text: &str, max_chars: usize) -> (r: String)
    ensures
        r@ == truncated(text@, max_chars as nat),
{
    let t = chars_of(text);
    if t.len() <= max_chars {
        return text.to_owned();
    }
    let mut kept = slice_vec(&t, 0, max_chars);
    kept.push('…');
    assert(t@.subrange(0, max_chars as int) =~= t@.take(max_chars as int));
    string_of(&kept)
}

// ───────────────────────── listings ─────────────────────────

/// `notebook/relative/path.md` — unique across the whole knowledge base.
pub open spec fn qualified(note: Note) -> Seq<char> {
    note.notebook@ + seq!['/'] + note.rel_path@
}

pub fn qualified_path(note: &Note) -> (r: String)
    ensures
        r@ == qualified(*note),
{
    let mut out = chars_of(note.notebook.as_str());
    out.push('/');
    extend_str(&mut out, note.rel_path.as_str());
    string_of(&out)
}

/// The date a listing shows: the sort key's day, or a rule when there is
/// none.
pub open spec fn date_text(note: Note) -> Seq<char> {
    match sort_key(note) {
        Some(ts) => ts.date@,
        None => Seq::new(10, |i: int| '─'),
    }
}

pub fn date(note: &Note) -> (r: String)
    ensures
        r@ == date_text(*note),
{
    match note.sort_key() {
        Some(ts) => crate::text::copy_string(&ts.date),
        None => {
            let mut out: Vec<char> = Vec::new();
            for i in 0..10
                invariant
                    out@ == Seq::new(i as nat, |k: int| '─'),
            {
                out.push('─');
                assert(out@ =~= Seq::new((i + 1) as nat, |k: int| '─'));
            }
            string_of(&out)
        },
    }
}

/// Widest path column a listing pads to.
pub const MAX_PATH_WIDTH: usize = 56;

/// The widest qualified path among the first `n` notes.
pub open spec fn widest(notes: Seq<Note>, n: int) -> nat
    decreases n,
{
    if n <= 0 {
        0
    } else {
        let w = width(qualified(notes[n - 1]));
        let rest = widest(notes, n - 1);
        if w > rest {
            w
        } else {
            rest
        }
    }
}

/// The path column's width: the widest path, at most 56.
pub open spec fn column_width(notes: Seq<Note>) -> nat {
    let w = widest(notes, notes.len() as int);
    if w > 56 {
        56
    } else {
        w
    }
}

/// One listing row: date, path padded to the column, title.
pub open spec fn note_row(note: Note, style: Style, col: nat) -> Seq<char> {
    let path = qualified(note);
    let pad: nat = if width(path) >= col {
        0
    } else {
        (col - width(path)) as nat
    };
    wrapped(style.enabled, "2"@, date_text(note)) + "  "@ + wrapped(
        style.enabled,
        colour_code(style.theme.primary),
        path,
    ) + Seq::new(pad, |i: int| ' ') + "  "@ + wrapped(style.enabled, "1"@, note.title@)
        + seq!['\n']
}

/// The rows of the first `n` notes.
pub open spec fn note_rows(notes: Seq<Note>, style: Style, col: nat, n: int) -> Seq<char>
    decreases n,
{
    if n <= 0 {
        seq![]
    } else {
        note_rows(notes, style, col, n - 1) + note_row(notes[n - 1], style, col)
    }
}

/// Render a note listing as aligned columns: date, path, title.
pub fn render_notes(notes: &[Note], style: Style) -> (r: String)
    ensures
        r@ == note_rows(notes@, style, column_width(notes@), notes@.len() as int),
{
    let mut widest_so_far: usize = 0;
    for i in 0..notes.len()
        invariant
            widest_so_far == widest(notes@, i as int),
    {
        let w = display_width(qualified_path(&notes[i]).as_str());
        if w > widest_so_far {
            widest_so_far = w;
        }
    }
    let col = if widest_so_far > MAX_PATH_WIDTH {
        MAX_PATH_WIDTH
    } else {
        widest_so_far
    };
    let mut out: Vec<char> = Vec::new();
    for i in 0..notes.len()
        invariant
            col == column_width(notes@),
            out@ == note_rows(notes@, style, col as nat, i as int),
    {
        push_note_row(&mut out, &notes[i], style, col);
    }
    string_of(&out)
}

fn push_note_row(out: &mut Vec<char>, note: &Note, style: Style, col: usize)
    ensures
        final(out)@ == old(out)@ + note_row(*note, style, col as nat),
{
    let path = qualified_path(note);
    let w = display_width(path.as_str());
    let pad = if w >= col {
        0
    } else {
        col - w
    };
    let ghost before = out@;
    extend_str(out, style.dim(date(note).as_str()).as_str());
    extend_str(out, "  ");
    extend_str(out, style.path(path.as_str()).as_str());
    let ghost mid = out@;
    for k in 0..pad
        invariant
            out@ == mid + Seq::new(k as nat, |j: int| ' '),
    {
        out.push(' ');
        assert(out@ =~= mid + Seq::new((k + 1) as nat, |j: int| ' '));
    }
    extend_str(out, "  ");
    extend_str(out, style.title(note.title.as_str()).as_str());
    out.push('\n');
    assert(out@ =~= before + note_row(*note, style, col as nat));
}

/// Whether a note's title says more than its filename.
pub open spec fn title_differs(note: Note) -> bool {
    note.title@ != match file_stem(note.rel_path@) {
        Some(s) => s,
        None => seq![],
    }
}

/// A match line as a search lists it.
pub open spec fn match_row(m: MatchLine, style: Style) -> Seq<char> {
    "  "@ + wrapped(style.enabled, colour_code(style.theme.secondary), decimal(m.line as nat))
        + ": "@ + truncated(m.text@, 200) + seq!['\n']
}

pub open spec fn match_rows(ms: Seq<MatchLine>, style: Style, n: int) -> Seq<char>
    decreases n,
{
    if n <= 0 {
        seq![]
    } else {
        match_rows(ms, style, n - 1) + match_row(ms[n - 1], style)
    }
}

/// One hit as a search lists it: the path, the title when it says more than
/// the filename, the kept lines, and how many were left out.
pub open spec fn hit_block(hit: Hit, style: Style) -> Seq<char> {
    wrapped(style.enabled, colour_code(style.theme.primary), qualified(hit.note)) + (if title_differs(
        hit.note,
    ) {
        wrapped(style.enabled, "2"@, " — "@) + wrapped(style.enabled, "1"@, hit.note.title@)
    } else {
        seq![]
    }) + seq!['\n'] + match_rows(hit.matches@, style, hit.matches@.len() as int) + if hit.match_count
        > hit.matches@.len() {
        wrapped(
            style.enabled,
            "2"@,
            "  … "@ + decimal((hit.match_count - hit.matches@.len()) as nat) + " more match(es)\n"@,
        )
    } else {
        seq![]
    }
}

pub open spec fn hit_blocks(hits: Seq<Hit>, style: Style, n: int) -> Seq<char>
    decreases n,
{
    if n <= 0 {
        seq![]
    } else {
        hit_blocks(hits, style, n - 1) + (if n > 1 {
            seq!['\n']
        } else {
            seq![]
        }) + hit_block(hits[n - 1], style)
    }
}

fn render_hit(hit: &Hit, style: Style) -> (r: Vec<char>)
    ensures
        r@ == hit_block(*hit, style),
{
    let mut out: Vec<char> = Vec::new();
    extend_str(&mut out, style.path(qualified_path(&hit.note).as_str()).as_str());
    let stem = match file_stem_of(&chars_of(hit.note.rel_path.as_str())) {
        Some(s) => s,
        None => Vec::new(),
    };
    if !chars_eq(&chars_of(hit.note.title.as_str()), &stem) {
        extend_str(&mut out, style.dim(" — ").as_str());
        extend_str(&mut out, style.title(hit.note.title.as_str()).as_str());
    }
    out.push('\n');
    let ghost start = out@;
    for k in 0..hit.matches.len()
        invariant
            out@ == start + match_rows(hit.matches@, style, k as int),
    {
        let m = &hit.matches[k];
        let ghost before = out@;
        extend_str(&mut out, "  ");
        let num = string_of(&decimal_chars(m.line));
        extend_str(&mut out, style.line_number(num.as_str()).as_str());
        extend_str(&mut out, ": ");
        extend_str(&mut out, truncate(m.text.as_str(), 200).as_str());
        out.push('\n');
        assert(out@ =~= before + match_row(*m, style));
    }
    if hit.match_count > hit.matches.len() {
        let mut more = chars_of("  … ");
        extend_chars(&mut more, &decimal_chars((hit.match_count - hit.matches.len()) as u64));
        extend_str(&mut more, " more match(es)\n");
        extend_str(&mut out, style.dim(string_of(&more).as_str()).as_str());
    }
    out
}

/// Render search results in the style of a grep tool: a header per file,
/// then its matching lines.
pub fn render_hits(hits: &[Hit], style: Style) -> (r: String)
    ensures
        r@ == hit_blocks(hits@, style, hits@.len() as int),
{
    let mut out: Vec<char> = Vec::new();
    for i in 0..hits.len()
        invariant
            out@ == hit_blocks(hits@, style, i as int),
    {
        if i > 0 {
            out.push('\n');
        }
        extend_chars(&mut out, &render_hit(&hits[i], style));
    }
    string_of(&out)
}

} // verus!
