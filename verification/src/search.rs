//! Full-text search across notebooks.
//!
//! There is no index. Every search reads the tree and scans it with ripgrep's
//! matcher. Walking the tree and reading files is the caller's part; this
//! module builds the matcher, scans one note's body, filters notes by their
//! metadata, and ranks what matched.

use vstd::prelude::*;

use crate::text::{newlines, texts};

use crate::frontmatter::{split_spec, Document};
use crate::note::{carries_tag, earlier, is_earlier, Note, Stamp};
use crate::text::eq_ignore_case;
use crate::text::{
    chars_of, copy_string, extend_str, name_less, name_less_exec, skip_ws_back, slice_vec,
    string_of, trim_end,
};

verus! {

/// How many matching lines to keep per note before truncating.
pub const DEFAULT_MAX_MATCHES: usize = 3;

/// A search request.
#[derive(Debug, Clone, Default)]
pub struct Query {
    pub pattern: String,
    /// Treat the pattern as a literal rather than a regular expression.
    pub fixed_string: bool,
    /// Force case sensitivity. `None` means smart case: case-insensitive unless
    /// the pattern contains an uppercase letter.
    pub case_sensitive: Option<bool>,
    pub tags: Vec<String>,
    pub notebook: Option<String>,
    pub since: Option<Stamp>,
    pub limit: Option<usize>,
    pub max_matches_per_note: Option<usize>,
}

impl Query {
    pub fn new(pattern: &str) -> (r: Query)
        ensures
            r.pattern@ == pattern@,
            !r.fixed_string,
            r.case_sensitive is None,
            r.tags@.len() == 0,
            r.notebook is None,
            r.since is None,
            r.limit is None,
            r.max_matches_per_note is None,
    {
        Query {
            pattern: pattern.to_owned(),
            fixed_string: false,
            case_sensitive: None,
            tags: Vec::new(),
            notebook: None,
            since: None,
            limit: None,
            max_matches_per_note: None,
        }
    }
}

/// One matching line within a note.
#[derive(Debug, Clone)]
pub struct MatchLine {
    pub line: u64,
    pub text: String,
}

/// A note that matched, together with its matching lines.
#[derive(Debug, Clone)]
pub struct Hit {
    pub note: Note,
    pub matches: Vec<MatchLine>,
    /// Total matching lines, before truncation to `max_matches_per_note`.
    pub match_count: usize,
    /// Whether the title itself matched — these rank first.
    pub title_match: bool,
}

// ───────────────────────── the matcher ─────────────────────────

/// A compiled `grep_regex` matcher.
#[verifier::external_type_specification]
#[verifier::external_body]
pub struct ExRegexMatcher(grep_regex::RegexMatcher);

/// Whether grep_regex accepts `pattern` under the given flags.
pub uninterp spec fn regex_compiles(pattern: Seq<char>, insensitive: bool, smart: bool, fixed: bool) -> bool;

/// `RegexMatcherBuilder::build` with case-insensitivity, smart case and the
/// literal flag set as given. Whether a pattern compiles is grep_regex's to
/// decide: named, not stated. What the matcher matches is not stated.
#[verifier::external_body]
fn build_regex(pattern: &str, insensitive: bool, smart: bool, fixed: bool) -> (r: Option<
    grep_regex::RegexMatcher,
>)
    ensures
        r is Some <==> regex_compiles(pattern@, insensitive, smart, fixed),
{
    let mut builder = grep_regex::RegexMatcherBuilder::new();
    builder.case_insensitive(insensitive);
    builder.case_smart(smart);
    builder.fixed_strings(fixed);
    builder.build(pattern).ok()
}

/// A compiled search pattern, with the pattern and flags it was built from.
/// Only `build_matcher` makes one, so the two always agree.
#[derive(Debug)]
pub struct Matcher {
    pattern: String,
    insensitive: bool,
    smart: bool,
    fixed: bool,
    regex: grep_regex::RegexMatcher,
}

impl Matcher {
    /// The pattern and the case-insensitive, smart-case and literal flags.
    pub closed spec fn params(&self) -> (Seq<char>, bool, bool, bool) {
        (self.pattern@, self.insensitive, self.smart, self.fixed)
    }
}

/// The lines a pattern, under the given flags, finds in a text: each
/// matching line with its 1-based number, in order; nothing for a search
/// error.
pub uninterp spec fn lines_found(
    params: (Seq<char>, bool, bool, bool),
    text: Seq<char>,
) -> Option<Seq<(u64, Seq<char>)>>;

/// Whether a pattern, under the given flags, finds anything in a text.
pub uninterp spec fn pattern_finds(params: (Seq<char>, bool, bool, bool), text: Seq<char>) -> bool;

/// A query's case flags: forced sensitive, forced insensitive (the first),
/// or smart (the second).
pub open spec fn case_flags(case_sensitive: Option<bool>) -> (bool, bool) {
    match case_sensitive {
        Some(true) => (false, false),
        Some(false) => (true, false),
        None => (false, true),
    }
}

/// The message for a pattern that does not compile.
pub open spec fn invalid_pattern_message(pattern: Seq<char>) -> Seq<char> {
    "invalid search pattern `"@ + pattern + "`"@
}

/// The pattern and flags a query searches with.
pub open spec fn query_params(q: Query) -> (Seq<char>, bool, bool, bool) {
    (q.pattern@, case_flags(q.case_sensitive).0, case_flags(q.case_sensitive).1, q.fixed_string)
}

/// The flags a query hands the matcher: `-s` (`Some(true)`) matches case
/// exactly, `-i` (`Some(false)`) ignores case, and no flag asks for smart
/// case; the pattern and the literal switch go through as they are.
pub proof fn lemma_case_switches(q: Query)
    ensures
        query_params(q).0 == q.pattern@,
        query_params(q).3 == q.fixed_string,
        q.case_sensitive == Some(true) ==> !query_params(q).1 && !query_params(q).2,
        q.case_sensitive == Some(false) ==> query_params(q).1 && !query_params(q).2,
        q.case_sensitive is None ==> !query_params(q).1 && query_params(q).2,
{
}

/// Build the matcher a query describes.
pub fn build_matcher(query: &Query) -> (r: Result<Matcher, String>)
    ensures
        r is Ok <==> regex_compiles(
            query.pattern@,
            case_flags(query.case_sensitive).0,
            case_flags(query.case_sensitive).1,
            query.fixed_string,
        ),
        r matches Ok(m) ==> m.params() == query_params(*query),
        r matches Ok(m) ==> m.params().0 == query.pattern@ && m.params().3 == query.fixed_string,
        r matches Ok(m) ==> match query.case_sensitive {
            Some(true) => !m.params().1 && !m.params().2,
            Some(false) => m.params().1 && !m.params().2,
            None => !m.params().1 && m.params().2,
        },
        r matches Err(e) ==> e@ == invalid_pattern_message(query.pattern@),
{
    let (insensitive, smart) = match query.case_sensitive {
        Some(true) => (false, false),
        Some(false) => (true, false),
        None => (false, true),
    };
    match build_regex(query.pattern.as_str(), insensitive, smart, query.fixed_string) {
        Some(m) => Ok(
            Matcher {
                pattern: crate::text::copy_string(&query.pattern),
                insensitive,
                smart,
                fixed: query.fixed_string,
                regex: m,
            },
        ),
        None => {
            let mut msg: Vec<char> = Vec::new();
            extend_str(&mut msg, "invalid search pattern `");
            extend_str(&mut msg, query.pattern.as_str());
            extend_str(&mut msg, "`");
            Err(string_of(&msg))
        },
    }
}

/// `Searcher::search_slice` with line numbers: every matching line of `text`
/// with its 1-based number, in order, `None` for a search error. A regular
/// expression's matches depend on the pattern, its flags and the text alone:
/// named, not stated.
#[verifier::external_body]
fn matching_lines(m: &Matcher, text: &str) -> (r: Option<Vec<(u64, String)>>)
    ensures
        match lines_found(m.params(), text@) {
            Some(f) => r matches Some(v) && found_view(v@) == f,
            None => r is None,
        },
{
    let matcher = &m.regex;
    let mut found: Vec<(u64, String)> = Vec::new();
    let mut searcher = grep_searcher::SearcherBuilder::new().line_number(true).build();
    let sink = grep_searcher::sinks::UTF8(|line, found_text| {
        found.push((line, found_text.to_string()));
        Ok(true)
    });
    match searcher.search_slice(matcher, text.as_bytes(), sink) {
        Ok(()) => Some(found),
        Err(_) => None,
    }
}

/// `Matcher::find`: whether the matcher finds anything in `text`, which
/// depends on the pattern, its flags and the text alone: named, not stated.
#[verifier::external_body]
fn matcher_finds(m: &Matcher, text: &str) -> (r: bool)
    ensures
        r == pattern_finds(m.params(), text@),
{
    grep_matcher::Matcher::find(&m.regex, text.as_bytes()).ok().flatten().is_some()
}

// ───────────────────────── one note ─────────────────────────

/// The lines a note's frontmatter takes up, so body line numbers can be
/// reported as lines of the file.
pub open spec fn body_line_offset(raw: Seq<char>) -> nat {
    match split_spec(raw) {
        Some((_, end)) => newlines(raw.take(end)),
        None => 0,
    }
}

fn count_newlines(s: &[char], to: usize) -> (r: u64)
    requires
        to <= s@.len(),
    ensures
        r == newlines(s@.take(to as int)),
{
    let mut n: u64 = 0;
    for i in 0..to
        invariant
            to <= s@.len(),
            n == newlines(s@.take(i as int)),
            n <= i,
    {
        assert(s@.take(i + 1).drop_last() =~= s@.take(i as int));
        if s[i] == '\n' {
            n += 1;
        }
    }
    n
}

/// The lines kept of a note's matches: at most `max`, each numbered as a line
/// of the file and stripped of trailing whitespace.
pub open spec fn kept_matches(found: Seq<(u64, Seq<char>)>, offset: u64, max: nat) -> Seq<(u64, Seq<char>)> {
    Seq::new(
        if found.len() < max {
            found.len()
        } else {
            max
        },
        |i: int| (found[i].0.wrapping_add(offset), trim_end(found[i].1)),
    )
}

pub open spec fn found_view(found: Seq<(u64, String)>) -> Seq<(u64, Seq<char>)> {
    found.map_values(|p: (u64, String)| (p.0, p.1@))
}

pub open spec fn matches_view(ms: Seq<MatchLine>) -> Seq<(u64, Seq<char>)> {
    ms.map_values(|m: MatchLine| (m.line, m.text@))
}

/// Whether a note passes a query's metadata filters: it carries every tag
/// asked for, and it was touched no earlier than the cutoff.
pub open spec fn passes(note: Note, query: Query) -> bool {
    &&& forall|i: int|
        0 <= i < query.tags@.len() ==> carries_tag(note.tags@, #[trigger] query.tags@[i]@)
    &&& match query.since {
        Some(cutoff) => match sort_key(note) {
            Some(ts) => !earlier(ts, cutoff),
            None => false,
        },
        None => true,
    }
}

/// A note's sort key: updated, else created.
pub open spec fn sort_key(note: Note) -> Option<Stamp> {
    match note.updated {
        Some(u) => Some(u),
        None => note.created,
    }
}

/// With a `--since` cutoff a note passes the time filter when it was last
/// touched at or after the cutoff: its `updated` time when it has one, else
/// its `created` time; a note with neither never passes. The tag filter
/// applies as well, each asked tag carried in any case.
pub proof fn lemma_since_means_last_touched(note: Note, query: Query, cutoff: Stamp)
    requires
        query.since == Some(cutoff),
    ensures
        passes(note, query) <==> {
            &&& forall|i: int| 0 <= i < query.tags@.len() ==> carries_tag(note.tags@, #[trigger] query.tags@[i]@)
            &&& match note.updated {
                Some(u) => !earlier(u, cutoff),
                None => match note.created {
                    Some(c) => !earlier(c, cutoff),
                    None => false,
                },
            }
        },
{
}

/// A note edited since the cutoff passes it, however long ago it was
/// created; and one untouched since then does not, whatever its creation.
pub proof fn lemma_edited_since_passes(note: Note, query: Query, cutoff: Stamp)
    requires
        query.since == Some(cutoff),
        query.tags@.len() == 0,
        note.updated is Some,
    ensures
        passes(note, query) == !earlier(note.updated.unwrap(), cutoff),
{
}

pub fn passes_filters(note: &Note, query: &Query) -> (r: bool)
    ensures
        r == passes(*note, *query),
{
    for i in 0..query.tags.len()
        invariant
            forall|k: int| 0 <= k < i ==> carries_tag(note.tags@, #[trigger] query.tags@[k]@),
    {
        if !note.has_tag(query.tags[i].as_str()) {
            return false;
        }
    }
    match &query.since {
        Some(cutoff) => match note.sort_key() {
            Some(ts) => !is_earlier(ts, cutoff),
            None => false,
        },
        None => true,
    }
}

/// The tag `t` is among `tags`, in any case.
pub open spec fn has_tag_text(tags: Seq<Seq<char>>, t: Seq<char>) -> bool {
    exists|j: int| 0 <= j < tags.len() && eq_ignore_case(#[trigger] tags[j], t)
}

/// `tags` holds every tag the query asks for.
pub open spec fn tags_asked(tags: Seq<Seq<char>>, query: Query) -> bool {
    forall|i: int| 0 <= i < query.tags@.len() ==> has_tag_text(tags, #[trigger] query.tags@[i]@)
}

/// The tags a note's frontmatter gives it.
pub open spec fn raw_tags(raw: Seq<char>) -> Seq<Seq<char>> {
    match split_spec(raw) {
        Some((fm, _)) => fm.tags,
        None => Seq::<Seq<char>>::empty(),
    }
}

/// A note's body: what follows its frontmatter.
pub open spec fn body_text(raw: Seq<char>) -> Seq<char> {
    match split_spec(raw) {
        Some((_, end)) => raw.skip(end),
        None => raw,
    }
}

/// The most matching lines kept of one note.
pub open spec fn kept_count(query: Query) -> nat {
    match query.max_matches_per_note {
        Some(m) => m as nat,
        None => DEFAULT_MAX_MATCHES as nat,
    }
}

proof fn lemma_tags_pass(note: Note, query: Query)
    ensures
        (forall|i: int|
            0 <= i < query.tags@.len() ==> carries_tag(note.tags@, #[trigger] query.tags@[i]@))
            <==> tags_asked(crate::text::texts(note.tags@), query),
{
    let t = crate::text::texts(note.tags@);
    assert forall|k: Seq<char>| carries_tag(note.tags@, k) <==> has_tag_text(t, k) by {
        if carries_tag(note.tags@, k) {
            let j = choose|j: int| 0 <= j < note.tags@.len() && eq_ignore_case(#[trigger] note.tags@[j]@, k);
            assert(t[j] == note.tags@[j]@);
        }
        if has_tag_text(t, k) {
            let j = choose|j: int| 0 <= j < t.len() && eq_ignore_case(#[trigger] t[j], k);
            assert(t[j] == note.tags@[j]@);
        }
    }
}

/// Scan one note: parse it, apply the query's filters, and search its body
/// (frontmatter is not searched) with `matcher`. A note counts when its body
/// or its title matches; at most `max_matches_per_note` lines are kept, three
/// by default. Whether a note was touched since a cutoff rests on how its
/// timestamps read, which is not stated.
pub fn search_note(
    raw: &str,
    path: &str,
    notebook: &str,
    rel_path: &str,
    matcher: &Matcher,
    query: &Query,
) -> (r: Result<Option<Hit>, String>)
    ensures
        r matches Ok(Some(h)) ==> {
            &&& h.note.path@ == path@
            &&& h.note.title@ == crate::note::note_title(raw@, path@)
            &&& passes(h.note, *query)
            &&& h.match_count > 0 || h.title_match
            &&& lines_found(matcher.params(), body_text(raw@)) matches Some(f)
            &&& h.match_count == f.len()
            &&& matches_view(h.matches@) == kept_matches(f, body_line_offset(raw@) as u64, kept_count(*query))
            &&& h.title_match == pattern_finds(matcher.params(), crate::note::note_title(raw@, path@))
        },
        r matches Err(e) ==> e@ == "searching "@ + path@ && lines_found(matcher.params(), body_text(raw@))
            is None,
        !tags_asked(raw_tags(raw@), *query) ==> r matches Ok(None),
        query.since is None && tags_asked(raw_tags(raw@), *query) ==> match lines_found(
            matcher.params(),
            body_text(raw@),
        ) {
            None => r is Err,
            Some(f) => (r matches Ok(Some(_))) <==> (f.len() > 0 || pattern_finds(
                matcher.params(),
                crate::note::note_title(raw@, path@),
            )),
        },
{
    let note = Note::parse(raw, path, notebook, rel_path);
    proof {
        lemma_tags_pass(note, *query);
    }
    if !passes_filters(&note, query) {
        return Ok(None);
    }
    let doc = Document::split_chars(raw);
    let all = chars_of(raw);
    let offset = match &doc.span {
        Some(sp) => count_newlines(&all, sp.end),
        None => 0,
    };
    let found = match matching_lines(matcher, doc.body.as_str()) {
        Some(f) => f,
        None => {
            let mut msg: Vec<char> = Vec::new();
            extend_str(&mut msg, "searching ");
            extend_str(&mut msg, path);
            return Err(string_of(&msg));
        },
    };
    let max = match query.max_matches_per_note {
        Some(m) => m,
        None => DEFAULT_MAX_MATCHES,
    };
    let title_match = matcher_finds(matcher, note.title.as_str());
    Ok(hit_from(note, &found, offset, max, title_match))
}

/// Assemble a hit from a note's matching lines (`found`, numbered within the
/// body), the body's line offset in the file, the number of lines to keep,
/// and whether the title matched. No hit when neither matched.
pub fn hit_from(note: Note, found: &Vec<(u64, String)>, offset: u64, max: usize, title_match: bool) -> (r: Option<Hit>)
    ensures
        match r {
            Some(h) => {
                &&& found@.len() > 0 || title_match
                &&& h.note == note
                &&& h.match_count == found@.len()
                &&& h.title_match == title_match
                &&& matches_view(h.matches@) == kept_matches(found_view(found@), offset, max as nat)
            },
            None => found@.len() == 0 && !title_match,
        },
{
    let mut matches: Vec<MatchLine> = Vec::new();
    let keep = if found.len() < max {
        found.len()
    } else {
        max
    };
    for i in 0..keep
        invariant
            keep <= found@.len(),
            keep as int == (if found@.len() < max { found@.len() as int } else { max as int }),
            matches_view(matches@) == kept_matches(found_view(found@), offset, max as nat).take(i as int),
    {
        let line = found[i].0;
        let t = chars_of(found[i].1.as_str());
        let e = skip_ws_back(&t, 0, t.len());
        proof {
            assert(t@.subrange(0, t@.len() as int) =~= t@);
            assert(trim_end(t@.subrange(0, t@.len() as int)) =~= t@.subrange(0, e as int));
        }
        let kept = string_of(&slice_vec(&t, 0, e));
        let n: u64 = line.wrapping_add(offset);
        let ghost before = matches@;
        let m = MatchLine { line: n, text: kept };
        matches.push(m);
        proof {
            let k = kept_matches(found_view(found@), offset, max as nat);
            assert(found_view(found@)[i as int] == (found@[i as int].0, found@[i as int].1@));
            assert(matches@ == before.push(m));
            assert(matches_view(matches@) =~= matches_view(before).push((n, kept@)));
            assert(k[i as int] == (n, kept@));
            assert(matches_view(matches@) =~= k.take(i + 1));
        }
    }
    assert(kept_matches(found_view(found@), offset, max as nat).take(keep as int) =~= kept_matches(found_view(found@), offset, max as nat));
    if found.len() == 0 && !title_match {
        return None;
    }
    Some(Hit { note, matches, match_count: found.len(), title_match })
}

// ───────────────────────── ranking ─────────────────────────

/// Whether sort key `a` is later than `b`; a missing key is the earliest.
pub open spec fn key_later(a: Option<Stamp>, b: Option<Stamp>) -> bool {
    match (a, b) {
        (Some(x), Some(y)) => earlier(y, x),
        (Some(_), None) => true,
        _ => false,
    }
}

/// Whether two sort keys name the same instant.
pub open spec fn key_same(a: Option<Stamp>, b: Option<Stamp>) -> bool {
    match (a, b) {
        (Some(x), Some(y)) => x.seconds == y.seconds && x.nanos == y.nanos,
        (None, None) => true,
        _ => false,
    }
}

/// Listing order: most recently touched first, then by relative path.
pub open spec fn note_before(a: Note, b: Note) -> bool {
    key_later(sort_key(a), sort_key(b)) || (key_same(sort_key(a), sort_key(b)) && name_less(
        a.rel_path@,
        b.rel_path@,
    ))
}

/// Search order: title matches first, then listing order.
pub open spec fn hit_before(a: Hit, b: Hit) -> bool {
    (a.title_match && !b.title_match) || (a.title_match == b.title_match && note_before(
        a.note,
        b.note,
    ))
}

/// Where a stable insertion puts `x` among notes already in order: before the
/// first note `x` sorts before.
pub open spec fn note_slot(r: Seq<Note>, x: Note, i: int) -> int
    decreases r.len() - i,
{
    if i < 0 || i >= r.len() {
        r.len() as int
    } else if note_before(x, r[i]) {
        i
    } else {
        note_slot(r, x, i + 1)
    }
}

/// Notes in listing order, ties kept in the order they came in.
pub open spec fn notes_in_order(s: Seq<Note>) -> Seq<Note>
    decreases s.len(),
{
    if s.len() == 0 {
        seq![]
    } else {
        let r = notes_in_order(s.drop_last());
        r.insert(note_slot(r, s.last(), 0), s.last())
    }
}

pub open spec fn hit_slot(r: Seq<Hit>, x: Hit, i: int) -> int
    decreases r.len() - i,
{
    if i < 0 || i >= r.len() {
        r.len() as int
    } else if hit_before(x, r[i]) {
        i
    } else {
        hit_slot(r, x, i + 1)
    }
}

/// Hits in search order, ties kept in the order they came in.
pub open spec fn hits_in_order(s: Seq<Hit>) -> Seq<Hit>
    decreases s.len(),
{
    if s.len() == 0 {
        seq![]
    } else {
        let r = hits_in_order(s.drop_last());
        r.insert(hit_slot(r, s.last(), 0), s.last())
    }
}

proof fn lemma_note_slot(r: Seq<Note>, x: Note, i: int)
    requires
        0 <= i <= r.len(),
    ensures
        i <= note_slot(r, x, i) <= r.len(),
    decreases r.len() - i,
{
    if i < r.len() && !note_before(x, r[i]) {
        lemma_note_slot(r, x, i + 1);
    }
}

proof fn lemma_hit_slot(r: Seq<Hit>, x: Hit, i: int)
    requires
        0 <= i <= r.len(),
    ensures
        i <= hit_slot(r, x, i) <= r.len(),
    decreases r.len() - i,
{
    if i < r.len() && !hit_before(x, r[i]) {
        lemma_hit_slot(r, x, i + 1);
    }
}

proof fn lemma_notes_in_order_len(s: Seq<Note>)
    ensures
        notes_in_order(s).len() == s.len(),
    decreases s.len(),
{
    if s.len() > 0 {
        lemma_notes_in_order_len(s.drop_last());
        lemma_note_slot(notes_in_order(s.drop_last()), s.last(), 0);
    }
}

proof fn lemma_hits_in_order_len(s: Seq<Hit>)
    ensures
        hits_in_order(s).len() == s.len(),
    decreases s.len(),
{
    if s.len() > 0 {
        lemma_hits_in_order_len(s.drop_last());
        lemma_hit_slot(hits_in_order(s.drop_last()), s.last(), 0);
    }
}

fn key_later_exec(a: Option<&Stamp>, b: Option<&Stamp>) -> (r: bool)
    ensures
        r == key_later(
            match a {
                Some(x) => Some(*x),
                None => None,
            },
            match b {
                Some(y) => Some(*y),
                None => None,
            },
        ),
{
    match (a, b) {
        (Some(x), Some(y)) => is_earlier(y, x),
        (Some(_), None) => true,
        _ => false,
    }
}

fn key_same_exec(a: Option<&Stamp>, b: Option<&Stamp>) -> (r: bool)
    ensures
        r == key_same(
            match a {
                Some(x) => Some(*x),
                None => None,
            },
            match b {
                Some(y) => Some(*y),
                None => None,
            },
        ),
{
    match (a, b) {
        (Some(x), Some(y)) => x.seconds == y.seconds && x.nanos == y.nanos,
        (None, None) => true,
        _ => false,
    }
}

fn note_before_exec(a: &Note, b: &Note) -> (r: bool)
    ensures
        r == note_before(*a, *b),
{
    let ka = a.sort_key();
    let kb = b.sort_key();
    key_later_exec(ka, kb) || (key_same_exec(ka, kb) && name_less_exec(
        &chars_of(a.rel_path.as_str()),
        &chars_of(b.rel_path.as_str()),
    ))
}

fn hit_before_exec(a: &Hit, b: &Hit) -> (r: bool)
    ensures
        r == hit_before(*a, *b),
{
    (a.title_match && !b.title_match) || (a.title_match == b.title_match && note_before_exec(
        &a.note,
        &b.note,
    ))
}

/// Put notes in listing order — most recently touched first, then by
/// relative path, ties as they came — and keep at most `limit`.
pub fn sort_notes(notes: Vec<Note>, limit: Option<usize>) -> (r: Vec<Note>)
    ensures
        r@ == match limit {
            Some(n) => if n < notes@.len() {
                notes_in_order(notes@).take(n as int)
            } else {
                notes_in_order(notes@)
            },
            None => notes_in_order(notes@),
        },
{
    let ghost all = notes@;
    let mut rest = notes;
    let mut out: Vec<Note> = Vec::new();
    let mut k: usize = 0;
    assert(all.len() == rest.len());
    assert(all.take(0) =~= Seq::<Note>::empty());
    assert(all.skip(0) =~= all);
    while rest.len() > 0
        invariant
            k + rest@.len() == all.len(),
            all.len() <= usize::MAX,
            rest@ == all.skip(k as int),
            out@ == notes_in_order(all.take(k as int)),
        decreases rest@.len(),
    {
        let x = rest.remove(0);
        assert(all.take(k + 1).drop_last() =~= all.take(k as int));
        assert(all.take(k + 1).last() == x);
        let mut p: usize = 0;
        proof {
            lemma_notes_in_order_len(all.take(k as int));
        }
        while p < out.len() && !note_before_exec(&x, &out[p])
            invariant
                p <= out@.len(),
                note_slot(out@, x, 0) == note_slot(out@, x, p as int),
            decreases out@.len() - p,
        {
            p += 1;
        }
        out.insert(p, x);
        assert(rest@ =~= all.skip(k + 1));
        k += 1;
    }
    assert(all.take(k as int) =~= all);
    match limit {
        Some(n) => {
            proof {
                lemma_notes_in_order_len(all);
            }
            if n < out.len() {
                out.truncate(n);
            }
        },
        None => {},
    }
    out
}

/// Put hits in search order — title matches first, then listing order, ties
/// as they came — and keep at most `limit`.
pub fn rank_hits(hits: Vec<Hit>, limit: Option<usize>) -> (r: Vec<Hit>)
    ensures
        r@ == match limit {
            Some(n) => if n < hits@.len() {
                hits_in_order(hits@).take(n as int)
            } else {
                hits_in_order(hits@)
            },
            None => hits_in_order(hits@),
        },
{
    let ghost all = hits@;
    let mut rest = hits;
    let mut out: Vec<Hit> = Vec::new();
    let mut k: usize = 0;
    assert(all.len() == rest.len());
    assert(all.take(0) =~= Seq::<Hit>::empty());
    assert(all.skip(0) =~= all);
    while rest.len() > 0
        invariant
            k + rest@.len() == all.len(),
            all.len() <= usize::MAX,
            rest@ == all.skip(k as int),
            out@ == hits_in_order(all.take(k as int)),
        decreases rest@.len(),
    {
        let x = rest.remove(0);
        assert(all.take(k + 1).drop_last() =~= all.take(k as int));
        assert(all.take(k + 1).last() == x);
        let mut p: usize = 0;
        proof {
            lemma_hits_in_order_len(all.take(k as int));
        }
        while p < out.len() && !hit_before_exec(&x, &out[p])
            invariant
                p <= out@.len(),
                hit_slot(out@, x, 0) == hit_slot(out@, x, p as int),
            decreases out@.len() - p,
        {
            p += 1;
        }
        out.insert(p, x);
        assert(rest@ =~= all.skip(k + 1));
        k += 1;
    }
    assert(all.take(k as int) =~= all);
    match limit {
        Some(n) => {
            proof {
                lemma_hits_in_order_len(all);
            }
            if n < out.len() {
                out.truncate(n);
            }
        },
        None => {},
    }
    out
}

/// What searching one note's text finds, as a hit: the note passes the
/// query's filters, its body or its title matches, and the matching lines
/// are those of the body, numbered as lines of the whole file and cut to
/// the number the query keeps.
pub open spec fn found_in(h: Hit, raw: Seq<char>, path: Seq<char>, query: Query) -> bool {
    &&& h.note.path@ == path
    &&& h.note.title@ == crate::note::note_title(raw, path)
    &&& passes(h.note, query)
    &&& h.match_count > 0 || h.title_match
    &&& lines_found(query_params(query), body_text(raw)) matches Some(f)
    &&& h.match_count == f.len()
    &&& matches_view(h.matches@) == kept_matches(f, body_line_offset(raw) as u64, kept_count(query))
    &&& h.title_match == pattern_finds(query_params(query), crate::note::note_title(raw, path))
}

/// Whether searching a note's text finds it: it carries the tags asked for,
/// the search runs, and its body or its title matches.
pub open spec fn finds(raw: Seq<char>, path: Seq<char>, query: Query) -> bool {
    &&& tags_asked(raw_tags(raw), query)
    &&& lines_found(query_params(query), body_text(raw)) matches Some(f)
    &&& f.len() > 0 || pattern_finds(query_params(query), crate::note::note_title(raw, path))
}

/// Every hit is what searching one of the texts finds.
#[verifier::opaque]
pub open spec fn all_found(hits: Seq<Hit>, docs: Seq<(String, String, String, String)>, query: Query) -> bool {
    forall|i: int|
        0 <= i < hits.len() ==> exists|k: int|
            0 <= k < docs.len() && found_in(#[trigger] hits[i], docs[k].0@, docs[k].1@, query)
}

/// Every one of the first `upto` texts that searching finds has a hit at
/// its path.
#[verifier::opaque]
pub open spec fn covers(hits: Seq<Hit>, docs: Seq<(String, String, String, String)>, query: Query, upto: int) -> bool {
    forall|k: int|
        0 <= k < upto && finds((#[trigger] docs[k]).0@, docs[k].1@, query) ==> exists|i: int|
            0 <= i < hits.len() && hits[i].note.path@ == docs[k].1@
}

proof fn lemma_cover_skip(hits: Seq<Hit>, docs: Seq<(String, String, String, String)>, query: Query, j: int)
    requires
        0 <= j < docs.len(),
        covers(hits, docs, query, j),
        !finds(docs[j].0@, docs[j].1@, query),
    ensures
        covers(hits, docs, query, j + 1),
{
    reveal(covers);
}

proof fn lemma_found_push(before: Seq<Hit>, h: Hit, docs: Seq<(String, String, String, String)>, query: Query, j: int)
    requires
        0 <= j < docs.len(),
        found_in(h, docs[j].0@, docs[j].1@, query),
        all_found(before, docs, query),
        query.since is None ==> covers(before, docs, query, j),
    ensures
        all_found(before.push(h), docs, query),
        query.since is None ==> covers(before.push(h), docs, query, j + 1),
{
    reveal(all_found);
    reveal(covers);
    let after = before.push(h);
    assert forall|i: int| 0 <= i < after.len() implies exists|k: int|
        0 <= k < docs.len() && found_in(#[trigger] after[i], docs[k].0@, docs[k].1@, query) by {
        if i < before.len() {
            assert(after[i] == before[i]);
        } else {
            assert(after[i] == h);
        }
    }
    if query.since is None {
        assert forall|k: int|
            0 <= k < j + 1 && finds((#[trigger] docs[k]).0@, docs[k].1@, query) implies exists|i: int|
                0 <= i < after.len() && after[i].note.path@ == docs[k].1@ by {
            if k < j {
                let i0 = choose|i: int| 0 <= i < before.len() && before[i].note.path@ == docs[k].1@;
                assert(after[i0] == before[i0]);
            } else {
                assert(after[before.len() as int] == h);
            }
        }
    }
}

/// How many of the first `upto` texts searching finds.
pub open spec fn found_count(docs: Seq<(String, String, String, String)>, query: Query, upto: int) -> nat
    decreases upto,
{
    if upto <= 0 {
        0
    } else {
        found_count(docs, query, upto - 1) + if finds(docs[upto - 1].0@, docs[upto - 1].1@, query) {
            1nat
        } else {
            0nat
        }
    }
}

/// How many hits a search gives: one per text it finds, cut to the limit.
pub open spec fn hit_count(found: nat, limit: Option<usize>) -> nat {
    match limit {
        Some(n) => if n < found {
            n as nat
        } else {
            found
        },
        None => found,
    }
}

proof fn lemma_ranked_hits(all: Seq<Hit>, ranked: Seq<Hit>, docs: Seq<(String, String, String, String)>, query: Query)
    requires
        ranked == match query.limit {
            Some(n) => if n < all.len() {
                hits_in_order(all).take(n as int)
            } else {
                hits_in_order(all)
            },
            None => hits_in_order(all),
        },
        all_found(all, docs, query),
        query.since is None ==> covers(all, docs, query, docs.len() as int),
    ensures
        all_found(ranked, docs, query),
        query.limit matches Some(n) ==> ranked.len() <= n,
        forall|i: int, j: int| 0 <= i < j < ranked.len() ==> !hit_before(#[trigger] ranked[j], #[trigger] ranked[i]),
        query.limit is None && query.since is None ==> covers(ranked, docs, query, docs.len() as int),
        ranked.len() == hit_count(all.len(), query.limit),
{
    reveal(all_found);
    reveal(covers);
    lemma_search_order(all);
    lemma_hits_in_order_len(all);
    let o = hits_in_order(all);
    o.to_multiset_ensures();
    all.to_multiset_ensures();
    assert forall|i: int| 0 <= i < ranked.len() implies exists|k: int|
        0 <= k < docs.len() && found_in(#[trigger] ranked[i], docs[k].0@, docs[k].1@, query) by {
        assert(ranked[i] == o[i]);
        assert(o.contains(o[i]));
        assert(o.to_multiset().count(o[i]) > 0);
        assert(all.to_multiset().count(o[i]) > 0);
        assert(all.contains(o[i]));
        let m = choose|m: int| 0 <= m < all.len() && all[m] == o[i];
        assert(all[m] == o[i]);
    }
    assert forall|i: int, j: int| 0 <= i < j < ranked.len() implies !hit_before(#[trigger] ranked[j], #[trigger] ranked[i]) by {
        assert(ranked[i] == o[i]);
        assert(ranked[j] == o[j]);
    }
    if query.limit is None && query.since is None {
        assert forall|k: int|
            0 <= k < docs.len() && finds((#[trigger] docs[k]).0@, docs[k].1@, query) implies exists|i: int|
                0 <= i < ranked.len() && ranked[i].note.path@ == docs[k].1@ by {
            let i0 = choose|i: int| 0 <= i < all.len() && all[i].note.path@ == docs[k].1@;
            assert(all.contains(all[i0]));
            assert(all.to_multiset().count(all[i0]) > 0);
            assert(o.to_multiset().count(all[i0]) > 0);
            assert(o.contains(all[i0]));
        }
    }
}

/// Search the notes' texts, each given as `(text, path, notebook, path in
/// the notebook)`: every hit is what searching one of them finds, the hits
/// come in search order, and there are at most `limit` of them. Without a
/// `since` cutoff there is one hit per text the search finds, cut to the
/// limit, and with no limit either, every such text has its hit. A
/// pattern that does not compile is an error, and so is a text the search
/// fails on.
pub fn search_all(docs: &Vec<(String, String, String, String)>, query: &Query) -> (r: Result<Vec<Hit>, String>)
    ensures
        !regex_compiles(
            query.pattern@,
            case_flags(query.case_sensitive).0,
            case_flags(query.case_sensitive).1,
            query.fixed_string,
        ) ==> (r matches Err(e) && e@ == invalid_pattern_message(query.pattern@)),
        regex_compiles(
            query.pattern@,
            case_flags(query.case_sensitive).0,
            case_flags(query.case_sensitive).1,
            query.fixed_string,
        ) && (forall|j: int|
            0 <= j < docs@.len() ==> lines_found(query_params(*query), body_text((#[trigger] docs@[j]).0@))
                is Some) ==> r is Ok,
        r matches Ok(hits) ==> {
            &&& all_found(hits@, docs@, *query)
            &&& query.limit matches Some(n) ==> hits@.len() <= n
            &&& forall|i: int, j: int|
                0 <= i < j < hits@.len() ==> !hit_before(#[trigger] hits@[j], #[trigger] hits@[i])
            &&& query.limit is None && query.since is None ==> covers(hits@, docs@, *query, docs@.len() as int)
            &&& query.since is None ==> hits@.len() == hit_count(
                found_count(docs@, *query, docs@.len() as int),
                query.limit,
            )
        },
{
    let matcher = match build_matcher(query) {
        Ok(m) => m,
        Err(e) => return Err(e),
    };
    let mut found: Vec<Hit> = Vec::new();
    proof {
        reveal(all_found);
        reveal(covers);
    }
    for j in 0..docs.len()
        invariant
            matcher.params() == query_params(*query),
            regex_compiles(
                query.pattern@,
                case_flags(query.case_sensitive).0,
                case_flags(query.case_sensitive).1,
                query.fixed_string,
            ),
            all_found(found@, docs@, *query),
            query.since is None ==> covers(found@, docs@, *query, j as int),
            query.since is None ==> found@.len() == found_count(docs@, *query, j as int),
    {
        let (raw, path, notebook, rel) = (&docs[j].0, &docs[j].1, &docs[j].2, &docs[j].3);
        match search_note(raw.as_str(), path.as_str(), notebook.as_str(), rel.as_str(), &matcher, query) {
            Ok(Some(h)) => {
                proof {
                    assert(found_in(h, docs@[j as int].0@, docs@[j as int].1@, *query));
                }
                let ghost before = found@;
                found.push(h);
                proof {
                    lemma_found_push(before, h, docs@, *query, j as int);
                    if query.since is None {
                        assert(finds(docs@[j as int].0@, docs@[j as int].1@, *query));
                    }
                }
            },
            Ok(None) => {
                proof {
                    if query.since is None {
                        assert(!finds(docs@[j as int].0@, docs@[j as int].1@, *query));
                        lemma_cover_skip(found@, docs@, *query, j as int);
                    }
                }
            },
            Err(e) => {
                assert(lines_found(query_params(*query), body_text(docs@[j as int].0@)) is None);
                return Err(e);
            },
        }
    }
    let ghost all = found@;
    let ranked = rank_hits(found, query.limit);
    proof {
        lemma_ranked_hits(all, ranked@, docs@, *query);
    }
    Ok(ranked)
}

/// The notes that pass a query's filters, in listing order, at most
/// `query.limit` of them. The pattern plays no part.
pub fn filter_notes(notes: Vec<Note>, query: &Query) -> (r: Vec<Note>)
    ensures
        r@ == match query.limit {
            Some(n) => if n < notes@.filter(|nt: Note| passes(nt, *query)).len() {
                notes_in_order(notes@.filter(|nt: Note| passes(nt, *query))).take(n as int)
            } else {
                notes_in_order(notes@.filter(|nt: Note| passes(nt, *query)))
            },
            None => notes_in_order(notes@.filter(|nt: Note| passes(nt, *query))),
        },
{
    let ghost all = notes@;
    let ghost pred = |nt: Note| passes(nt, *query);
    let mut rest = notes;
    let mut kept: Vec<Note> = Vec::new();
    let mut k: usize = 0;
    assert(all.len() == rest.len());
    assert(all.take(0) =~= Seq::<Note>::empty());
    assert(all.skip(0) =~= all);
    proof {
        reveal(Seq::filter);
        assert(all.take(0).filter(pred) =~= Seq::<Note>::empty());
    }
    while rest.len() > 0
        invariant
            k + rest@.len() == all.len(),
            all.len() <= usize::MAX,
            rest@ == all.skip(k as int),
            pred == (|nt: Note| passes(nt, *query)),
            kept@ == all.take(k as int).filter(pred),
        decreases rest@.len(),
    {
        let x = rest.remove(0);
        proof {
            reveal(Seq::filter);
            assert(all.take(k + 1).drop_last() =~= all.take(k as int));
            assert(all.take(k + 1).last() == x);
        }
        if passes_filters(&x, query) {
            kept.push(x);
        }
        assert(rest@ =~= all.skip(k + 1));
        k += 1;
    }
    assert(all.take(k as int) =~= all);
    sort_notes(kept, query.limit)
}

// ───────────────────────── laws of the orders ─────────────────────────

proof fn lemma_note_before_transitive(a: Note, b: Note, c: Note)
    requires
        note_before(a, b),
        note_before(b, c),
    ensures
        note_before(a, c),
{
    if key_same(sort_key(a), sort_key(b)) && key_same(sort_key(b), sort_key(c)) {
        crate::text::lemma_name_less_transitive(a.rel_path@, b.rel_path@, c.rel_path@);
    }
}

proof fn lemma_hit_before_transitive(a: Hit, b: Hit, c: Hit)
    requires
        hit_before(a, b),
        hit_before(b, c),
    ensures
        hit_before(a, c),
{
    if a.title_match == b.title_match && b.title_match == c.title_match {
        lemma_note_before_transitive(a.note, b.note, c.note);
    }
}

/// The listing order holds the notes it was given, each as often, and never
/// puts a note after one it sorts before.
pub proof fn lemma_listing_order(s: Seq<Note>)
    ensures
        notes_in_order(s).to_multiset() == s.to_multiset(),
        forall|i: int, j: int|
            0 <= i < j < notes_in_order(s).len() ==> !note_before(
                #[trigger] notes_in_order(s)[j],
                #[trigger] notes_in_order(s)[i],
            ),
    decreases s.len(),
{
    if s.len() > 0 {
        let d = s.drop_last();
        let x = s.last();
        lemma_listing_order(d);
        let r = notes_in_order(d);
        lemma_notes_in_order_len(d);
        lemma_note_slot(r, x, 0);
        let p = note_slot(r, x, 0);
        lemma_note_slot_facts(r, x, 0);
        let out = r.insert(p, x);
        assert(notes_in_order(s) == out);
        vstd::seq_lib::to_multiset_insert(r, p, x);
        assert(s =~= d.push(x));
        vstd::seq_lib::to_multiset_build(d, x);
        assert forall|i: int, j: int| 0 <= i < j < out.len() implies !note_before(
            #[trigger] out[j],
            #[trigger] out[i],
        ) by {
            if j < p {
                assert(out[i] == r[i] && out[j] == r[j]);
            } else if j == p {
                assert(out[i] == r[i]);
            } else if i == p {
                assert(out[j] == r[j - 1]);
                if note_before(r[j - 1], x) {
                    assert(note_before(x, r[p]));
                    lemma_note_before_transitive(r[j - 1], x, r[p]);
                    if j - 1 > p {
                        assert(!note_before(r[j - 1], r[p]));
                    }
                    crate::text::lemma_name_less_irreflexive(r[p].rel_path@);
                }
            } else if i < p {
                assert(out[i] == r[i] && out[j] == r[j - 1]);
                if note_before(r[j - 1], r[i]) {
                    assert(note_before(x, r[p]));
                    if j - 1 > p {
                        assert(!note_before(r[j - 1], r[p]));
                        lemma_note_before_transitive(r[j - 1], r[i], r[p]);
                    }
                }
            } else {
                assert(out[i] == r[i - 1] && out[j] == r[j - 1]);
            }
        }
    } else {
        assert(notes_in_order(s) =~= s);
    }
}

proof fn lemma_note_slot_facts(r: Seq<Note>, x: Note, i: int)
    requires
        0 <= i <= r.len(),
    ensures
        forall|k: int| i <= k < note_slot(r, x, i) ==> !note_before(x, #[trigger] r[k]),
        note_slot(r, x, i) < r.len() ==> note_before(x, r[note_slot(r, x, i)]),
    decreases r.len() - i,
{
    if i < r.len() && !note_before(x, r[i]) {
        lemma_note_slot_facts(r, x, i + 1);
    }
}

proof fn lemma_hit_slot_facts(r: Seq<Hit>, x: Hit, i: int)
    requires
        0 <= i <= r.len(),
    ensures
        forall|k: int| i <= k < hit_slot(r, x, i) ==> !hit_before(x, #[trigger] r[k]),
        hit_slot(r, x, i) < r.len() ==> hit_before(x, r[hit_slot(r, x, i)]),
    decreases r.len() - i,
{
    if i < r.len() && !hit_before(x, r[i]) {
        lemma_hit_slot_facts(r, x, i + 1);
    }
}

/// Listings put the most recently touched notes first: of two notes that
/// both carry an `updated` time, the one listed first was not updated
/// earlier; and a note with no time at all never comes before one that
/// has one.
pub proof fn lemma_listing_newest_first(s: Seq<Note>)
    ensures
        forall|i: int, j: int|
            0 <= i < j < notes_in_order(s).len() ==> {
                let a = #[trigger] notes_in_order(s)[i];
                let b = #[trigger] notes_in_order(s)[j];
                &&& (a.updated is Some && b.updated is Some) ==> !earlier(a.updated.unwrap(), b.updated.unwrap())
                &&& (a.updated is None && a.created is None) ==> (b.updated is None && b.created is None)
            },
{
    lemma_listing_order(s);
}

/// Search results put notes whose title matches before those matched in
/// their body alone, and otherwise follow listing order.
pub proof fn lemma_title_matches_first(h: Seq<Hit>)
    ensures
        forall|i: int, j: int|
            0 <= i < j < hits_in_order(h).len() && (#[trigger] hits_in_order(h)[j]).title_match
                ==> (#[trigger] hits_in_order(h)[i]).title_match,
        forall|i: int, j: int|
            0 <= i < j < hits_in_order(h).len() && (#[trigger] hits_in_order(h)[i]).title_match
                == (#[trigger] hits_in_order(h)[j]).title_match ==> !note_before(
                hits_in_order(h)[j].note,
                hits_in_order(h)[i].note,
            ),
{
    lemma_search_order(h);
}

/// The search order holds the hits it was given, each as often, and never
/// puts a hit after one it ranks before.
pub proof fn lemma_search_order(s: Seq<Hit>)
    ensures
        hits_in_order(s).to_multiset() == s.to_multiset(),
        forall|i: int, j: int|
            0 <= i < j < hits_in_order(s).len() ==> !hit_before(
                #[trigger] hits_in_order(s)[j],
                #[trigger] hits_in_order(s)[i],
            ),
    decreases s.len(),
{
    if s.len() > 0 {
        let d = s.drop_last();
        let x = s.last();
        lemma_search_order(d);
        let r = hits_in_order(d);
        lemma_hits_in_order_len(d);
        lemma_hit_slot(r, x, 0);
        let p = hit_slot(r, x, 0);
        lemma_hit_slot_facts(r, x, 0);
        let out = r.insert(p, x);
        assert(hits_in_order(s) == out);
        vstd::seq_lib::to_multiset_insert(r, p, x);
        assert(s =~= d.push(x));
        vstd::seq_lib::to_multiset_build(d, x);
        assert forall|i: int, j: int| 0 <= i < j < out.len() implies !hit_before(
            #[trigger] out[j],
            #[trigger] out[i],
        ) by {
            if j < p {
                assert(out[i] == r[i] && out[j] == r[j]);
            } else if j == p {
                assert(out[i] == r[i]);
            } else if i == p {
                assert(out[j] == r[j - 1]);
                if hit_before(r[j - 1], x) {
                    assert(hit_before(x, r[p]));
                    lemma_hit_before_transitive(r[j - 1], x, r[p]);
                    if j - 1 > p {
                        assert(!hit_before(r[j - 1], r[p]));
                    }
                    crate::text::lemma_name_less_irreflexive(r[p].note.rel_path@);
                }
            } else if i < p {
                assert(out[i] == r[i] && out[j] == r[j - 1]);
                if hit_before(r[j - 1], r[i]) {
                    assert(hit_before(x, r[p]));
                    if j - 1 > p {
                        assert(!hit_before(r[j - 1], r[p]));
                        lemma_hit_before_transitive(r[j - 1], r[i], r[p]);
                    }
                }
            } else {
                assert(out[i] == r[i - 1] && out[j] == r[j - 1]);
            }
        }
    } else {
        assert(hits_in_order(s) =~= s);
    }
}

} // verus!
