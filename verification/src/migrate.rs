//! Backfilling frontmatter onto notes that predate it.
//!
//! The guiding constraint is that migration must never rewrite prose. Existing
//! frontmatter lines are left intact and only missing keys are added, so a
//! diff over the whole knowledge base shows nothing but insertions.
//!
//! Reading notes and writing plans back is the caller's part; this module
//! decides what each note needs.

use vstd::prelude::*;

use crate::text::texts;

use crate::frontmatter::{bom_len, split_spec, yaml_scalar, yaml_scalar_text, yaml_tags, yaml_tags_text, Document};
use crate::git::FileHistory;
use crate::note::{
    filename_dated, filename_fields, from_filename, format_timestamp, note_title, stamp_facts,
    timestamp_from_filename, Note, Stamp,
};
use crate::paths::{file_stem, last_piece, last_piece_exec};
use crate::text::{
    chars_of, extend_chars, extend_str, find_char, find_char_from, lead_count,
    lemma_find_char_facts, lemma_rfind_char_facts, rfind_char, rfind_char_before, slice_vec,
    string_of,
};
use crate::workspace::Notebook;

verus! {

/// A pending change to one note.
#[derive(Debug, Clone)]
pub struct Plan {
    pub path: String,
    pub notebook: String,
    pub rel_path: String,
    /// Keys being added, with their rendered YAML values.
    pub added: Vec<(String, String)>,
    /// Whether the note is gaining a frontmatter block it did not have.
    pub creates_block: bool,
    /// The full contents to write.
    pub contents: String,
}

/// The plain values of a plan's added keys.
pub open spec fn pairs_view(v: Seq<(String, String)>) -> Seq<(Seq<char>, Seq<char>)> {
    v.map_values(|p: (String, String)| (p.0@, p.1@))
}

// ───────────────────────── tags ─────────────────────────

/// The first component of the note's directory, which becomes its initial
/// tag; a note at the notebook root has none.
pub open spec fn directory_tag(rel: Seq<char>) -> Option<Seq<char>> {
    match last_piece(rel, rel.len() as int) {
        Some((a, _)) => {
            let dir = rel.take(a);
            if dir.len() == 0 {
                None
            } else if dir[0] == '/' {
                Some(seq!['/'])
            } else {
                match find_char_from(dir, '/', 0) {
                    Some(k) => Some(dir.take(k)),
                    None => Some(dir),
                }
            }
        },
        None => None,
    }
}

pub open spec fn derived_tags(rel: Seq<char>) -> Seq<Seq<char>> {
    match directory_tag(rel) {
        Some(t) => seq![t],
        None => seq![],
    }
}

/// A note filed under a top-level directory `d` (at any depth below it) is
/// tagged `d` and nothing else; a note at the notebook root gets no tag.
pub proof fn lemma_tag_is_top_directory(d: Seq<char>, m: Seq<char>, f: Seq<char>)
    requires
        d.len() > 0,
        !d.contains('/'),
        m.len() == 0 || m.last() == '/',
        f.len() > 0,
        !f.contains('/'),
        f != seq!['.'],
    ensures
        derived_tags(d + seq!['/'] + m + f) == seq![d],
        derived_tags(f) == Seq::<Seq<char>>::empty(),
{
    let rel = d + seq!['/'] + m + f;
    let n = rel.len() as int;
    let st: int = (d.len() + 1 + m.len()) as int;
    assert(rel[st - 1] == '/') by {
        if m.len() == 0 {
            assert(rel[st - 1] == (d + seq!['/'])[d.len() as int]);
        } else {
            assert(rel[st - 1] == m.last());
        }
    }
    assert forall|j: int| st - 1 < j < n implies rel[j] != '/' by {
        assert(rel[j] == f[j - st]);
        if f[j - st] == '/' {
            assert(f.contains('/'));
        }
    }
    lemma_rfind_char_facts(rel, '/', n);
    assert(rel[n - 1] == f.last());
    assert(rel[n - 1] != '/') by {
        if f.last() == '/' {
            assert(f.contains('/'));
        }
    }
    let k = rfind_char_before(rel, '/', n).unwrap();
    assert(k == st - 1) by {
        if k < st - 1 {
        } else if k > st - 1 {
        }
    }
    assert(rel.subrange(st, n) =~= f);
    assert(last_piece(rel, n) == Some((st, n)));
    let dir = rel.take(st);
    assert(dir[0] == d[0]);
    assert(d[0] != '/') by {
        if d[0] == '/' {
            assert(d.contains('/'));
        }
    }
    assert forall|j: int| 0 <= j < d.len() implies dir[j] != '/' by {
        assert(dir[j] == d[j]);
        if d[j] == '/' {
            assert(d.contains('/'));
        }
    }
    assert(dir[d.len() as int] == '/');
    lemma_find_char_facts(dir, '/', 0);
    let q = find_char_from(dir, '/', 0).unwrap();
    assert(q == d.len()) by {
        if q < d.len() {
        } else if q > d.len() {
        }
    }
    assert(dir.take(q) =~= d);
    assert(directory_tag(rel) == Some(d));

    let fl = f.len() as int;
    assert(f[fl - 1] != '/') by {
        if f[fl - 1] == '/' {
            assert(f.contains('/'));
        }
    }
    assert forall|j: int| 0 <= j < fl implies f[j] != '/' by {
        if f[j] == '/' {
            assert(f.contains('/'));
        }
    }
    lemma_rfind_char_facts(f, '/', fl);
    assert(rfind_char_before(f, '/', fl) is None);
    assert(f.subrange(0, fl) =~= f);
    assert(last_piece(f, fl) == Some((0int, fl)));
    assert(f.take(0).len() == 0);
    assert(directory_tag(f) is None);
}

/// The note's directory becomes its initial tag; notes at the notebook root
/// get none.
pub fn derive_tags(rel_path: &str) -> (r: Vec<String>)
    ensures
        texts(r@) == derived_tags(rel_path@),
{
    let s = chars_of(rel_path);
    let mut out: Vec<String> = Vec::new();
    match last_piece_exec(&s, s.len()) {
        Some((a, _)) => {
            let dir = slice_vec(&s, 0, a);
            assert(dir@ =~= rel_path@.take(a as int));
            if dir.len() == 0 {
            } else if dir[0] == '/' {
                let mut t: Vec<char> = Vec::new();
                t.push('/');
                out.push(string_of(&t));
            } else {
                let t = match find_char(&dir, '/', 0) {
                    Some(k) => {
                        proof {
                            lemma_find_char_facts(dir@, '/', 0);
                        }
                        slice_vec(&dir, 0, k)
                    },
                    None => dir,
                };
                out.push(string_of(&t));
            }
        },
        None => {},
    }
    assert(texts(out@) =~= derived_tags(rel_path@));
    out
}

// ───────────────────────── dates ─────────────────────────

/// Creation time, preferring the filename because `nb` encoded it there and
/// git only knows when the note was committed.
pub fn derive_created(path: &str, history: Option<&FileHistory>) -> (r: Option<Stamp>)
    ensures
        history is Some ==> r is Some,
        filename_dated(path@) ==> (r matches Some(t) && stamp_facts(t) && from_filename(t.seconds as int, path@)),
        (file_stem(path@) matches Some(stem) && filename_fields(stem) is None) || file_stem(path@) is None
            ==> match history {
            Some(h) => r matches Some(t) && t.parts() == h.created.parts(),
            None => r is None,
        },
        r matches Some(t) ==> stamp_facts(t) || (history matches Some(h) && t.parts() == h.created.parts()),
{
    match timestamp_from_filename(path) {
        Some(t) => Some(t),
        None => match history {
            Some(h) => Some(h.created.duplicate()),
            None => None,
        },
    }
}

/// Update time, preferring git's last commit of the note.
pub fn derive_updated(path: &str, history: Option<&FileHistory>) -> (r: Option<Stamp>)
    ensures
        history matches Some(h) ==> (r matches Some(t) && t.parts() == h.updated.parts()),
{
    match history {
        Some(h) => Some(h.updated.duplicate()),
        None => timestamp_from_filename(path),
    }
}

// ───────────────────────── splicing ─────────────────────────

/// The number of line ends (`\n` or `\r`) closing `s`.
pub open spec fn trail_eol(s: Seq<char>) -> nat
    decreases s.len(),
{
    if s.len() > 0 && (s.last() == '\n' || s.last() == '\r') {
        1 + trail_eol(s.drop_last())
    } else {
        0
    }
}

proof fn lemma_trail_eol(s: Seq<char>)
    ensures
        trail_eol(s) <= s.len(),
    decreases s.len(),
{
    if s.len() > 0 {
        lemma_trail_eol(s.drop_last());
    }
}

/// Where the closing delimiter's line starts inside a frontmatter block.
pub open spec fn closing_at(block: Seq<char>) -> int {
    let t = block.take(block.len() - trail_eol(block));
    match rfind_char_before(t, '\n', t.len() as int) {
        Some(i) => i + 1,
        None => 0,
    }
}

proof fn lemma_closing_at(block: Seq<char>)
    ensures
        0 <= closing_at(block) <= block.len(),
{
    lemma_trail_eol(block);
    let t = block.take(block.len() - trail_eol(block));
    lemma_rfind_char_facts(t, '\n', t.len() as int);
}

fn closing_offset(block: &[char]) -> (r: usize)
    ensures
        r == closing_at(block@),
        r <= block@.len(),
{
    proof {
        lemma_trail_eol(block@);
    }
    let mut k = block.len();
    assert(block@.take(k as int) =~= block@);
    while k > 0 && (block[k - 1] == '\n' || block[k - 1] == '\r')
        invariant
            k <= block@.len(),
            trail_eol(block@) == (block@.len() - k) + trail_eol(block@.take(k as int)),
        decreases k,
    {
        assert(block@.take(k as int).drop_last() =~= block@.take(k - 1));
        k -= 1;
    }
    let t = slice_vec(block, 0, k);
    assert(t@ =~= block@.take(k as int));
    assert(trail_eol(block@.take(k as int)) == 0);
    match rfind_char(&t, '\n', k) {
        Some(i) => {
            proof {
                lemma_rfind_char_facts(t@, '\n', k as int);
            }
            i + 1
        },
        None => 0,
    }
}

/// The lines a plan adds: `key: value` for each pair.
pub open spec fn added_lines(pairs: Seq<(Seq<char>, Seq<char>)>) -> Seq<char>
    decreases pairs.len(),
{
    if pairs.len() == 0 {
        seq![]
    } else {
        added_lines(pairs.drop_last()) + pairs.last().0 + ": "@ + pairs.last().1 + "\n"@
    }
}

/// Whether the note's frontmatter already has `key`.
pub open spec fn has_key(raw: Seq<char>, key: Seq<char>) -> bool {
    match split_spec(raw) {
        Some((fm, _)) => fm.keys.contains(key),
        None => false,
    }
}

/// The keys a note is missing, with their values: the title, the tags, and
/// whichever of the two dates are known.
pub open spec fn missing_pairs(
    raw: Seq<char>,
    path: Seq<char>,
    rel: Seq<char>,
    created: Option<Seq<char>>,
    updated: Option<Seq<char>>,
) -> Seq<(Seq<char>, Seq<char>)> {
    let a = if !has_key(raw, "title"@) {
        seq![("title"@, yaml_scalar_text(note_title(raw, path)))]
    } else {
        seq![]
    };
    let b = if !has_key(raw, "tags"@) {
        a.push(("tags"@, yaml_tags_text(derived_tags(rel))))
    } else {
        a
    };
    let c = match created {
        Some(t) => if !has_key(raw, "created"@) {
            b.push(("created"@, t))
        } else {
            b
        },
        None => b,
    };
    match updated {
        Some(t) => if !has_key(raw, "updated"@) {
            c.push(("updated"@, t))
        } else {
            c
        },
        None => c,
    }
}

/// The note with `lines` added: spliced in just above the closing
/// delimiter of an existing block, or in a new block at the top.
pub open spec fn spliced(raw: Seq<char>, lines: Seq<char>) -> Seq<char> {
    match split_spec(raw) {
        Some((_, end)) => {
            let start = bom_len(raw);
            let at = start + closing_at(raw.subrange(start, end));
            raw.take(at) + lines + raw.skip(at)
        },
        None => "---\n"@ + lines + "---\n\n"@ + raw.skip(lead_count(raw, '\n') as int),
    }
}

/// `r` is the plan for the note under the given dates: nothing when no key
/// is missing, else the missing pairs spliced into the note.
pub open spec fn plan_matches(
    r: Option<Plan>,
    raw: Seq<char>,
    path: Seq<char>,
    notebook: Seq<char>,
    rel: Seq<char>,
    created: Option<Seq<char>>,
    updated: Option<Seq<char>>,
) -> bool {
    let pairs = missing_pairs(raw, path, rel, created, updated);
    match r {
        None => pairs.len() == 0,
        Some(p) => {
            &&& pairs.len() > 0
            &&& p.path@ == path
            &&& p.notebook@ == notebook
            &&& p.rel_path@ == rel
            &&& pairs_view(p.added@) == pairs
            &&& p.creates_block == (split_spec(raw) is None)
            &&& p.contents@ == spliced(raw, added_lines(pairs))
        },
    }
}

/// The text of an optional stamp.
pub open spec fn iso_of(t: Option<&Stamp>) -> Option<Seq<char>> {
    match t {
        Some(t) => Some(t.iso@),
        None => None,
    }
}

/// Plan a note's migration once its dates are known: `None` when nothing is
/// missing.
pub fn plan_with(
    raw: &str,
    path: &str,
    notebook: &Notebook,
    rel_path: &str,
    created: Option<&Stamp>,
    updated: Option<&Stamp>,
) -> (r: Option<Plan>)
    ensures
        plan_matches(r, raw@, path@, notebook.name@, rel_path@, iso_of(created), iso_of(updated)),
{
    let doc = Document::split_chars(raw);
    let note = Note::parse(raw, path, notebook.name.as_str(), rel_path);
    let ghost fm_keys = match split_spec(raw@) {
        Some((fm, _)) => fm.keys,
        None => Seq::<Seq<char>>::empty(),
    };
    let has_title = match &doc.frontmatter {
        Some(f) => f.has("title"),
        None => false,
    };
    let has_tags = match &doc.frontmatter {
        Some(f) => f.has("tags"),
        None => false,
    };
    let has_created = match &doc.frontmatter {
        Some(f) => f.has("created"),
        None => false,
    };
    let has_updated = match &doc.frontmatter {
        Some(f) => f.has("updated"),
        None => false,
    };
    let mut added: Vec<(String, String)> = Vec::new();
    if !has_title {
        added.push(("title".to_owned(), yaml_scalar(note.title.as_str())));
    }
    let ghost a = pairs_view(added@);
    if !has_tags {
        let tags = derive_tags(rel_path);
        added.push(("tags".to_owned(), yaml_tags(tags.as_slice())));
        assert(pairs_view(added@) =~= a.push(("tags"@, yaml_tags_text(derived_tags(rel_path@)))));
    }
    let ghost b = pairs_view(added@);
    match created {
        Some(t) => if !has_created {
            added.push(("created".to_owned(), format_timestamp(t)));
            assert(pairs_view(added@) =~= b.push(("created"@, t.iso@)));
        },
        None => {},
    }
    let ghost c = pairs_view(added@);
    match updated {
        Some(t) => if !has_updated {
            added.push(("updated".to_owned(), format_timestamp(t)));
            assert(pairs_view(added@) =~= c.push(("updated"@, t.iso@)));
        },
        None => {},
    }
    let ghost pairs = missing_pairs(
        raw@,
        path@,
        rel_path@,
        match created {
            Some(t) => Some(t.iso@),
            None => None,
        },
        match updated {
            Some(t) => Some(t.iso@),
            None => None,
        },
    );
    proof {
        reveal_strlit("title");
        reveal_strlit("tags");
        assert(a =~= (if !has_key(raw@, "title"@) {
            seq![("title"@, yaml_scalar_text(note_title(raw@, path@)))]
        } else {
            seq![]
        }));
    }
    assert(pairs_view(added@) =~= pairs);
    if added.len() == 0 {
        return None;
    }
    let mut lines: Vec<char> = Vec::new();
    for i in 0..added.len()
        invariant
            pairs_view(added@) == pairs,
            lines@ == added_lines(pairs.take(i as int)),
    {
        assert(pairs.take(i + 1).drop_last() =~= pairs.take(i as int));
        assert(pairs.take(i + 1).last() == pairs[i as int]);
        extend_str(&mut lines, added[i].0.as_str());
        extend_str(&mut lines, ": ");
        extend_str(&mut lines, added[i].1.as_str());
        extend_str(&mut lines, "\n");
        assert(lines@ =~= added_lines(pairs.take(i + 1)));
    }
    assert(pairs.take(added@.len() as int) =~= pairs);
    let all = chars_of(raw);
    let (contents, creates_block) = match &doc.span {
        Some(span) => {
            let start = span.start;
            let end = span.end;
            let block = slice_vec(&all, start, end);
            let at = start + closing_offset(&block);
            let mut out = slice_vec(&all, 0, at);
            extend_chars(&mut out, &lines);
            extend_chars(&mut out, &slice_vec(&all, at, all.len()));
            assert(out@ =~= spliced(raw@, lines@));
            (string_of(&out), false)
        },
        None => {
            let mut out = chars_of("---\n");
            extend_chars(&mut out, &lines);
            extend_str(&mut out, "---\n\n");
            let mut k: usize = 0;
            proof {
                crate::text::lemma_counts(raw@, '\n');
            }
            assert(all@.skip(0) =~= all@);
            while k < all.len() && all[k] == '\n'
                invariant
                    k <= all@.len(),
                    all@ == raw@,
                    lead_count(all@, '\n') == k + lead_count(all@.skip(k as int), '\n'),
                decreases all@.len() - k,
            {
                assert(all@.skip(k as int).drop_first() =~= all@.skip(k + 1));
                k += 1;
            }
            extend_chars(&mut out, &slice_vec(&all, k, all.len()));
            assert(out@ =~= spliced(raw@, lines@));
            (string_of(&out), true)
        },
    };
    Some(
        Plan {
            path: path.to_owned(),
            notebook: crate::text::copy_string(&notebook.name),
            rel_path: rel_path.to_owned(),
            added,
            creates_block,
            contents,
        },
    )
}

/// Work out what one note needs: the missing keys, dated from its filename
/// and its git history, spliced into its frontmatter. `None` when the note
/// already has every key.
///
/// Which dates the filename yields rests on jiff and the machine's time
/// zone; the plan is `plan_with` under whatever dates were derived.
pub fn plan_note(
    raw: &str,
    path: &str,
    notebook: &Notebook,
    rel_path: &str,
    history: Option<&FileHistory>,
) -> (r: Option<Plan>)
    ensures
        exists|c: Option<Seq<char>>, u: Option<Seq<char>>|
            #[trigger] plan_matches(r, raw@, path@, notebook.name@, rel_path@, c, u) && (
            history matches Some(h) ==> c is Some && u == Some(h.updated.iso@)),
{
    let created = derive_created(path, history);
    let updated = derive_updated(path, history);
    let c = match &created {
        Some(t) => Some(t),
        None => None,
    };
    let u = match &updated {
        Some(t) => Some(t),
        None => None,
    };
    let r = plan_with(raw, path, notebook, rel_path, c, u);
    assert(plan_matches(r, raw@, path@, notebook.name@, rel_path@, iso_of(c), iso_of(u)));
    r
}

/// Migrating a note that already has a frontmatter block only inserts: the
/// planned contents are the note with the added lines placed at one point,
/// every other character kept as it was.
pub proof fn lemma_migration_only_inserts(
    r: Option<Plan>,
    raw: Seq<char>,
    path: Seq<char>,
    notebook: Seq<char>,
    rel: Seq<char>,
    created: Option<Seq<char>>,
    updated: Option<Seq<char>>,
)
    requires
        plan_matches(r, raw, path, notebook, rel, created, updated),
        split_spec(raw) is Some,
        r is Some,
    ensures
        exists|at: int|
            0 <= at <= raw.len() && #[trigger] r.unwrap().contents@ == raw.take(at) + added_lines(
                pairs_view(r.unwrap().added@),
            ) + raw.skip(at),
{
    crate::frontmatter::lemma_split_bounds(raw);
    let (_, end) = split_spec(raw).unwrap();
    let start = bom_len(raw);
    lemma_closing_at(raw.subrange(start, end));
    let at = start + closing_at(raw.subrange(start, end));
    assert(0 <= at <= raw.len());
}

/// A note that already has every managed key gets no plan, whatever its
/// dates.
pub proof fn lemma_complete_note_is_left_alone(
    r: Option<Plan>,
    raw: Seq<char>,
    path: Seq<char>,
    notebook: Seq<char>,
    rel: Seq<char>,
    created: Option<Seq<char>>,
    updated: Option<Seq<char>>,
)
    requires
        plan_matches(r, raw, path, notebook, rel, created, updated),
        has_key(raw, "title"@),
        has_key(raw, "tags"@),
        has_key(raw, "created"@),
        has_key(raw, "updated"@),
    ensures
        r is None,
{
}

} // verus!
