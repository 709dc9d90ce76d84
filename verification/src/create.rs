//! Creating new notes: what a new note is called and what it contains.
//!
//! Finding a free filename and writing the file are the caller's part.

use vstd::prelude::*;

use crate::text::texts;

use crate::frontmatter::{yaml_scalar, yaml_scalar_text, yaml_tags, yaml_tags_text};
use crate::note::{filename_stem, filename_stem_text, note_title, Note, Stamp};
use crate::paths::{file_stem, file_stem_of, join, join_str};
use crate::text::{
    chars_of, copy_string, extend_chars, extend_str, find_char, lemma_find_char_facts, slice_vec,
    split_once, string_of, trim, trim_chars, trim_matching, trim_matching_exec, lead_count,
    lemma_counts, usize_to_string, decimal,
};

verus! {

/// What to create.
#[derive(Debug, Clone, Default)]
pub struct NewNote {
    /// Title of the note. Without one, the filename is a timestamp and no
    /// heading is written — matching `nb add <content>`.
    pub title: Option<String>,
    /// Directory within the notebook, e.g. `knowledge`.
    pub dir: String,
    pub tags: Vec<String>,
    /// Body text. `None` writes just the heading, if there is a title.
    pub body: Option<String>,
    /// Explicit filename, overriding the one derived from the title.
    pub filename: Option<String>,
    /// File extension for the new note.
    pub extension: Option<String>,
}

pub open spec fn opt_text(o: Option<String>) -> Option<Seq<char>> {
    match o {
        Some(s) => Some(s@),
        None => None,
    }
}

/// The tags a new note gets: the ones given, or else the top-level folder it
/// goes in, so new notes match what migration gave the existing ones.
pub open spec fn effective_tags_text(tags: Seq<Seq<char>>, dir: Seq<char>) -> Seq<Seq<char>> {
    if tags.len() > 0 {
        tags
    } else {
        let d = trim_matching(dir, '/');
        if d.len() == 0 {
            seq![]
        } else {
            seq![
                match split_once(d, '/') {
                    Some((first, _)) => first,
                    None => d,
                },
            ]
        }
    }
}

impl NewNote {
    pub fn new(title: &str, dir: &str) -> (r: NewNote)
        ensures
            opt_text(r.title) == Some(title@),
            r.dir@ == dir@,
            r.tags@.len() == 0,
            r.body is None,
            r.filename is None,
            r.extension is None,
    {
        NewNote {
            title: Some(title.to_owned()),
            dir: dir.to_owned(),
            tags: Vec::new(),
            body: None,
            filename: None,
            extension: None,
        }
    }

    /// A note with content but no title, as `nb add "some content"` creates.
    pub fn untitled(dir: &str) -> (r: NewNote)
        ensures
            r.title is None,
            r.dir@ == dir@,
            r.tags@.len() == 0,
            r.body is None,
            r.filename is None,
            r.extension is None,
    {
        NewNote {
            title: None,
            dir: dir.to_owned(),
            tags: Vec::new(),
            body: None,
            filename: None,
            extension: None,
        }
    }

    /// Tags to write: the ones given, or the directory name as a default.
    pub fn effective_tags(&self) -> (r: Vec<String>)
        ensures
            texts(r@) == effective_tags_text(texts(self.tags@), self.dir@),
    {
        if self.tags.len() > 0 {
            let mut out: Vec<String> = Vec::new();
            for i in 0..self.tags.len()
                invariant
                    texts(out@) == texts(self.tags@).take(i as int),
            {
                let t = copy_string(&self.tags[i]);
                let ghost before = out@;
                out.push(t);
                assert(texts(out@) =~= texts(before).push(t@));
                assert(texts(out@) =~= texts(self.tags@).take(i + 1));
            }
            assert(texts(self.tags@).take(self.tags@.len() as int) =~= texts(self.tags@));
            return out;
        }
        let d = trim_matching_exec(&chars_of(self.dir.as_str()), '/');
        let mut out: Vec<String> = Vec::new();
        if d.len() == 0 {
            assert(texts(out@) =~= Seq::<Seq<char>>::empty());
            return out;
        }
        let first = match find_char(&d, '/', 0) {
            Some(k) => {
                proof {
                    lemma_find_char_facts(d@, '/', 0);
                }
                slice_vec(&d, 0, k)
            },
            None => slice_vec(&d, 0, d.len()),
        };
        assert(d@.subrange(0, d@.len() as int) =~= d@);
        out.push(string_of(&first));
        assert(texts(out@) =~= effective_tags_text(texts(self.tags@), self.dir@));
        out
    }
}

/// The body a new note starts with: the given text, trimmed, when there is
/// any; else the title as a heading; else nothing.
pub open spec fn body_text(title: Option<Seq<char>>, body: Option<Seq<char>>) -> Seq<char> {
    match body {
        Some(b) if trim(b).len() > 0 => trim(b) + seq!['\n'],
        _ => match title {
            Some(t) => "# "@ + t + seq!['\n'],
            None => seq![],
        },
    }
}

pub fn body_of(spec: &NewNote) -> (r: String)
    ensures
        r@ == body_text(opt_text(spec.title), opt_text(spec.body)),
{
    match &spec.body {
        Some(b) => {
            let t = trim_chars(&chars_of(b.as_str()));
            if t.len() > 0 {
                let mut out = t;
                out.push('\n');
                return string_of(&out);
            }
        },
        None => {},
    }
    match &spec.title {
        Some(t) => {
            let mut out = chars_of("# ");
            extend_str(&mut out, t.as_str());
            out.push('\n');
            string_of(&out)
        },
        None => String::new(),
    }
}

/// The filename stem: an explicit filename's stem, else the title's, else
/// the time.
pub open spec fn stem_text(spec: NewNote, now: Stamp) -> Seq<char> {
    match spec.filename {
        Some(f) => match file_stem(f@) {
            Some(s) => s,
            None => f@,
        },
        None => match spec.title {
            Some(t) => if trim(t@).len() > 0 {
                filename_stem_text(trim(t@))
            } else {
                now.compact@
            },
            None => now.compact@,
        },
    }
}

pub fn stem(spec: &NewNote, now: &Stamp) -> (r: String)
    ensures
        r@ == stem_text(*spec, *now),
{
    match &spec.filename {
        Some(f) => match file_stem_of(&chars_of(f.as_str())) {
            Some(s) => string_of(&s),
            None => copy_string(f),
        },
        None => match &spec.title {
            Some(t) => {
                let tt = string_of(&trim_chars(&chars_of(t.as_str())));
                if !tt.as_str().is_empty() {
                    filename_stem(tt.as_str())
                } else {
                    copy_string(&now.compact)
                }
            },
            None => copy_string(&now.compact),
        },
    }
}

/// The file extension: the one asked for without leading dots, else `md`.
pub open spec fn extension_text(extension: Option<Seq<char>>) -> Seq<char> {
    match extension {
        Some(e) => e.skip(lead_count(e, '.') as int),
        None => "md"@,
    }
}

/// The `n`th name tried for a new note in `dir`: `<stem>.<ext>` first, then
/// `<stem>-2.<ext>`, `<stem>-3.<ext>`, …
pub open spec fn candidate_text(dir: Seq<char>, stem: Seq<char>, extension: Option<Seq<char>>, n: nat) -> Seq<char> {
    join(
        dir,
        if n <= 1 {
            stem + seq!['.'] + extension_text(extension)
        } else {
            stem + seq!['-'] + decimal(n) + seq!['.'] + extension_text(extension)
        },
    )
}

pub fn candidate(dir: &str, stem: &str, extension: Option<&str>, n: usize) -> (r: String)
    ensures
        r@ == candidate_text(dir@, stem@, match extension {
            Some(e) => Some(e@),
            None => None,
        }, n as nat),
{
    let ext: Vec<char> = match extension {
        Some(e) => {
            let c = chars_of(e);
            proof {
                lemma_counts(c@, '.');
            }
            let mut k: usize = 0;
            assert(c@.skip(0) =~= c@);
            while k < c.len() && c[k] == '.'
                invariant
                    k <= c@.len(),
                    lead_count(c@, '.') == k + lead_count(c@.skip(k as int), '.'),
                decreases c@.len() - k,
            {
                assert(c@.skip(k as int).drop_first() =~= c@.skip(k + 1));
                k += 1;
            }
            let r = slice_vec(&c, k, c.len());
            assert(r@ =~= c@.skip(k as int));
            r
        },
        None => chars_of("md"),
    };
    let mut name = chars_of(stem);
    if n > 1 {
        name.push('-');
        extend_str(&mut name, usize_to_string(n).as_str());
    }
    name.push('.');
    extend_chars(&mut name, &ext);
    join_str(dir, string_of(&name).as_str())
}

/// The directory a note goes in: its folder, without surrounding slashes,
/// under the notebook's root.
pub fn target_dir(root: &str, spec: &NewNote) -> (r: String)
    ensures
        r@ == join(root@, trim_matching(spec.dir@, '/')),
{
    let d = trim_matching_exec(&chars_of(spec.dir.as_str()), '/');
    join_str(root, string_of(&d).as_str())
}

/// The file a new note is written as: frontmatter with its title, tags and
/// timestamps, a blank line, then its body.
pub open spec fn contents_text(spec: NewNote, path: Seq<char>, stamp: Seq<char>) -> Seq<char> {
    let body = body_text(opt_text(spec.title), opt_text(spec.body));
    let title = match spec.title {
        Some(t) => t@,
        None => note_title(body, path),
    };
    "---\ntitle: "@ + yaml_scalar_text(title) + "\ntags: "@ + yaml_tags_text(
        effective_tags_text(texts(spec.tags@), spec.dir@),
    ) + "\ncreated: "@ + stamp + "\nupdated: "@ + stamp + "\n---\n\n"@ + body
}

/// The text of a new note at `path`, stamped with `stamp`. An untitled note
/// still gets a frontmatter title, derived the way reading it would.
pub fn contents(spec: &NewNote, path: &str, stamp: &str) -> (r: String)
    ensures
        r@ == contents_text(*spec, path@, stamp@),
{
    let body = body_of(spec);
    let title = match &spec.title {
        Some(t) => copy_string(t),
        None => Note::parse(body.as_str(), path, "", path).title,
    };
    let tags = spec.effective_tags();
    let mut out = chars_of("---\ntitle: ");
    extend_str(&mut out, yaml_scalar(title.as_str()).as_str());
    extend_str(&mut out, "\ntags: ");
    extend_str(&mut out, yaml_tags(&tags).as_str());
    extend_str(&mut out, "\ncreated: ");
    extend_str(&mut out, stamp);
    extend_str(&mut out, "\nupdated: ");
    extend_str(&mut out, stamp);
    extend_str(&mut out, "\n---\n\n");
    extend_str(&mut out, body.as_str());
    string_of(&out)
}

} // verus!
