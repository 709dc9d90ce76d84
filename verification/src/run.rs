//! What the commands decide once their inputs are read: how arguments are
//! interpreted, which notebook or path they land on, and what they report.
//!
//! Reading files, asking for confirmation and writing to the terminal are
//! the caller's part.

use vstd::prelude::*;

use crate::text::texts;

use crate::output::{colour_code, wrapped, Style};
use crate::cli::ShowOpts;
use crate::frontmatter::{block_text, render_block};
use crate::todo::{
    checkbox_of, is_done, render as render_todo, set_done, task_of, todo_text, with_done,
};
use crate::note::{format_timestamp, Note, Stamp};
use crate::paths::{extension, extension_of, file_name, file_name_of, join, join_str};
use crate::selector::{describe, describe_text, find_by_name, join_all, picked_by_name, sel_folder, sel_notebook, sel_target, target_matches, title_pairs, Resolved, Selector, Target};
use crate::text::{
    chars_of, contains, decimal, extend_chars, extend_str, find_char, find_char_from,
    lemma_find_char_facts, lemma_name_less_total, lemma_name_less_transitive, name_less,
    name_less_exec, parse_unsigned, str_eq, string_of, usize_to_string, join_with,
    lemma_join_with_push,
};
use crate::settings::{
    env_choice, known, known_names, lookup, name_resolved, normalised, resolve_name, validated,
    Settings,
};
use crate::index::{id_for, name_at, Index};
use crate::items::{list_dir, names_in_order};
use crate::workspace::{relative_text, visible, Notebook, Workspace};
use vstd::seq_lib::{to_multiset_build, to_multiset_insert};

verus! {

// ───────────────────────── add ─────────────────────────

/// Whether a bare argument to `add` names a path rather than content.
///
/// A slash settles it — `knowledge/` is a folder and `knowledge/noext` a file
/// in it, regardless of extension. Only without one does a file extension
/// count, anything else being the note's content.
pub open spec fn path_like(value: Seq<char>) -> bool {
    value.contains('/') || extension(value) is Some
}

pub fn looks_like_path(value: &str) -> (r: bool)
    ensures
        r == path_like(value@),
{
    let v = chars_of(value);
    let slash = find_char(&v, '/', 0);
    proof {
        lemma_find_char_facts(v@, '/', 0);
        if v@.contains('/') {
            let k = choose|k: int| 0 <= k < v@.len() && v@[k] == '/';
            assert(v@[k] == '/');
        }
    }
    slash.is_some() || extension_of(&v).is_some()
}

/// The positional arguments of `add`, read as (filename, content): a first
/// argument that looks like a path is the filename and the second the
/// content; otherwise the first is the content.
pub fn add_positionals(target: Option<&str>, content_arg: Option<&str>) -> (r: (
    Option<String>,
    Option<String>,
))
    ensures
        match target {
            Some(t) => if path_like(t@) {
                (r.0 matches Some(f) && f@ == t@) && match content_arg {
                    Some(c) => r.1 matches Some(x) && x@ == c@,
                    None => r.1 is None,
                }
            } else {
                r.0 is None && (r.1 matches Some(x) && x@ == t@)
            },
            None => r.0 is None && match content_arg {
                Some(c) => r.1 matches Some(x) && x@ == c@,
                None => r.1 is None,
            },
        },
{
    let content = match content_arg {
        Some(c) => Some(c.to_owned()),
        None => None,
    };
    match target {
        Some(t) => if looks_like_path(t) {
            (Some(t.to_owned()), content)
        } else {
            (None, Some(t.to_owned()))
        },
        None => (None, content),
    }
}

/// A target as a path component: an id written back as its number.
pub open spec fn target_piece(t: Seq<char>) -> Seq<char> {
    match parse_unsigned(t, usize::MAX as nat) {
        Some(n) => decimal(n),
        None => t,
    }
}

/// The folder a `--folder` value names: all of it, the last segment
/// included, with or without a trailing slash.
pub open spec fn whole_folder(value: Seq<char>) -> Seq<char> {
    match sel_target(value) {
        Some(t) => join(join_all(sel_folder(value)), target_piece(t)),
        None => join_all(sel_folder(value)),
    }
}

/// Interpret a `--folder` value as a folder path.
///
/// The whole value is the folder: `--folder knowledge` and `--folder
/// knowledge/` mean the same thing. A plain selector would read the last
/// segment as the item being named instead.
pub fn folder_path_of(value: &str) -> (r: String)
    ensures
        r@ == whole_folder(value@),
{
    let parsed = Selector::parse(value);
    let path = parsed.folder_path();
    assert(join_all(texts(parsed.folder@)) == join_all(sel_folder(value@)));
    match &parsed.target {
        Some(Target::Name(name)) => join_str(path.as_str(), name.as_str()),
        Some(Target::Id(id)) => {
            let n = usize_to_string(*id);
            join_str(path.as_str(), n.as_str())
        },
        None => path,
    }
}

/// The name a target gives a new note: the target text when it is not a
/// number.
pub open spec fn named_target(a: Seq<char>) -> Option<Seq<char>> {
    match sel_target(a) {
        Some(t) => if parse_unsigned(t, usize::MAX as nat) is None {
            Some(t)
        } else {
            None
        },
        None => None,
    }
}

/// Where `add` puts a new note and what it calls it, from the filename
/// argument (a selector such as `home:knowledge/idea.md`), `--folder` and
/// `--filename`: the notebook the argument names, else the one the folder
/// names; the whole `--folder` value as the folder, else the argument's
/// folders; `--filename`, else the argument's target when it is a name.
pub fn add_target(filename_arg: Option<&str>, folder: Option<&str>, filename: Option<&str>) -> (r: (
    Option<String>,
    String,
    Option<String>,
))
    ensures
        crate::selector::opt_text(r.0) == match filename_arg {
            Some(a) if sel_notebook(a@) is Some => sel_notebook(a@),
            _ => match folder {
                Some(f) => sel_notebook(f@),
                None => None,
            },
        },
        r.1@ == match folder {
            Some(f) => whole_folder(f@),
            None => match filename_arg {
                Some(a) => join_all(sel_folder(a@)),
                None => seq![],
            },
        },
        crate::selector::opt_text(r.2) == match filename {
            Some(f) => Some(f@),
            None => match filename_arg {
                Some(a) => named_target(a@),
                None => None,
            },
        },
{
    let scoped = match filename_arg {
        Some(a) => Some(Selector::parse(a)),
        None => None,
    };
    let from_arg: Option<String> = match &scoped {
        Some(s) => match &s.notebook {
            Some(n) => Some(n.clone()),
            None => None,
        },
        None => None,
    };
    let notebook = match from_arg {
        Some(n) => Some(n),
        None => match folder {
            Some(f) => Selector::parse(f).notebook,
            None => None,
        },
    };
    let dir = match folder {
        Some(f) => folder_path_of(f),
        None => match &scoped {
            Some(s) => s.folder_path(),
            None => String::new(),
        },
    };
    let name = match filename {
        Some(f) => Some(f.to_owned()),
        None => match &scoped {
            Some(s) => match &s.target {
                Some(Target::Name(n)) => Some(n.clone()),
                _ => None,
            },
            None => None,
        },
    };
    (notebook, dir, name)
}

// ───────────────────────── show / peek / open ─────────────────────────

/// How `show`, `peek`, and `open` differ once the item is resolved.
#[derive(Debug, Clone, Copy, PartialEq, Eq)]
pub enum ViewMode {
    /// `show` — render in the terminal; a folder is listed.
    Show,
    /// `peek` — render in the terminal; a folder opens the picker.
    Peek,
    /// `open` — hand to the system; a folder opens the picker.
    Open,
}

impl ViewMode {
    /// Whether a folder should be browsed rather than listed.
    pub fn browses_folders(self) -> (r: bool)
        ensures
            r == !(self is Show),
    {
        match self {
            ViewMode::Show => false,
            _ => true,
        }
    }
}

/// One field `show` prints in place of the item.
#[derive(Debug, Clone, Copy, PartialEq, Eq)]
pub enum Field {
    Path,
    Filename,
    Id,
    RelativePath,
    Kind,
    Title,
    InfoLine,
    Added,
    Updated,
}

impl Field {
    /// The fields read from the note itself.
    pub open spec fn reads_note(self) -> bool {
        self is Title || self is InfoLine || self is Added || self is Updated
    }

    /// Whether printing this field needs the note read.
    pub fn needs_note(self) -> (r: bool)
        ensures
            r == self.reads_note(),
    {
        match self {
            Field::Title | Field::InfoLine | Field::Added | Field::Updated => true,
            _ => false,
        }
    }
}

/// The field the `--path` / `--title` / … flags ask for, the first set one
/// in this order winning.
pub open spec fn field_wanted(o: ShowOpts) -> Option<Field> {
    if o.path {
        Some(Field::Path)
    } else if o.filename {
        Some(Field::Filename)
    } else if o.id {
        Some(Field::Id)
    } else if o.relative_path {
        Some(Field::RelativePath)
    } else if o.kind {
        Some(Field::Kind)
    } else if o.title {
        Some(Field::Title)
    } else if o.info_line {
        Some(Field::InfoLine)
    } else if o.added {
        Some(Field::Added)
    } else if o.updated {
        Some(Field::Updated)
    } else {
        None
    }
}

/// Which single field `show` prints instead of the item, if any.
pub fn metadata_field(opts: &ShowOpts) -> (r: Option<Field>)
    ensures
        r == field_wanted(*opts),
{
    if opts.path {
        Some(Field::Path)
    } else if opts.filename {
        Some(Field::Filename)
    } else if opts.id {
        Some(Field::Id)
    } else if opts.relative_path {
        Some(Field::RelativePath)
    } else if opts.kind {
        Some(Field::Kind)
    } else if opts.title {
        Some(Field::Title)
    } else if opts.info_line {
        Some(Field::InfoLine)
    } else if opts.added {
        Some(Field::Added)
    } else if opts.updated {
        Some(Field::Updated)
    } else {
        None
    }
}

/// A path's final component, or nothing.
pub open spec fn file_name_text(path: Seq<char>) -> Seq<char> {
    match file_name(path) {
        Some(n) => n,
        None => seq![],
    }
}

/// A timestamp as frontmatter stores it, or nothing.
pub open spec fn stamp_text(s: Option<Stamp>) -> Seq<char> {
    match s {
        Some(t) => t.iso@,
        None => seq![],
    }
}

/// The text of a field for the item at `path`, with its index id, the
/// notebook holding it and, for the fields that read it, the note.
pub open spec fn field_text(
    f: Field,
    path: Seq<char>,
    id: Option<usize>,
    owner: Option<Notebook>,
    note: Note,
) -> Result<Seq<char>, Seq<char>> {
    match f {
        Field::Path => Ok(path),
        Field::Filename => Ok(file_name_text(path)),
        Field::Id => Ok(
            match id {
                Some(i) => decimal(i as nat),
                None => seq![],
            },
        ),
        Field::RelativePath => match owner {
            Some(nb) => Ok(relative_text(nb.root@, path)),
            None => Err("item is outside the knowledge base"@),
        },
        Field::Kind => Ok(
            match extension(path) {
                Some(e) => e,
                None => seq![],
            },
        ),
        Field::Title => Ok(note.title@),
        Field::InfoLine => Ok(
            "["@ + match id {
                Some(i) => decimal(i as nat),
                None => "-"@,
            } + "] "@ + file_name_text(path) + " · "@ + note.title@,
        ),
        Field::Added => Ok(stamp_text(note.created)),
        Field::Updated => Ok(stamp_text(note.updated)),
    }
}

fn optional_text(s: Option<String>) -> (r: String)
    ensures
        r@ == match s {
            Some(t) => t@,
            None => seq![],
        },
{
    match s {
        Some(t) => t,
        None => String::new(),
    }
}

/// The text `show` prints for one field. `owner` is the notebook holding
/// the item; `note` is read only for the fields that need it, and any note
/// serves for the others.
pub fn field_value(
    f: Field,
    path: &str,
    id: Option<usize>,
    owner: Option<&Notebook>,
    note: &Note,
) -> (r: Result<String, String>)
    ensures
        match field_text(f, path@, id, match owner {
            Some(nb) => Some(*nb),
            None => None,
        }, *note) {
            Ok(t) => r matches Ok(s) && s@ == t,
            Err(m) => r matches Err(e) && e@ == m,
        },
{
    match f {
        Field::Path => Ok(path.to_owned()),
        Field::Filename => Ok(optional_text(file_name_of(path))),
        Field::Id => match id {
            Some(i) => Ok(usize_to_string(i)),
            None => Ok(String::new()),
        },
        Field::RelativePath => match owner {
            Some(nb) => Ok(nb.relative(path)),
            None => Err("item is outside the knowledge base".to_owned()),
        },
        Field::Kind => match extension_of(&chars_of(path)) {
            Some(e) => Ok(string_of(&e)),
            None => Ok(String::new()),
        },
        Field::Title => Ok(crate::text::copy_string(&note.title)),
        Field::InfoLine => {
            let mut out: Vec<char> = Vec::new();
            extend_str(&mut out, "[");
            match id {
                Some(i) => extend_str(&mut out, usize_to_string(i).as_str()),
                None => extend_str(&mut out, "-"),
            }
            extend_str(&mut out, "] ");
            let name = optional_text(file_name_of(path));
            extend_str(&mut out, name.as_str());
            extend_str(&mut out, " · ");
            extend_str(&mut out, note.title.as_str());
            Ok(string_of(&out))
        },
        Field::Added => match &note.created {
            Some(s) => Ok(format_timestamp(s)),
            None => Ok(String::new()),
        },
        Field::Updated => match &note.updated {
            Some(s) => Ok(format_timestamp(s)),
            None => Ok(String::new()),
        },
    }
}

// ───────────────────────── tags ─────────────────────────

/// All the tags of a list of notes, in order.
pub open spec fn flatten(s: Seq<Seq<Seq<char>>>) -> Seq<Seq<char>>
    decreases s.len(),
{
    if s.len() == 0 {
        seq![]
    } else {
        flatten(s.drop_last()) + s.last()
    }
}

/// How many times `x` occurs in `s`.
pub open spec fn occurrences(s: Seq<Seq<char>>, x: Seq<char>) -> nat
    decreases s.len(),
{
    if s.len() == 0 {
        0
    } else {
        occurrences(s.drop_last(), x) + if s.last() == x {
            1nat
        } else {
            0nat
        }
    }
}

proof fn lemma_occurrences_bound(s: Seq<Seq<char>>, x: Seq<char>)
    ensures
        occurrences(s, x) <= s.len(),
    decreases s.len(),
{
    if s.len() > 0 {
        lemma_occurrences_bound(s.drop_last(), x);
    }
}

/// Tag rows in report order: more uses first, then by name.
pub open spec fn row_before(a: (Seq<char>, nat), b: (Seq<char>, nat)) -> bool {
    a.1 > b.1 || (a.1 == b.1 && name_less(a.0, b.0))
}

/// Some row is for tag `x`.
pub open spec fn has_row(rows: Seq<(Seq<char>, nat)>, x: Seq<char>) -> bool {
    exists|k: int| 0 <= k < rows.len() && #[trigger] rows[k].0 == x
}

/// The rows of a tag report over `all`: one per distinct tag, with its count,
/// in report order.
pub open spec fn tag_report(all: Seq<Seq<char>>, rows: Seq<(Seq<char>, nat)>) -> bool {
    &&& forall|k: int| 0 <= k < rows.len() ==> #[trigger] rows[k].1 == occurrences(all, rows[k].0)
    &&& forall|k: int| 0 <= k < rows.len() ==> all.contains(#[trigger] rows[k].0)
    &&& forall|i: int| 0 <= i < all.len() ==> #[trigger] has_row(rows, all[i])
    &&& forall|a: int, b: int| 0 <= a < b < rows.len() ==> row_before(#[trigger] rows[a], #[trigger] rows[b])
}

pub open spec fn rows_view(v: Seq<(String, usize)>) -> Seq<(Seq<char>, nat)> {
    v.map_values(|p: (String, usize)| (p.0@, p.1 as nat))
}

/// The tags of `notes` counted: each distinct tag with how often it is used,
/// the most used first and ties by name; and how many notes have no tag.
pub fn tags(notes: &Vec<Vec<String>>) -> (r: (Vec<(String, usize)>, usize))
    ensures
        tag_report(flatten(notes@.map_values(|t: Vec<String>| texts(t@))), rows_view(r.0@)),
        r.1 == notes@.filter(|t: Vec<String>| t.len() == 0).len(),
{
    let ghost nv = notes@.map_values(|t: Vec<String>| texts(t@));
    // Every tag in order, and the untagged count.
    let mut all: Vec<String> = Vec::new();
    let mut untagged: usize = 0;
    assert(notes@.take(0).filter(|t: Vec<String>| t.len() == 0) =~= Seq::<Vec<String>>::empty());
    for i in 0..notes.len()
        invariant
            nv == notes@.map_values(|t: Vec<String>| texts(t@)),
            texts(all@) == flatten(nv.take(i as int)),
            untagged == notes@.take(i as int).filter(|t: Vec<String>| t.len() == 0).len(),
            untagged <= i,
    {
        proof {
            reveal(Seq::filter);
            assert(nv.take(i + 1).drop_last() =~= nv.take(i as int));
            assert(notes@.take(i + 1).drop_last() =~= notes@.take(i as int));
        }
        if notes[i].len() == 0 {
            untagged += 1;
        }
        let ghost start = texts(all@);
        let row = &notes[i];
        for j in 0..row.len()
            invariant
                texts(all@) == start + texts(row@).take(j as int),
                row == notes@[i as int],
        {
            let t = crate::text::copy_string(&row[j]);
            let ghost before = all@;
            all.push(t);
            assert(texts(all@) =~= texts(before).push(t@));
            assert(texts(all@) =~= start + texts(row@).take(j + 1));
        }
        assert(texts(notes@[i as int]@).take(notes@[i as int]@.len() as int) =~= texts(
            notes@[i as int]@,
        ));
        assert(nv.take(i + 1).last() == texts(notes@[i as int]@));
    }
    assert(nv.take(notes@.len() as int) =~= nv);
    assert(notes@.take(notes@.len() as int) =~= notes@);
    let ghost flat = texts(all@);
    // Count each distinct tag, in order of first use.
    let mut counted: Vec<(String, usize)> = Vec::new();
    for i in 0..all.len()
        invariant
            flat == texts(all@),
            forall|k: int|
                0 <= k < counted@.len() ==> #[trigger] rows_view(counted@)[k].1 == occurrences(
                    flat.take(i as int),
                    rows_view(counted@)[k].0,
                ),
            forall|k: int|
                0 <= k < counted@.len() ==> flat.take(i as int).contains(
                    #[trigger] rows_view(counted@)[k].0,
                ),
            forall|a: int, b: int|
                0 <= a < b < counted@.len() ==> rows_view(counted@)[a].0 != rows_view(
                    counted@,
                )[b].0,
            forall|x: int| 0 <= x < i ==> #[trigger] has_row(rows_view(counted@), flat[x]),
    {
        let ghost p = flat.take(i as int);
        let ghost q = flat.take(i + 1);
        let ghost before = rows_view(counted@);
        assert(q.drop_last() =~= p);
        assert(q.last() == flat[i as int]);
        proof {
            lemma_occurrences_bound(q, flat[i as int]);
        }
        let name = &all[i];
        let mut found: Option<usize> = None;
        let mut k: usize = 0;
        while k < counted.len()
            invariant_except_break
                found is None,
            invariant
                k <= counted@.len(),
                forall|j: int| 0 <= j < k ==> rows_view(counted@)[j].0 != name@,
            ensures
                match found {
                    Some(f) => f < counted@.len() && rows_view(counted@)[f as int].0 == name@,
                    None => forall|j: int| 0 <= j < counted@.len() ==> rows_view(counted@)[j].0 != name@,
                },
            decreases counted@.len() - k,
        {
            if str_eq(counted[k].0.as_str(), name.as_str()) {
                found = Some(k);
                break;
            }
            k += 1;
        }
        assert(flat[i as int] == name@);
        match found {
            Some(f) => {
                let c = counted[f].1;
                assert(before[f as int] == (counted@[f as int].0@, counted@[f as int].1 as nat));
                assert(before[f as int].1 == occurrences(p, before[f as int].0));
                assert(c == occurrences(p, name@));
                assert(occurrences(q, name@) == c + 1);
                let entry = (crate::text::copy_string(&counted[f].0), c + 1);
                counted.set(f, entry);
                proof {
                    let after = rows_view(counted@);
                    assert(after =~= before.update(f as int, (name@, (c + 1) as nat)));
                    assert forall|m: int| 0 <= m < after.len() implies #[trigger] after[m].1
                        == occurrences(q, after[m].0) by {
                        if m != f {
                            assert(after[m] == before[m]);
                        }
                    }
                    assert forall|m: int| 0 <= m < after.len() implies q.contains(
                        #[trigger] after[m].0,
                    ) by {
                        if m != f {
                            assert(after[m] == before[m]);
                            let w = choose|w: int| 0 <= w < p.len() && p[w] == before[m].0;
                            assert(q[w] == p[w]);
                        } else {
                            assert(q[i as int] == name@);
                        }
                    }
                    assert forall|a: int, b: int| 0 <= a < b < after.len() implies after[a].0
                        != after[b].0 by {
                        assert(after[a].0 == before[a].0 && after[b].0 == before[b].0);
                    }
                    assert forall|x: int| 0 <= x < i + 1 implies #[trigger] has_row(after, flat[x]) by {
                        if x == i {
                            assert(after[f as int].0 == flat[x]);
                        } else {
                            assert(has_row(before, flat[x]));
                            let m = choose|m: int| 0 <= m < before.len() && #[trigger] before[m].0 == flat[x];
                            assert(after[m].0 == before[m].0);
                        }
                    }
                }
            },
            None => {
                proof {
                    assert forall|m: int| 0 <= m < before.len() implies occurrences(q, before[m].0)
                        == occurrences(p, before[m].0) by {
                        assert(before[m].0 != name@);
                    }
                }
                let entry = (crate::text::copy_string(name), 1usize);
                counted.push(entry);
                proof {
                    let after = rows_view(counted@);
                    assert(after =~= before.push((name@, 1nat)));
                    assert(occurrences(q, name@) == occurrences(p, name@) + 1);
                    assert(occurrences(p, name@) == 0) by {
                        lemma_not_in_no_occurrences(p, name@);
                        if p.contains(name@) {
                            let x = choose|x: int| 0 <= x < p.len() && p[x] == name@;
                            assert(flat[x] == name@);
                            assert(has_row(before, flat[x]));
                            let m = choose|m: int| 0 <= m < before.len() && #[trigger] before[m].0 == flat[x];
                        }
                    }
                    assert forall|m: int| 0 <= m < after.len() implies #[trigger] after[m].1
                        == occurrences(q, after[m].0) by {
                        if m < before.len() {
                            assert(after[m] == before[m]);
                        }
                    }
                    assert forall|m: int| 0 <= m < after.len() implies q.contains(
                        #[trigger] after[m].0,
                    ) by {
                        if m < before.len() {
                            assert(after[m] == before[m]);
                            let w = choose|w: int| 0 <= w < p.len() && p[w] == before[m].0;
                            assert(q[w] == p[w]);
                        } else {
                            assert(q[i as int] == name@);
                        }
                    }
                    assert forall|a: int, b: int| 0 <= a < b < after.len() implies after[a].0
                        != after[b].0 by {
                        if b < before.len() {
                            assert(after[a].0 == before[a].0 && after[b].0 == before[b].0);
                        } else {
                            assert(after[a].0 == before[a].0);
                        }
                    }
                    assert forall|x: int| 0 <= x < i + 1 implies #[trigger] has_row(after, flat[x]) by {
                        if x == i {
                            assert(after[before.len() as int].0 == flat[x]);
                        } else {
                            assert(has_row(before, flat[x]));
                            let m = choose|m: int| 0 <= m < before.len() && #[trigger] before[m].0 == flat[x];
                            assert(after[m].0 == before[m].0);
                        }
                    }
                }
            },
        }
    }
    assert(flat.take(all@.len() as int) =~= flat);
    // Order the rows: insertion keeps the report order.
    let mut rows: Vec<(String, usize)> = Vec::new();
    let ghost cv = rows_view(counted@);
    assert(rows_view(rows@) =~= Seq::<(Seq<char>, nat)>::empty());
    assert(cv.take(0) =~= Seq::<(Seq<char>, nat)>::empty());
    for i in 0..counted.len()
        invariant
            cv == rows_view(counted@),
            rows_view(rows@).to_multiset() == cv.take(i as int).to_multiset(),
            forall|a: int, b: int|
                0 <= a < b < rows@.len() ==> row_before(
                    #[trigger] rows_view(rows@)[a],
                    #[trigger] rows_view(rows@)[b],
                ),
            forall|a: int, b: int| 0 <= a < b < cv.len() ==> cv[a].0 != cv[b].0,
    {
        let ghost before = rows_view(rows@);
        let nc = chars_of(counted[i].0.as_str());
        let c = counted[i].1;
        let ghost item = cv[i as int];
        assert(item == (nc@, c as nat));
        let mut pos: usize = 0;
        while pos < rows.len() && (rows[pos].1 > c || (rows[pos].1 == c && name_less_exec(
            &chars_of(rows[pos].0.as_str()),
            &nc,
        )))
            invariant
                pos <= rows@.len(),
                before == rows_view(rows@),
                item == (nc@, c as nat),
                forall|k: int| 0 <= k < pos ==> row_before(#[trigger] before[k], item),
            decreases rows@.len() - pos,
        {
            pos += 1;
        }
        proof {
            lemma_take_multiset_contains(cv, i as int);
        }
        let entry = (crate::text::copy_string(&counted[i].0), c);
        rows.insert(pos, entry);
        proof {
            let after = rows_view(rows@);
            assert(after =~= before.insert(pos as int, item));
            to_multiset_insert(before, pos as int, item);
            assert(cv.take(i + 1) =~= cv.take(i as int).push(item));
            to_multiset_build(cv.take(i as int), item);
            // The new row differs in name from every row already placed.
            assert forall|k: int| 0 <= k < before.len() implies before[k].0 != item.0 by {
                lemma_multiset_member(before, cv.take(i as int), k);
                let w = choose|w: int| 0 <= w < i && cv[w] == before[k];
                assert(cv[w].0 != cv[i as int].0);
            }
            if pos < before.len() {
                assert(!row_before(before[pos as int], item));
                lemma_row_total(before[pos as int], item);
            }
            assert forall|a: int, b: int| 0 <= a < b < after.len() implies row_before(
                #[trigger] after[a],
                #[trigger] after[b],
            ) by {
                if b < pos {
                    assert(after[a] == before[a] && after[b] == before[b]);
                } else if b == pos {
                    assert(after[a] == before[a]);
                } else if a == pos {
                    assert(after[b] == before[b - 1]);
                    if b - 1 > pos {
                        lemma_row_transitive(item, before[pos as int], before[b - 1]);
                    }
                } else if a < pos {
                    assert(after[a] == before[a] && after[b] == before[b - 1]);
                    if b - 1 > pos {
                        lemma_row_transitive(item, before[pos as int], before[b - 1]);
                    }
                    lemma_row_transitive(before[a], item, before[b - 1]);
                } else {
                    assert(after[a] == before[a - 1] && after[b] == before[b - 1]);
                }
            }
        }
    }
    proof {
        assert(cv.take(cv.len() as int) =~= cv);
        let rv = rows_view(rows@);
        assert forall|k: int| 0 <= k < rv.len() implies #[trigger] rv[k].1 == occurrences(
            flat,
            rv[k].0,
        ) by {
            lemma_multiset_member(rv, cv, k);
        }
        assert forall|k: int| 0 <= k < rv.len() implies flat.contains(#[trigger] rv[k].0) by {
            lemma_multiset_member(rv, cv, k);
        }
        assert forall|x: int| 0 <= x < flat.len() implies #[trigger] has_row(rv, flat[x]) by {
            assert(has_row(cv, flat[x]));
            let m = choose|m: int| 0 <= m < cv.len() && #[trigger] cv[m].0 == flat[x];
            lemma_multiset_member(cv, rv, m);
            let w = choose|w: int| 0 <= w < rv.len() && rv[w] == cv[m];
            assert(rv[w].0 == flat[x]);
        }
        assert(flat == flatten(nv));
        assert(tag_report(flat, rv));
    }
    (rows, untagged)
}

proof fn lemma_not_in_no_occurrences(s: Seq<Seq<char>>, x: Seq<char>)
    ensures
        !s.contains(x) ==> occurrences(s, x) == 0,
    decreases s.len(),
{
    if s.len() > 0 {
        if !s.contains(x) {
            assert forall|j: int| 0 <= j < s.drop_last().len() implies s.drop_last()[j] != x by {
                assert(s.drop_last()[j] == s[j]);
            }
            assert(s.last() == s[s.len() - 1]);
        }
        lemma_not_in_no_occurrences(s.drop_last(), x);
    }
}

proof fn lemma_take_multiset_contains(s: Seq<(Seq<char>, nat)>, i: int)
    requires
        0 <= i <= s.len(),
    ensures
        s.take(i).len() == i,
{
}

/// An element of one sequence is an element of any sequence with the same
/// multiset.
proof fn lemma_multiset_member(a: Seq<(Seq<char>, nat)>, b: Seq<(Seq<char>, nat)>, k: int)
    requires
        a.to_multiset() == b.to_multiset(),
        0 <= k < a.len(),
    ensures
        exists|w: int| 0 <= w < b.len() && b[w] == a[k],
{
    a.to_multiset_ensures();
    b.to_multiset_ensures();
    assert(a.contains(a[k]));
    assert(a.to_multiset().count(a[k]) > 0);
    assert(b.to_multiset().count(a[k]) > 0);
    assert(b.contains(a[k]));
}

proof fn lemma_row_total(a: (Seq<char>, nat), b: (Seq<char>, nat))
    requires
        a.0 != b.0,
        !row_before(a, b),
    ensures
        row_before(b, a),
{
    lemma_name_less_total(a.0, b.0);
}

proof fn lemma_row_transitive(a: (Seq<char>, nat), b: (Seq<char>, nat), c: (Seq<char>, nat))
    requires
        row_before(a, b),
        row_before(b, c),
    ensures
        row_before(a, c),
{
    if a.1 == b.1 && b.1 == c.1 {
        lemma_name_less_transitive(a.0, b.0, c.0);
    }
}

// ───────────────────────── context ─────────────────────────

/// Whether `path` lies under `root`, comparing whole components (for paths
/// written without doubled or trailing separators).
pub open spec fn under(path: Seq<char>, root: Seq<char>) -> bool {
    &&& root.is_prefix_of(path)
    &&& (root.len() == 0 || path.len() == root.len() || root.last() == '/' || path[root.len() as int]
        == '/')
}

fn under_exec(path: &[char], root: &[char]) -> (r: bool)
    ensures
        r == under(path@, root@),
{
    if !crate::text::starts_with(path, root) {
        return false;
    }
    root.len() == 0 || path.len() == root.len() || root[root.len() - 1] == '/' || path[root.len()]
        == '/'
}

/// The first notebook in `v` whose root holds `path`.
pub open spec fn owning(v: Seq<Notebook>, path: Seq<char>, i: int) -> Option<int>
    decreases v.len() - i,
{
    if i < 0 || i >= v.len() {
        None
    } else if under(path, v[i].root@) {
        Some(i)
    } else {
        owning(v, path, i + 1)
    }
}

/// Everything a command needs to decide with: the workspace and how output
/// is styled.
pub struct Ctx {
    pub workspace: Workspace,
    pub style: Style,
}

impl Ctx {
    /// The notebook a command names (the workspace's first of that name), or
    /// the default one when it names none.
    pub fn notebook(
        &self,
        name: Option<&str>,
        env_notebook: Option<&str>,
        current: Option<&str>,
        work_machine: bool,
    ) -> (r: Result<&Notebook, String>)
        ensures
            name matches Some(n) ==> match r {
                Ok(nb) => exists|i: int|
                    0 <= i < self.workspace.notebooks@.len() && self.workspace.notebooks@[i] == *nb
                        && nb.name@ == n@ && forall|j: int|
                        0 <= j < i ==> (#[trigger] self.workspace.notebooks@[j]).name@ != n@,
                Err(e) => e@ == "unknown notebook `"@ + n@ + "`"@ && forall|i: int|
                    0 <= i < self.workspace.notebooks@.len() ==> (
                    #[trigger] self.workspace.notebooks@[i]).name@ != n@,
            },
            name is None ==> self.workspace.defaults_to(env_notebook, current, work_machine, r),
    {
        match name {
            Some(n) => match self.workspace.notebook(n) {
                Some(nb) => Ok(nb),
                None => {
                    let mut m = chars_of("unknown notebook `");
                    extend_str(&mut m, n);
                    extend_str(&mut m, "`");
                    Err(string_of(&m))
                },
            },
            None => self.workspace.default_notebook(env_notebook, current, work_machine),
        }
    }

    /// The notebook a path lies in.
    pub fn notebook_of(&self, path: &str) -> (r: Option<&Notebook>)
        ensures
            match owning(self.workspace.notebooks@, path@, 0) {
                Some(k) => r == Some(&self.workspace.notebooks@[k]),
                None => r is None,
            },
    {
        let p = chars_of(path);
        let mut i: usize = 0;
        while i < self.workspace.notebooks.len()
            invariant
                i <= self.workspace.notebooks@.len(),
                p@ == path@,
                owning(self.workspace.notebooks@, path@, 0) == owning(
                    self.workspace.notebooks@,
                    path@,
                    i as int,
                ),
            decreases self.workspace.notebooks@.len() - i,
        {
            let nb = &self.workspace.notebooks[i];
            if under_exec(&p, &chars_of(nb.root.as_str())) {
                return Some(nb);
            }
            i += 1;
        }
        None
    }
}

// ───────────────────────── move / copy ─────────────────────────

/// The file name of a path, or nothing.
pub open spec fn name_or_empty(path: Seq<char>) -> Seq<char> {
    match crate::paths::file_name(path) {
        Some(n) => n,
        None => seq![],
    }
}

fn file_name_or_empty(path: &str) -> (r: String)
    ensures
        r@ == name_or_empty(path@),
{
    match crate::paths::file_name_of(path) {
        Some(n) => n,
        None => String::new(),
    }
}

/// Where a destination selector puts `source` inside the notebook at `root`:
/// the candidate path, and, when the selector ends in a name, the path inside
/// that name should it turn out to be a directory.
pub fn destination_path(root: &str, destination: &Selector, source: &str) -> (r: (
    String,
    Option<String>,
))
    ensures
        ({
            let dir = join(root@, join_all(texts(destination.folder@)));
            match destination.target {
                Some(Target::Name(n)) => r.0@ == join(dir, n@) && (r.1 matches Some(i) && i@
                    == join(join(dir, n@), name_or_empty(source@))),
                Some(Target::Id(id)) => r.0@ == join(dir, decimal(id as nat)) && r.1 is None,
                None => r.0@ == join(dir, name_or_empty(source@)) && r.1 is None,
            }
        }),
{
    let fp = destination.folder_path();
    let dir = join_str(root, fp.as_str());
    match &destination.target {
        Some(Target::Name(n)) => {
            let candidate = join_str(dir.as_str(), n.as_str());
            let inside = join_str(candidate.as_str(), file_name_or_empty(source).as_str());
            (candidate, Some(inside))
        },
        Some(Target::Id(id)) => {
            let n = usize_to_string(*id);
            (join_str(dir.as_str(), n.as_str()), None)
        },
        None => (join_str(dir.as_str(), file_name_or_empty(source).as_str()), None),
    }
}

// ───────────────────────── status / history ─────────────────────────

/// What git says of a notebook's repository.
pub struct RepoState {
    pub branch: Option<String>,
    pub remote: Option<String>,
    pub dirty: bool,
}

pub open spec fn or_text(o: Option<String>, fallback: Seq<char>) -> Seq<char> {
    match o {
        Some(s) => s@,
        None => fallback,
    }
}

/// The status report of one notebook.
pub open spec fn status_text(style: Style, name: Seq<char>, root: Seq<char>, repo: Option<RepoState>, items: nat) -> Seq<char> {
    let head = wrapped(style.enabled, crate::output::colour_code(style.theme.primary), name) + "\n"@;
    match repo {
        None => head + "  not a git repository\n"@,
        Some(g) => head + "  path    "@ + root + "\n  branch  "@ + or_text(g.branch, "-"@)
            + "\n  remote  "@ + or_text(g.remote, "(none)"@) + "\n  status  "@ + (if g.dirty {
            "uncommitted changes"@
        } else {
            "clean"@
        }) + "\n  items   "@ + decimal(items) + "\n"@,
    }
}

/// Report a notebook's state: its name, and for a repository its path,
/// branch, remote, whether anything is uncommitted, and its item count.
pub fn status(style: &Style, name: &str, root: &str, repo: &Option<RepoState>, items: usize) -> (r: String)
    ensures
        r@ == status_text(*style, name@, root@, *repo, items as nat),
{
    let mut out = chars_of(style.path(name).as_str());
    extend_str(&mut out, "\n");
    match repo {
        None => {
            extend_str(&mut out, "  not a git repository\n");
        },
        Some(g) => {
            extend_str(&mut out, "  path    ");
            extend_str(&mut out, root);
            extend_str(&mut out, "\n  branch  ");
            match &g.branch {
                Some(b) => extend_str(&mut out, b.as_str()),
                None => extend_str(&mut out, "-"),
            }
            extend_str(&mut out, "\n  remote  ");
            match &g.remote {
                Some(u) => extend_str(&mut out, u.as_str()),
                None => extend_str(&mut out, "(none)"),
            }
            extend_str(&mut out, "\n  status  ");
            if g.dirty {
                extend_str(&mut out, "uncommitted changes");
            } else {
                extend_str(&mut out, "clean");
            }
            extend_str(&mut out, "\n  items   ");
            extend_str(&mut out, usize_to_string(items).as_str());
            extend_str(&mut out, "\n");
        },
    }
    let r = string_of(&out);
    assert(r@ =~= status_text(*style, name@, root@, *repo, items as nat));
    r
}

/// The `git log` arguments for a notebook's history, or one file's.
pub fn history(file: Option<&str>) -> (r: Vec<String>)
    ensures
        crate::git::words_of(r@) == seq!["log"@, "--format=%h %ad %an — %s"@, "--date=short"@] + match file {
            Some(f) => seq!["--"@, f@],
            None => Seq::<Seq<char>>::empty(),
        },
{
    let mut out: Vec<String> = Vec::new();
    out.push("log".to_owned());
    out.push("--format=%h %ad %an — %s".to_owned());
    out.push("--date=short".to_owned());
    match file {
        Some(f) => {
            out.push("--".to_owned());
            out.push(f.to_owned());
        },
        None => {},
    }
    assert(crate::git::words_of(out@) =~= seq!["log"@, "--format=%h %ad %an — %s"@, "--date=short"@] + match file {
        Some(f) => seq!["--"@, f@],
        None => Seq::<Seq<char>>::empty(),
    });
    out
}

// ───────────────────────── folders ─────────────────────────

/// One line of the folder listing: `[id] name/`, `-` for a folder the index
/// does not know.
pub open spec fn folder_line(id: Option<int>, name: Seq<char>) -> Seq<char> {
    "["@ + match id {
        Some(n) => decimal(n as nat),
        None => "-"@,
    } + "] "@ + name + "/\n"@
}

/// The names of the entries that are directories, in the order given.
pub open spec fn dir_names(entries: Seq<(String, bool)>) -> Seq<Seq<char>>
    decreases entries.len(),
{
    if entries.len() == 0 {
        seq![]
    } else {
        dir_names(entries.drop_last()) + if entries.last().1 {
            seq![entries.last().0@]
        } else {
            seq![]
        }
    }
}

/// The listing of the first `n` folders, each with its index id.
pub open spec fn folder_lines(names: Seq<Seq<char>>, e: Seq<Option<Seq<char>>>, n: int) -> Seq<char>
    decreases n,
{
    if n <= 0 {
        seq![]
    } else {
        folder_lines(names, e, n - 1) + folder_line(id_for(e, names[n - 1]), names[n - 1])
    }
}

/// `kb folders`: one line per directory among a directory's entries, dot
/// entries left out, in name order, each with its id in the directory's
/// index. `entries` are the directory's entries, each with whether it is a
/// directory; plain files are not listed.
pub fn folders(entries: &Vec<(String, bool)>, index: &Index) -> (r: String)
    ensures
        r@ == ({
            let shown = names_in_order(visible(dir_names(entries@)));
            folder_lines(shown, index@, shown.len() as int)
        }),
{
    let mut dirs: Vec<String> = Vec::new();
    for i in 0..entries.len()
        invariant
            texts(dirs@) == dir_names(entries@.take(i as int)),
    {
        assert(entries@.take(i + 1).drop_last() =~= entries@.take(i as int));
        assert(entries@.take(i + 1).last() == entries@[i as int]);
        if entries[i].1 {
            let ghost before = dirs@;
            dirs.push(crate::text::copy_string(&entries[i].0));
            assert(texts(dirs@) =~= texts(before).push(entries@[i as int].0@));
        } else {
            assert(dir_names(entries@.take(i + 1)) =~= dir_names(entries@.take(i as int)));
        }
    }
    assert(entries@.take(entries.len() as int) =~= entries@);
    let shown = list_dir(&dirs);
    let ghost names = texts(shown@);
    let mut out: Vec<char> = Vec::new();
    for i in 0..shown.len()
        invariant
            names == texts(shown@),
            out@ == folder_lines(names, index@, i as int),
    {
        let ghost before = out@;
        let name = shown[i].as_str();
        assert(names[i as int] == name@);
        extend_str(&mut out, "[");
        match index.id_of(name) {
            Some(n) => extend_str(&mut out, usize_to_string(n).as_str()),
            None => extend_str(&mut out, "-"),
        }
        extend_str(&mut out, "] ");
        extend_str(&mut out, name);
        extend_str(&mut out, "/\n");
        assert(out@ =~= before + folder_line(id_for(index@, names[i as int]), names[i as int]));
    }
    string_of(&out)
}

// ───────────────────────── resolving selectors ─────────────────────────

/// The directory a selector points into: its folders under the notebook's
/// root.
pub fn selector_dir(selector: &Selector, notebook: &Notebook) -> (r: String)
    ensures
        r@ == join(notebook.root@, join_all(texts(selector.folder@))),
{
    let folders = selector.folder_path();
    join_str(notebook.root.as_str(), folders.as_str())
}

/// The names of a directory's entries, in the order given.
pub open spec fn entry_names(entries: Seq<(String, bool)>) -> Seq<Seq<char>> {
    entries.map_values(|e: (String, bool)| e.0@)
}

/// Whether the entry called `name` is a directory.
pub open spec fn entry_is_dir(entries: Seq<(String, bool)>, name: Seq<char>) -> bool {
    exists|i: int| 0 <= i < entries.len() && (#[trigger] entries[i]).0@ == name && entries[i].1
}

pub open spec fn opt_id(o: Option<usize>) -> Option<int> {
    match o {
        Some(i) => Some(i as int),
        None => None,
    }
}

/// The entry a target picks, with its id: an id names the entry its index
/// line holds; a name picks among the visible entries and their titles, and
/// the id is the index's for what it picked.
pub open spec fn target_entry(
    t: Target,
    index: Seq<Option<Seq<char>>>,
    names: Seq<Seq<char>>,
    titles: Seq<(Seq<char>, Seq<char>)>,
) -> Option<(Seq<char>, Option<int>)> {
    match t {
        Target::Id(id) => match name_at(index, id as int) {
            Some(n) => Some((n, Some(id as int))),
            None => None,
        },
        Target::Name(n) => match picked_by_name(names, titles, n@) {
            Some(f) => Some((f, id_for(index, f))),
            None => None,
        },
    }
}

/// A folder or a note at `path` with id `id`, as `is_dir` says.
pub open spec fn resolved_at(r: Resolved, path: Seq<char>, id: Option<int>, is_dir: bool) -> bool {
    match r {
        Resolved::Folder { path: p, id: i } => is_dir && p@ == path && opt_id(i) == id,
        Resolved::Note { path: p, id: i } => !is_dir && p@ == path && opt_id(i) == id,
        Resolved::Notebook { .. } => false,
    }
}

fn visible_names(entries: &Vec<(String, bool)>) -> (r: Vec<String>)
    ensures
        texts(r@) == visible(entry_names(entries@)),
{
    let ghost all = entry_names(entries@);
    let mut out: Vec<String> = Vec::new();
    for i in 0..entries.len()
        invariant
            all == entry_names(entries@),
            texts(out@) == visible(all.take(i as int)),
    {
        assert(all.take(i + 1).drop_last() =~= all.take(i as int));
        assert(all.take(i + 1).last() == entries@[i as int].0@);
        let n = entries[i].0.as_str();
        let c = chars_of(n);
        if !(c.len() > 0 && c[0] == '.') {
            let ghost before = out@;
            out.push(n.to_owned());
            assert(texts(out@) =~= texts(before).push(n@));
        }
    }
    assert(all.take(entries.len() as int) =~= all);
    out
}

fn is_dir_entry(entries: &Vec<(String, bool)>, name: &str) -> (r: bool)
    ensures
        r == entry_is_dir(entries@, name@),
{
    let n = chars_of(name);
    for i in 0..entries.len()
        invariant
            n@ == name@,
            forall|j: int| 0 <= j < i ==> !((#[trigger] entries@[j]).0@ == name@ && entries@[j].1),
    {
        if entries[i].1 && str_eq(entries[i].0.as_str(), name) {
            return true;
        }
    }
    false
}

/// What a selector names inside its notebook, once the directory it points
/// into has been looked at: `dir_exists` says whether that directory exists,
/// `index` is its index, `entries` its entries (each with whether it is a
/// directory), and `titles` the titles of its visible notes by entry name.
/// A selector naming only a notebook is that notebook; a missing directory,
/// an id with no entry, or a name that picks nothing is not found.
pub fn resolve_in(
    selector: &Selector,
    notebook: &Notebook,
    dir_exists: bool,
    index: &Index,
    entries: &Vec<(String, bool)>,
    titles: &Vec<(String, String)>,
) -> (r: Result<Resolved, String>)
    ensures
        ({
            let only = selector.notebook is Some && selector.folder@.len() == 0 && selector.target is None;
            let dir = join(notebook.root@, join_all(texts(selector.folder@)));
            let missing = "not found: "@ + describe_text(*selector);
            &&& only ==> (r matches Ok(Resolved::Notebook { name, root }) && name@ == notebook.name@
                && root@ == notebook.root@)
            &&& !only && !dir_exists ==> (r matches Err(e) && e@ == missing)
            &&& !only && dir_exists && selector.target is None ==> (r matches Ok(Resolved::Folder { path, id })
                && path@ == dir && id is None)
            &&& !only && dir_exists && selector.target is Some ==> match target_entry(
                selector.target->0,
                index@,
                visible(entry_names(entries@)),
                title_pairs(titles@),
            ) {
                None => r matches Err(e) && e@ == missing,
                Some((name, id)) => r matches Ok(res) && resolved_at(res, join(dir, name), id, entry_is_dir(entries@, name)),
            }
        }),
{
    if selector.is_notebook_only() {
        return Ok(Resolved::Notebook { name: notebook.name.clone(), root: notebook.root.clone() });
    }
    let dir = selector_dir(selector, notebook);
    if !dir_exists {
        let mut m = chars_of("not found: ");
        extend_str(&mut m, describe(selector).as_str());
        return Err(string_of(&m));
    }
    let target = match &selector.target {
        Some(t) => t,
        None => return Ok(Resolved::Folder { path: dir, id: None }),
    };
    let picked: Option<(String, Option<usize>)> = match target {
        Target::Id(id) => match index.name_of(*id) {
            Some(n) => Some((n.to_owned(), Some(*id))),
            None => None,
        },
        Target::Name(name) => {
            let names = visible_names(entries);
            match find_by_name(&names, titles, name.as_str()) {
                Some(found) => {
                    let id = index.id_of(found.as_str());
                    Some((found, id))
                },
                None => None,
            }
        },
    };
    match picked {
        Some((name, id)) => {
            let path = join_str(dir.as_str(), name.as_str());
            if is_dir_entry(entries, name.as_str()) {
                Ok(Resolved::Folder { path, id })
            } else {
                Ok(Resolved::Note { path, id })
            }
        },
        None => {
            let mut m = chars_of("not found: ");
            extend_str(&mut m, describe(selector).as_str());
            Err(string_of(&m))
        },
    }
}

// ───────────────────────── todos ─────────────────────────

/// Which todos a listing shows.
#[derive(Debug, Clone, Copy, PartialEq, Eq)]
pub enum TodoFilter {
    Open,
    Done,
    All,
}

/// The checkbox of a todo note is ticked.
pub open spec fn todo_done(raw: Seq<char>) -> bool {
    checkbox_of(raw) matches Some((_, done, _)) && done
}

/// The listing line of one todo note, or nothing when the filter leaves it
/// out: `[id] [x] task`, the note's title standing in for a missing task
/// and `-` for an id the index does not know.
pub open spec fn todo_line(raw: Seq<char>, title: Seq<char>, id: Option<usize>, which: TodoFilter) -> Option<Seq<char>> {
    let done = todo_done(raw);
    let keep = match which {
        TodoFilter::Open => !done,
        TodoFilter::Done => done,
        TodoFilter::All => true,
    };
    if !keep {
        None
    } else {
        Some(
            "["@ + match id {
                Some(i) => decimal(i as nat),
                None => "-"@,
            } + "] "@ + (if done {
                "[x]"@
            } else {
                "[ ]"@
            }) + " "@ + match checkbox_of(raw) {
                Some((_, _, task)) => task,
                None => title,
            } + "\n"@,
        )
    }
}

/// One row of `kb todo list`, from the note's text, title and index id.
pub fn todo_row(raw: &str, title: &str, id: Option<usize>, which: TodoFilter) -> (r: Option<String>)
    ensures
        match todo_line(raw@, title@, id, which) {
            Some(t) => r matches Some(s) && s@ == t,
            None => r is None,
        },
{
    let done = is_done(raw);
    let keep = match which {
        TodoFilter::Open => !done,
        TodoFilter::Done => done,
        TodoFilter::All => true,
    };
    if !keep {
        return None;
    }
    let mut out: Vec<char> = Vec::new();
    extend_str(&mut out, "[");
    match id {
        Some(i) => extend_str(&mut out, usize_to_string(i).as_str()),
        None => extend_str(&mut out, "-"),
    }
    extend_str(&mut out, "] ");
    if done {
        extend_str(&mut out, "[x]");
    } else {
        extend_str(&mut out, "[ ]");
    }
    extend_str(&mut out, " ");
    match task_of(raw) {
        Some(t) => extend_str(&mut out, t.as_str()),
        None => extend_str(&mut out, title),
    }
    out.push('\n');
    proof {
        reveal_strlit("\n");
    }
    Some(string_of(&out))
}

/// What `kb do` / `kb undo` reports: `[x] task` or `[ ] task`.
pub open spec fn todo_report(updated: Seq<char>, done: bool) -> Seq<char> {
    "["@ + (if done {
        "x"@
    } else {
        " "@
    }) + "] "@ + match checkbox_of(updated) {
        Some((_, _, task)) => task,
        None => seq![],
    } + "\n"@
}

/// `kb do` / `kb undo` on the note at `path` holding `raw`: its new text
/// and the line to report, or an error when it has no checkbox.
pub fn set_todo(path: &str, raw: &str, done: bool) -> (r: Result<(String, String), String>)
    ensures
        match with_done(raw@, done) {
            Some(t) => r matches Ok((u, line)) && u@ == t && line@ == todo_report(t, done),
            None => r matches Err(e) && e@ == path@ + " has no checkbox to change"@,
        },
{
    let updated = match set_done(raw, done) {
        Some(u) => u,
        None => {
            let mut e: Vec<char> = Vec::new();
            extend_str(&mut e, path);
            extend_str(&mut e, " has no checkbox to change");
            return Err(string_of(&e));
        },
    };
    let mut out: Vec<char> = Vec::new();
    extend_str(&mut out, "[");
    if done {
        extend_str(&mut out, "x");
    } else {
        extend_str(&mut out, " ");
    }
    extend_str(&mut out, "] ");
    match task_of(updated.as_str()) {
        Some(t) => extend_str(&mut out, t.as_str()),
        None => {},
    }
    out.push('\n');
    proof {
        reveal_strlit("\n");
    }
    assert(out@ =~= todo_report(updated@, done));
    Ok((updated, string_of(&out)))
}

/// A new todo note: its frontmatter, typed `Todo`, with `todo` as the tag
/// when none are given, then the checkbox line.
pub open spec fn todo_note(task: Seq<char>, tags: Seq<Seq<char>>, stamp: Seq<char>) -> Seq<char> {
    block_text(
        "Todo"@,
        task,
        if tags.len() == 0 {
            seq!["todo"@]
        } else {
            tags
        },
        stamp,
    ) + "\n"@ + todo_text(task, tags)
}

/// Words joined by single spaces.
fn join_words(words: &Vec<String>) -> (r: String)
    ensures
        r@ == join_with(texts(words@), " "@),
{
    let mut out: Vec<char> = Vec::new();
    for i in 0..words.len()
        invariant
            out@ == join_with(texts(words@).take(i as int), " "@),
    {
        proof {
            lemma_join_with_push(texts(words@).take(i as int), " "@, words@[i as int]@);
            assert(texts(words@).take(i + 1) =~= texts(words@).take(i as int).push(words@[i as int]@));
        }
        if i > 0 {
            extend_str(&mut out, " ");
        }
        extend_str(&mut out, words[i].as_str());
    }
    assert(texts(words@).take(words.len() as int) =~= texts(words@));
    string_of(&out)
}

/// The text of a new todo note for `task`, its words joined by spaces.
pub fn todo_contents(words: &Vec<String>, tags: &Vec<String>, stamp: &str) -> (r: String)
    ensures
        r@ == todo_note(join_with(texts(words@), " "@), texts(tags@), stamp@),
{
    let task = join_words(words);
    let todo_tag = vec!["todo".to_owned()];
    assert(texts(todo_tag@) =~= seq!["todo"@]);
    let block_tags: &[String] = if tags.len() == 0 {
        todo_tag.as_slice()
    } else {
        tags.as_slice()
    };
    let head = render_block("Todo", task.as_str(), block_tags, stamp);
    let body = render_todo(task.as_str(), tags.as_slice());
    let mut out: Vec<char> = Vec::new();
    extend_str(&mut out, head.as_str());
    out.push('\n');
    extend_str(&mut out, body.as_str());
    proof {
        reveal_strlit("\n");
    }
    assert(out@ =~= todo_note(task@, texts(tags@), stamp@));
    string_of(&out)
}

// ───────────────────────── completions ─────────────────────────

/// The shells completions are written for.
#[derive(Debug, Clone, Copy, PartialEq, Eq)]
pub enum Shell {
    Bash,
    Elvish,
    Fish,
    PowerShell,
    Zsh,
}

/// The shell a name stands for: its lower-case name, exactly.
pub open spec fn shell_named(name: Seq<char>) -> Option<Shell> {
    if name == "bash"@ {
        Some(Shell::Bash)
    } else if name == "elvish"@ {
        Some(Shell::Elvish)
    } else if name == "fish"@ {
        Some(Shell::Fish)
    } else if name == "powershell"@ {
        Some(Shell::PowerShell)
    } else if name == "zsh"@ {
        Some(Shell::Zsh)
    } else {
        None
    }
}

/// `clap_complete::Shell`'s `FromStr`: it accepts exactly the name of one of
/// its five shells (`bash`, `elvish`, `fish`, `powershell`, `zsh`), case
/// and all, and refuses anything else.
#[verifier::external_body]
fn parse_shell(name: &str) -> (r: Option<Shell>)
    ensures
        r == shell_named(name@),
{
    match name.parse::<clap_complete::Shell>() {
        Ok(clap_complete::Shell::Bash) => Some(Shell::Bash),
        Ok(clap_complete::Shell::Elvish) => Some(Shell::Elvish),
        Ok(clap_complete::Shell::Fish) => Some(Shell::Fish),
        Ok(clap_complete::Shell::PowerShell) => Some(Shell::PowerShell),
        Ok(clap_complete::Shell::Zsh) => Some(Shell::Zsh),
        Ok(_) => None,
        Err(_) => None,
    }
}

/// The shell named by the final component of `$SHELL`.
pub open spec fn shell_of(shell_env: Option<Seq<char>>) -> Option<Shell> {
    match shell_env {
        Some(p) => match file_name(p) {
            Some(n) => shell_named(n),
            None => None,
        },
        None => None,
    }
}

/// The shell a name given on the command line stands for.
pub fn shell_from_name(name: &str) -> (r: Option<Shell>)
    ensures
        r == shell_named(name@),
{
    parse_shell(name)
}

/// The shell `$SHELL` runs, when it is one completions are written for.
pub fn current_shell(shell_env: Option<&str>) -> (r: Option<Shell>)
    ensures
        r == shell_of(
            match shell_env {
                Some(p) => Some(p@),
                None => None,
            },
        ),
{
    match shell_env {
        Some(p) => match file_name_of(p) {
            Some(n) => parse_shell(n.as_str()),
            None => None,
        },
        None => None,
    }
}

/// The shell to write completions for: the one named, else `$SHELL`'s.
pub fn completion_shell(named: Option<Shell>, shell_env: Option<&str>) -> (r: Result<Shell, String>)
    ensures
        match named {
            Some(s) => r == Ok::<Shell, String>(s),
            None => match shell_of(
                match shell_env {
                    Some(p) => Some(p@),
                    None => None,
                },
            ) {
                Some(s) => r == Ok::<Shell, String>(s),
                None => r matches Err(e) && e@
                    == "cannot tell which shell to use; name one, e.g. `kb completions install zsh`"@,
            },
        },
{
    match named {
        Some(s) => Ok(s),
        None => match current_shell(shell_env) {
            Some(s) => Ok(s),
            None => Err("cannot tell which shell to use; name one, e.g. `kb completions install zsh`".to_owned()),
        },
    }
}

/// The name of the completion file for a shell.
pub open spec fn completion_file(shell: Shell) -> Seq<char> {
    match shell {
        Shell::Zsh => "_kb"@,
        Shell::Fish => "kb.fish"@,
        Shell::Elvish => "kb.elv"@,
        Shell::PowerShell => "kb.ps1"@,
        Shell::Bash => "kb"@,
    }
}

/// The name of the completion file for a shell.
pub fn completion_filename(shell: Shell) -> (r: String)
    ensures
        r@ == completion_file(shell),
{
    match shell {
        Shell::Zsh => "_kb".to_owned(),
        Shell::Fish => "kb.fish".to_owned(),
        Shell::Elvish => "kb.elv".to_owned(),
        Shell::PowerShell => "kb.ps1".to_owned(),
        Shell::Bash => "kb".to_owned(),
    }
}

/// Where a shell looks for completions, from `$HOME`, `$XDG_DATA_HOME` and
/// `$XDG_CONFIG_HOME`.
pub open spec fn completion_directory(
    shell: Shell,
    home: Seq<char>,
    xdg_data: Option<Seq<char>>,
    xdg_config: Option<Seq<char>>,
) -> Seq<char> {
    let data = match xdg_data {
        Some(d) => d,
        None => join(home, ".local/share"@),
    };
    match shell {
        Shell::Zsh => join(home, ".zfunc"@),
        Shell::Bash => join(data, "bash-completion/completions"@),
        Shell::Fish => join(
            match xdg_config {
                Some(c) => c,
                None => join(home, ".config"@),
            },
            "fish/completions"@,
        ),
        Shell::Elvish => join(home, ".elvish/lib"@),
        Shell::PowerShell => join(home, ".config/powershell"@),
    }
}

/// Where a shell looks for completions; an error when there is no home
/// directory.
pub fn completion_dir(
    shell: Shell,
    home: Option<&str>,
    xdg_data: Option<&str>,
    xdg_config: Option<&str>,
) -> (r: Result<String, String>)
    ensures
        match home {
            Some(h) => r matches Ok(d) && d@ == completion_directory(
                shell,
                h@,
                match xdg_data {
                    Some(x) => Some(x@),
                    None => None,
                },
                match xdg_config {
                    Some(x) => Some(x@),
                    None => None,
                },
            ),
            None => r matches Err(e) && e@ == "no home directory"@,
        },
{
    let home = match home {
        Some(h) => h,
        None => return Err("no home directory".to_owned()),
    };
    let data = match xdg_data {
        Some(d) => d.to_owned(),
        None => join_str(home, ".local/share"),
    };
    let dir = match shell {
        Shell::Zsh => join_str(home, ".zfunc"),
        Shell::Bash => join_str(data.as_str(), "bash-completion/completions"),
        Shell::Fish => {
            let config = match xdg_config {
                Some(c) => c.to_owned(),
                None => join_str(home, ".config"),
            };
            join_str(config.as_str(), "fish/completions")
        },
        Shell::Elvish => join_str(home, ".elvish/lib"),
        Shell::PowerShell => join_str(home, ".config/powershell"),
    };
    Ok(dir)
}

// ───────────────────────── env ─────────────────────────

/// The outside tools `kb env check` reports on, each with what it enables.
#[verifier::opaque]
pub open spec fn env_tool_list() -> Seq<(Seq<char>, Seq<char>)> {
    seq![
        ("git"@, "sync, status, history"@),
        ("fzf"@, "pick, and browsing a folder with open/peek"@),
        ("glow"@, "rendered Markdown in the pager and fzf preview"@),
        ("bat"@, "syntax highlighting when glow is absent"@),
        ("pandoc"@, "export pandoc, and import --convert"@),
        ("openssl"@, "encrypted notes (default)"@),
        ("gpg"@, "encrypted notes when encryption_tool is gpg"@),
    ]
}

/// The outside tools `kb env check` reports on, each with what it enables.
pub fn env_tools() -> (r: Vec<(&'static str, &'static str)>)
    ensures
        r@.map_values(|p: (&str, &str)| (p.0@, p.1@)) == env_tool_list(),
{
    let mut v: Vec<(&'static str, &'static str)> = Vec::new();
    v.push(("git", "sync, status, history"));
    v.push(("fzf", "pick, and browsing a folder with open/peek"));
    v.push(("glow", "rendered Markdown in the pager and fzf preview"));
    v.push(("bat", "syntax highlighting when glow is absent"));
    v.push(("pandoc", "export pandoc, and import --convert"));
    v.push(("openssl", "encrypted notes (default)"));
    v.push(("gpg", "encrypted notes when encryption_tool is gpg"));
    reveal(env_tool_list);
    assert(v@.map_values(|p: (&str, &str)| (p.0@, p.1@)) =~= env_tool_list());
    v
}

/// One row of `kb env check`: a tick or a dot, the tool in eight columns,
/// and what it enables, dimmed.
pub open spec fn env_row(style: Style, tool: Seq<char>, enables: Seq<char>, found: bool) -> Seq<char> {
    (if found {
        "✓"@
    } else {
        "·"@
    }) + " "@ + padded(tool, 8) + " "@ + wrapped(style.enabled, "2"@, enables) + "\n"@
}

/// The first `n` rows of `kb env check`.
pub open spec fn env_rows(style: Style, found: Seq<bool>, n: int) -> Seq<char>
    decreases n,
{
    if n <= 0 {
        seq![]
    } else {
        env_rows(style, found, n - 1) + env_row(style, env_tool_list()[n - 1].0, env_tool_list()[n - 1].1, found[n - 1])
    }
}

/// `kb env check`: whether each outside tool was found, one row per tool;
/// `found` follows `env_tools`'s order.
pub fn env_check(style: &Style, found: &Vec<bool>) -> (r: String)
    requires
        found@.len() == env_tool_list().len(),
    ensures
        r@ == env_rows(*style, found@, env_tool_list().len() as int),
{
    let tools = env_tools();
    assert(tools@.len() == env_tool_list().len());
    let mut out: Vec<char> = Vec::new();
    for i in 0..tools.len()
        invariant
            tools@.map_values(|p: (&str, &str)| (p.0@, p.1@)) == env_tool_list(),
            found@.len() == tools@.len(),
            out@ == env_rows(*style, found@, i as int),
    {
        let ghost before = out@;
        let (tool, enables) = tools[i];
        assert((tool@, enables@) == env_tool_list()[i as int]);
        if found[i] {
            extend_str(&mut out, "✓");
        } else {
            extend_str(&mut out, "·");
        }
        extend_str(&mut out, " ");
        push_padded(&mut out, tool, 8);
        extend_str(&mut out, " ");
        let d = style.dim(enables);
        extend_str(&mut out, d.as_str());
        out.push('\n');
        proof {
            reveal_strlit("\n");
        }
        assert(out@ =~= before + env_row(*style, tool@, enables@, found@[i as int]));
    }
    string_of(&out)
}

// ───────────────────────── notebooks ─────────────────────────

/// One line of the notebooks listing: the root with `paths`, else the name
/// with `names`, else the name behind `* ` for the current notebook and two
/// spaces for the others.
pub open spec fn notebook_line(nb: Notebook, current: Seq<char>, paths: bool, names: bool) -> Seq<char> {
    if paths {
        nb.root@.push('\n')
    } else if names {
        nb.name@.push('\n')
    } else if nb.name@ == current {
        "* "@ + nb.name@.push('\n')
    } else {
        "  "@ + nb.name@.push('\n')
    }
}

/// The listing of the first `n` notebooks.
pub open spec fn notebook_lines(nbs: Seq<Notebook>, current: Seq<char>, paths: bool, names: bool, n: int) -> Seq<char>
    decreases n,
{
    if n <= 0 {
        seq![]
    } else {
        notebook_lines(nbs, current, paths, names, n - 1) + notebook_line(nbs[n - 1], current, paths, names)
    }
}

/// The `notebooks` listing, one line per notebook in workspace order.
pub fn notebooks(listed: &Vec<Notebook>, current: &str, paths: bool, names: bool) -> (r: String)
    ensures
        r@ == notebook_lines(listed@, current@, paths, names, listed@.len() as int),
{
    let mut out: Vec<char> = Vec::new();
    for i in 0..listed.len()
        invariant
            out@ == notebook_lines(listed@, current@, paths, names, i as int),
    {
        let ghost before = out@;
        let nb = &listed[i];
        if paths {
            extend_str(&mut out, nb.root.as_str());
        } else if names {
            extend_str(&mut out, nb.name.as_str());
        } else {
            if str_eq(nb.name.as_str(), current) {
                extend_str(&mut out, "* ");
            } else {
                extend_str(&mut out, "  ");
            }
            extend_str(&mut out, nb.name.as_str());
        }
        out.push('\n');
        assert(out@ =~= before + notebook_line(listed@[i as int], current@, paths, names));
    }
    string_of(&out)
}

// ───────────────────────── settings ─────────────────────────

/// What `kb set NAME` prints without a value: the value, or `(unset)`
/// dimmed when there is none.
pub open spec fn setting_report(style: Style, value: Option<Seq<char>>) -> Seq<char> {
    match value {
        Some(v) => v.push('\n'),
        None => wrapped(style.enabled, "2"@, "(unset)"@).push('\n'),
    }
}

/// The value `get` reads: the environment's when it is set (`KB_` first,
/// then `NB_`), else the file's.
pub open spec fn current_value(
    es: Seq<(Seq<char>, Seq<char>)>,
    name: Seq<char>,
    env_values: (Option<&str>, Option<&str>),
) -> Option<Seq<char>> {
    match env_choice(env_values.0, env_values.1) {
        Some(v) => Some(v),
        None => lookup(es, normalised(name)),
    }
}

/// `kb set NAME [VALUE]`, with the setting given by name or number: with a
/// value the setting changes and `name = value` is reported; without one the
/// current value is reported and nothing changes. `env_values` are the
/// setting's `KB_` and `NB_` environment variables.
pub fn set_setting(
    settings: &mut Settings,
    style: &Style,
    name: &str,
    value: Option<&str>,
    env_values: (Option<&str>, Option<&str>),
) -> (r: Result<String, String>)
    requires
        old(settings).wf(),
    ensures
        final(settings).wf(),
        final(settings).path_text() == old(settings).path_text(),
        match name_resolved(name@) {
            Err(m) => r matches Err(e) && e@ == m && final(settings)@ == old(settings)@,
            Ok(n) => match value {
                None => final(settings)@ == old(settings)@ && (r matches Ok(t) && t@ == setting_report(
                    *style,
                    current_value(old(settings)@, n, env_values),
                )),
                Some(v) => match validated(n) {
                    Ok(k) => r matches Ok(t) && t@ == n + " = "@ + v@ + "\n"@ && forall|q: Seq<char>|
                        #[trigger] lookup(final(settings)@, q) == if q == k {
                            Some(v@)
                        } else {
                            lookup(old(settings)@, q)
                        },
                    Err(m) => r matches Err(e) && e@ == m && final(settings)@ == old(settings)@,
                },
            },
        },
{
    let n = match resolve_name(name) {
        Ok(n) => n,
        Err(e) => return Err(e),
    };
    match value {
        None => {
            let mut out: Vec<char> = Vec::new();
            match settings.get(n.as_str(), env_values.0, env_values.1) {
                Some(v) => extend_str(&mut out, v.as_str()),
                None => {
                    let d = style.dim("(unset)");
                    extend_str(&mut out, d.as_str());
                },
            }
            out.push('\n');
            Ok(string_of(&out))
        },
        Some(v) => {
            match settings.set(n.as_str(), v) {
                Ok(()) => {},
                Err(e) => return Err(e),
            }
            let mut out: Vec<char> = Vec::new();
            extend_str(&mut out, n.as_str());
            extend_str(&mut out, " = ");
            extend_str(&mut out, v);
            out.push('\n');
            proof {
                reveal_strlit("\n");
            }
            assert(out@ =~= n@ + " = "@ + v@ + "\n"@);
            Ok(string_of(&out))
        },
    }
}

/// `kb unset NAME`, with the setting given by name or number: the setting
/// goes and `unset name` is reported.
pub fn unset_setting(settings: &mut Settings, name: &str) -> (r: Result<String, String>)
    requires
        old(settings).wf(),
    ensures
        final(settings).wf(),
        final(settings).path_text() == old(settings).path_text(),
        match name_resolved(name@) {
            Err(m) => r matches Err(e) && e@ == m && final(settings)@ == old(settings)@,
            Ok(n) => match validated(n) {
                Ok(k) => r matches Ok(t) && t@ == "unset "@ + n + "\n"@ && forall|q: Seq<char>|
                    #[trigger] lookup(final(settings)@, q) == if q == k {
                        None
                    } else {
                        lookup(old(settings)@, q)
                    },
                Err(m) => r matches Err(e) && e@ == m && final(settings)@ == old(settings)@,
            },
        },
{
    let n = match resolve_name(name) {
        Ok(n) => n,
        Err(e) => return Err(e),
    };
    match settings.unset(n.as_str()) {
        Ok(()) => {},
        Err(e) => return Err(e),
    }
    let mut out: Vec<char> = Vec::new();
    extend_str(&mut out, "unset ");
    extend_str(&mut out, n.as_str());
    out.push('\n');
    proof {
        reveal_strlit("\n");
    }
    assert(out@ =~= "unset "@ + n@ + "\n"@);
    Ok(string_of(&out))
}

/// Text left-aligned in `width` columns: spaces after it up to the width.
pub open spec fn padded(s: Seq<char>, width: nat) -> Seq<char> {
    if s.len() < width {
        s + Seq::new((width - s.len()) as nat, |i: int| ' ')
    } else {
        s
    }
}

/// Append `s` left-aligned in `width` columns.
fn push_padded(out: &mut Vec<char>, s: &str, width: usize)
    ensures
        final(out)@ == old(out)@ + padded(s@, width as nat),
{
    let ghost start = out@;
    extend_str(out, s);
    let mut k: usize = s.unicode_len();
    let ghost filled = out@;
    while k < width
        invariant
            s@.len() <= k <= width || (k == s@.len() && k >= width),
            filled == start + s@,
            out@ == filled + Seq::new((k - s@.len()) as nat, |j: int| ' '),
        decreases width - k,
    {
        out.push(' ');
        k = k + 1;
        assert(out@ =~= filled + Seq::new((k - s@.len()) as nat, |j: int| ' '));
    }
    assert(out@ =~= start + padded(s@, width as nat));
}

/// One row of the settings listing: its number, the name in twenty columns,
/// and the value.
pub open spec fn setting_row(number: nat, name: Seq<char>, value: Seq<char>) -> Seq<char> {
    "["@ + decimal(number) + "] "@ + padded(name, 20) + " "@ + value + "\n"@
}

/// The first `n` rows of the settings listing, each with the value `get`
/// reads, empty when there is none.
pub open spec fn setting_rows(
    es: Seq<(Seq<char>, Seq<char>)>,
    env_values: Seq<(Option<&str>, Option<&str>)>,
    n: int,
) -> Seq<char>
    decreases n,
{
    if n <= 0 {
        seq![]
    } else {
        setting_rows(es, env_values, n - 1) + setting_row(
            n as nat,
            known_names()[n - 1],
            match current_value(es, known_names()[n - 1], env_values[n - 1]) {
                Some(v) => v,
                None => seq![],
            },
        )
    }
}

/// `kb settings list`: every known setting with its value, numbered from
/// 1. `env_values` holds each known setting's `KB_` and `NB_` environment
/// variables, in the same order.
#[verifier::rlimit(30)]
pub fn settings_listing(settings: &Settings, env_values: &Vec<(Option<&str>, Option<&str>)>) -> (r: String)
    requires
        env_values@.len() == known_names().len(),
    ensures
        r@ == setting_rows(settings@, env_values@, known_names().len() as int),
{
    let names = known();
    let mut out: Vec<char> = Vec::new();
    for i in 0..names.len()
        invariant
            names@.map_values(|s: &str| s@) == known_names(),
            env_values@.len() == names@.len(),
            out@ == setting_rows(settings@, env_values@, i as int),
    {
        let ghost before = out@;
        let name = names[i];
        assert(name@ == known_names()[i as int]);
        extend_str(&mut out, "[");
        extend_str(&mut out, usize_to_string(i + 1).as_str());
        extend_str(&mut out, "] ");
        push_padded(&mut out, name, 20);
        extend_str(&mut out, " ");
        let ghost shown = match current_value(settings@, name@, env_values@[i as int]) {
            Some(v) => v,
            None => seq![],
        };
        let ghost mid = out@;
        let (kb, nb) = env_values[i];
        match settings.get(name, kb, nb) {
            Some(v) => extend_str(&mut out, v.as_str()),
            None => {},
        }
        assert(out@ =~= mid + shown);
        out.push('\n');
        proof {
            reveal_strlit("\n");
        }
        assert(out@ =~= before + setting_row((i + 1) as nat, known_names()[i as int], shown));
    }
    string_of(&out)
}

// ───────────────────────── export ─────────────────────────

/// An export converts, through pandoc, when the destination's extension
/// differs from the source's and either pandoc arguments were given or
/// pandoc is installed and the destination has an extension.
pub open spec fn export_converts(source: Seq<char>, destination: Seq<char>, has_args: bool, have_pandoc: bool) -> bool {
    let differ = extension(destination) != extension(source);
    (differ && has_args) || (differ && have_pandoc && extension(destination) is Some)
}

/// The arguments name an output file already.
pub open spec fn names_output(args: Seq<Seq<char>>) -> bool {
    exists|i: int| 0 <= i < args.len() && (#[trigger] args[i] == "-o"@ || args[i] == "--output"@)
}

/// The pandoc arguments of a conversion: those given, with `--output` and
/// the destination added when they name no output.
pub open spec fn conversion_args(args: Seq<Seq<char>>, destination: Seq<char>) -> Seq<Seq<char>> {
    if names_output(args) {
        args
    } else {
        args + seq!["--output"@, destination]
    }
}

fn same_extension(a: &str, b: &str) -> (r: bool)
    ensures
        r == (extension(a@) == extension(b@)),
{
    let x = extension_of(&chars_of(a));
    let y = extension_of(&chars_of(b));
    match (x, y) {
        (Some(p), Some(q)) => crate::text::chars_eq(&p, &q),
        (None, None) => true,
        _ => false,
    }
}

/// How `kb export` writes `source` to `destination`: `None` for a plain
/// copy, or the arguments to hand pandoc for a conversion.
pub fn export_conversion(source: &str, destination: &str, pandoc_args: &Vec<String>, have_pandoc: bool) -> (r: Option<Vec<String>>)
    ensures
        export_converts(source@, destination@, pandoc_args@.len() > 0, have_pandoc) ==> (r matches Some(a)
            && texts(a@) == conversion_args(texts(pandoc_args@), destination@)),
        !export_converts(source@, destination@, pandoc_args@.len() > 0, have_pandoc) ==> r is None,
{
    let differ = !same_extension(destination, source);
    let dest_ext = extension_of(&chars_of(destination));
    let converting = (differ && pandoc_args.len() > 0) || (differ && have_pandoc && dest_ext.is_some());
    if !converting {
        return None;
    }
    let mut out: Vec<String> = Vec::new();
    let mut named = false;
    for i in 0..pandoc_args.len()
        invariant
            texts(out@) == texts(pandoc_args@).take(i as int),
            named == exists|j: int| 0 <= j < i && (#[trigger] texts(pandoc_args@)[j] == "-o"@
                || texts(pandoc_args@)[j] == "--output"@),
    {
        let a = pandoc_args[i].as_str();
        let hit = str_eq(a, "-o") || str_eq(a, "--output");
        let ghost before = out@;
        let owned = a.to_owned();
        assert(owned@ == pandoc_args@[i as int]@);
        out.push(owned);
        assert(texts(out@) =~= texts(before).push(owned@));
        assert(texts(pandoc_args@)[i as int] == pandoc_args@[i as int]@);
        assert(texts(out@) =~= texts(pandoc_args@).take(i + 1));
        if hit {
            named = true;
        }
    }
    assert(texts(pandoc_args@).take(pandoc_args.len() as int) =~= texts(pandoc_args@));
    if !named {
        out.push("--output".to_owned());
        out.push(destination.to_owned());
        assert(texts(out@) =~= texts(pandoc_args@) + seq!["--output"@, destination@]);
    }
    Some(out)
}

// ───────────────────────── remote ─────────────────────────

/// One row of `kb remote`: the notebook's name styled as a path, then its
/// remote's URL, or `(none)` when it has no remote.
pub open spec fn remote_row(style: Style, name: Seq<char>, url: Option<Seq<char>>) -> Seq<char> {
    wrapped(style.enabled, colour_code(style.theme.primary), name) + "  "@ + match url {
        Some(u) => u,
        None => "(none)"@,
    } + "\n"@
}

/// The first `n` rows of `kb remote`.
pub open spec fn remote_rows(style: Style, rows: Seq<(String, Option<String>)>, n: int) -> Seq<char>
    decreases n,
{
    if n <= 0 {
        seq![]
    } else {
        remote_rows(style, rows, n - 1) + remote_row(
            style,
            rows[n - 1].0@,
            match rows[n - 1].1 {
                Some(u) => Some(u@),
                None => None,
            },
        )
    }
}

/// `kb remote`: each notebook with its remote's URL, when git gave one.
pub fn remote_listing(style: &Style, rows: &Vec<(String, Option<String>)>) -> (r: String)
    ensures
        r@ == remote_rows(*style, rows@, rows@.len() as int),
{
    let mut out: Vec<char> = Vec::new();
    for i in 0..rows.len()
        invariant
            out@ == remote_rows(*style, rows@, i as int),
    {
        let ghost before = out@;
        let name = style.path(rows[i].0.as_str());
        extend_str(&mut out, name.as_str());
        extend_str(&mut out, "  ");
        match &rows[i].1 {
            Some(u) => extend_str(&mut out, u.as_str()),
            None => extend_str(&mut out, "(none)"),
        }
        out.push('\n');
        proof {
            reveal_strlit("\n");
        }
        assert(out@ =~= before + remote_row(
            *style,
            rows@[i as int].0@,
            match rows@[i as int].1 {
                Some(u) => Some(u@),
                None => None,
            },
        ));
    }
    string_of(&out)
}

// ───────────────────────── sync ─────────────────────────

/// The one-line summary of a notebook's sync.
pub open spec fn sync_text(message: Option<Seq<char>>, pushed: bool) -> Seq<char> {
    match message {
        Some(m) => if pushed {
            m + " — pushed"@
        } else {
            m + " — committed (no upstream)"@
        },
        None => if pushed {
            "nothing to commit — pulled and pushed"@
        } else {
            "nothing to do"@
        },
    }
}

pub fn sync(message: Option<&str>, pushed: bool) -> (r: String)
    ensures
        r@ == sync_text(
            match message {
                Some(m) => Some(m@),
                None => None,
            },
            pushed,
        ),
{
    match message {
        Some(m) => {
            let mut out = chars_of(m);
            if pushed {
                extend_str(&mut out, " — pushed");
            } else {
                extend_str(&mut out, " — committed (no upstream)");
            }
            string_of(&out)
        },
        None => if pushed {
            "nothing to commit — pulled and pushed".to_owned()
        } else {
            "nothing to do".to_owned()
        },
    }
}

// ───────────────────────── migrate ─────────────────────────

/// The refusal to migrate over uncommitted work: the first notebook that is
/// a dirty repository, when writing was asked for and dirt was not allowed.
pub open spec fn first_dirty(states: Seq<(String, bool)>, i: int) -> Option<int>
    decreases states.len() - i,
{
    if i < 0 || i >= states.len() {
        None
    } else if states[i].1 {
        Some(i)
    } else {
        first_dirty(states, i + 1)
    }
}

/// Refuse to touch a dirty tree: the migration's safety net is that its
/// diff can be reviewed on its own, and unrelated edits would spoil that.
/// `dirty` pairs each notebook's name with whether it is a repository with
/// uncommitted changes.
pub fn refuse_dirty(apply: bool, allow_dirty: bool, dirty: &Vec<(String, bool)>) -> (r: Option<String>)
    ensures
        !apply || allow_dirty ==> r is None,
        apply && !allow_dirty ==> match first_dirty(dirty@, 0) {
            Some(k) => r matches Some(m) && m@ == "notebook `"@ + dirty@[k].0@
                + "` has uncommitted changes; commit them first or pass --allow-dirty"@,
            None => r is None,
        },
{
    if !apply || allow_dirty {
        return None;
    }
    let mut i: usize = 0;
    while i < dirty.len()
        invariant
            i <= dirty@.len(),
            apply && !allow_dirty,
            first_dirty(dirty@, 0) == first_dirty(dirty@, i as int),
        decreases dirty@.len() - i,
    {
        if dirty[i].1 {
            let mut m = chars_of("notebook `");
            extend_str(&mut m, dirty[i].0.as_str());
            extend_str(&mut m, "` has uncommitted changes; commit them first or pass --allow-dirty");
            return Some(string_of(&m));
        }
        i += 1;
    }
    None
}

/// The keys of a plan, joined for display.
pub open spec fn plan_keys(added: Seq<(String, String)>) -> Seq<Seq<char>> {
    added.map_values(|p: (String, String)| p.0@)
}

/// `key: value` lines, indented, for a verbose report.
pub open spec fn value_lines(added: Seq<(String, String)>, n: int) -> Seq<char>
    decreases n,
{
    if n <= 0 {
        seq![]
    } else {
        value_lines(added, n - 1) + "      "@ + added[n - 1].0@ + ": "@ + added[n - 1].1@ + "\n"@
    }
}

/// One plan's lines in the report.
pub open spec fn plan_text(style: Style, p: crate::migrate::Plan, verbose: bool) -> Seq<char> {
    wrapped(
        style.enabled,
        crate::output::colour_code(style.theme.primary),
        p.notebook@ + "/"@ + p.rel_path@,
    ) + "  "@ + wrapped(style.enabled, "2"@, "+ "@ + crate::text::join_with(plan_keys(p.added@), ", "@))
        + "\n"@ + if verbose {
        value_lines(p.added@, p.added@.len() as int)
    } else {
        seq![]
    }
}

pub open spec fn plans_text(style: Style, plans: Seq<crate::migrate::Plan>, verbose: bool, n: int) -> Seq<char>
    decreases n,
{
    if n <= 0 {
        seq![]
    } else {
        plans_text(style, plans, verbose, n - 1) + plan_text(style, plans[n - 1], verbose)
    }
}

fn plan_lines(out: &mut Vec<char>, style: &Style, p: &crate::migrate::Plan, verbose: bool)
    ensures
        final(out)@ == old(out)@ + plan_text(*style, *p, verbose),
{
    let mut label = chars_of(p.notebook.as_str());
    extend_str(&mut label, "/");
    extend_str(&mut label, p.rel_path.as_str());
    let l = string_of(&label);
    extend_str(out, style.path(l.as_str()).as_str());
    extend_str(out, "  ");
    let ghost keys = plan_keys(p.added@);
    let mut k = chars_of("+ ");
    let ghost start = k@;
    for i in 0..p.added.len()
        invariant
            keys == plan_keys(p.added@),
            k@ == start + crate::text::join_with(keys.take(i as int), ", "@),
    {
        proof {
            crate::text::lemma_join_with_push(keys.take(i as int), ", "@, keys[i as int]);
            assert(keys.take(i + 1) =~= keys.take(i as int).push(keys[i as int]));
        }
        if i > 0 {
            extend_str(&mut k, ", ");
        }
        extend_str(&mut k, p.added[i].0.as_str());
        assert(k@ =~= start + crate::text::join_with(keys.take(i + 1), ", "@));
    }
    assert(keys.take(p.added@.len() as int) =~= keys);
    let ks = string_of(&k);
    extend_str(out, style.dim(ks.as_str()).as_str());
    extend_str(out, "\n");
    if verbose {
        for i in 0..p.added.len()
            invariant
                out@ == old(out)@ + wrapped(
                    style.enabled,
                    crate::output::colour_code(style.theme.primary),
                    p.notebook@ + "/"@ + p.rel_path@,
                ) + "  "@ + wrapped(style.enabled, "2"@, "+ "@ + crate::text::join_with(plan_keys(p.added@), ", "@))
                    + "\n"@ + value_lines(p.added@, i as int),
        {
            extend_str(out, "      ");
            extend_str(out, p.added[i].0.as_str());
            extend_str(out, ": ");
            extend_str(out, p.added[i].1.as_str());
            extend_str(out, "\n");
        }
    }
    assert(out@ =~= old(out)@ + plan_text(*style, *p, verbose));
}

/// The migration report: each planned note with the keys it gains, then how
/// many of `total` notes need frontmatter, then what happens next. The
/// second text is printed once the plans are written.
pub fn migrate_notes(
    style: &Style,
    plans: &Vec<crate::migrate::Plan>,
    total: usize,
    apply: bool,
    verbose: bool,
) -> (r: (String, String))
    ensures
        r.0@ == plans_text(*style, plans@, verbose, plans@.len() as int) + "\n"@ + decimal(
            plans@.len() as nat,
        ) + " of "@ + decimal(total as nat) + " notes need frontmatter.\n"@ + if apply {
            seq![]
        } else {
            wrapped(style.enabled, "2"@, "Nothing written — pass --apply to write."@) + "\n"@
        },
        r.1@ == if apply {
            "Wrote "@ + decimal(plans@.len() as nat) + " note(s).\n"@
        } else {
            seq![]
        },
{
    let mut out: Vec<char> = Vec::new();
    for i in 0..plans.len()
        invariant
            out@ == plans_text(*style, plans@, verbose, i as int),
    {
        plan_lines(&mut out, style, &plans[i], verbose);
    }
    extend_str(&mut out, "\n");
    extend_str(&mut out, usize_to_string(plans.len()).as_str());
    extend_str(&mut out, " of ");
    extend_str(&mut out, usize_to_string(total).as_str());
    extend_str(&mut out, " notes need frontmatter.\n");
    let mut closing: Vec<char> = Vec::new();
    if !apply {
        extend_str(&mut out, style.dim("Nothing written — pass --apply to write.").as_str());
        extend_str(&mut out, "\n");
    } else {
        extend_str(&mut closing, "Wrote ");
        extend_str(&mut closing, usize_to_string(plans.len()).as_str());
        extend_str(&mut closing, " note(s).\n");
    }
    (string_of(&out), string_of(&closing))
}

// ───────────────────────── plugins / env ─────────────────────────

pub open spec fn plugin_line(p: crate::plugins::Plugin, paths: bool) -> Seq<char> {
    if paths {
        p.path@ + "\n"@
    } else {
        p.name@ + if crate::plugins::theme_path(p.path@) {
            " (theme)"@
        } else {
            seq![]
        } + "\n"@
    }
}

pub open spec fn plugin_lines(v: Seq<crate::plugins::Plugin>, name: Option<Seq<char>>, paths: bool, n: int) -> Seq<char>
    decreases n,
{
    if n <= 0 {
        seq![]
    } else {
        plugin_lines(v, name, paths, n - 1) + match name {
            Some(x) => if v[n - 1].name@ == x {
                plugin_line(v[n - 1], paths)
            } else {
                seq![]
            },
            None => plugin_line(v[n - 1], paths),
        }
    }
}

/// List installed plugins, all or those named `name`: their paths, or their
/// names with themes marked.
pub fn plugins(installed: &Vec<crate::plugins::Plugin>, name: Option<&str>, paths: bool) -> (r: String)
    ensures
        r@ == plugin_lines(
            installed@,
            match name {
                Some(x) => Some(x@),
                None => None,
            },
            paths,
            installed@.len() as int,
        ),
{
    let mut out: Vec<char> = Vec::new();
    for i in 0..installed.len()
        invariant
            out@ == plugin_lines(
                installed@,
                match name {
                    Some(x) => Some(x@),
                    None => None,
                },
                paths,
                i as int,
            ),
    {
        let p = &installed[i];
        let wanted = match name {
            Some(x) => str_eq(p.name.as_str(), x),
            None => true,
        };
        let ghost before = out@;
        if wanted {
            if paths {
                extend_str(&mut out, p.path.as_str());
            } else {
                extend_str(&mut out, p.name.as_str());
                if p.is_theme() {
                    extend_str(&mut out, " (theme)");
                }
            }
            extend_str(&mut out, "\n");
        }
        assert(out@ =~= before + match name {
            Some(x) => if p.name@ == x@ {
                plugin_line(*p, paths)
            } else {
                seq![]
            },
            None => plugin_line(*p, paths),
        });
    }
    string_of(&out)
}

} // verus!
