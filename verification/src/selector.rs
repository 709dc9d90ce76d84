//! Parsing `nb`-style item references.
//!
//! Almost every command takes the same shape of argument:
//!
//! ```text
//! [<notebook>:][<folder-path>/][<id> | <filename> | <title>]
//! ```

use vstd::prelude::*;

use crate::text::texts;

use crate::paths::{join, join_chars};
use crate::text::{
    chars_of, decimal, extend_chars, find_char, find_char_from, lemma_find_char_facts,
    parse_unsigned, parse_unsigned_exec, piece_ranges, pieces, pieces_acc, push_char, push_str, slice_vec,
    spans, split_once, string_of, trim, trim_range, usize_to_string,
};

verus! {

/// What the trailing part of a selector names.
#[derive(Debug, PartialEq, Eq)]
pub enum Target {
    /// A bare number — an index id.
    Id(usize),
    /// Anything else: matched against filenames first, then titles.
    Name(String),
}

/// A parsed reference to an item, folder, or notebook.
#[derive(Debug, PartialEq, Eq)]
pub struct Selector {
    pub notebook: Option<String>,
    /// Folder components between the notebook and the target.
    pub folder: Vec<String>,
    pub target: Option<Target>,
}

pub open spec fn opt_text(o: Option<String>) -> Option<Seq<char>> {
    match o {
        Some(s) => Some(s@),
        None => None,
    }
}


/// The selector text once trimmed.
pub open spec fn sel_input(input: Seq<char>) -> Seq<char> {
    trim(input)
}

/// Whether the text before the first colon names a notebook: it must be
/// non-empty, and what follows must not open with `//` as a URL's would.
pub open spec fn has_scope(s: Seq<char>) -> bool {
    match split_once(s, ':') {
        Some((name, rest)) => name.len() > 0 && !(rest.len() >= 2 && rest[0] == '/' && rest[1]
            == '/'),
        None => false,
    }
}

/// The notebook a selector names.
pub open spec fn sel_notebook(input: Seq<char>) -> Option<Seq<char>> {
    let s = sel_input(input);
    if has_scope(s) {
        Some(split_once(s, ':').unwrap().0)
    } else {
        None
    }
}

/// The part after the notebook scope.
pub open spec fn sel_rest(input: Seq<char>) -> Seq<char> {
    let s = sel_input(input);
    if has_scope(s) {
        split_once(s, ':').unwrap().1
    } else {
        s
    }
}

pub open spec fn sel_trailing_slash(input: Seq<char>) -> bool {
    let r = sel_rest(input);
    r.len() > 0 && r.last() == '/'
}

/// The folder components a selector names.
pub open spec fn sel_folder(input: Seq<char>) -> Seq<Seq<char>> {
    let p = pieces(sel_rest(input), '/');
    if sel_trailing_slash(input) || p.len() == 0 {
        p
    } else {
        p.drop_last()
    }
}

/// The text of the target, if there is one.
pub open spec fn sel_target(input: Seq<char>) -> Option<Seq<char>> {
    let p = pieces(sel_rest(input), '/');
    if sel_trailing_slash(input) || p.len() == 0 {
        None
    } else {
        Some(p.last())
    }
}

/// A target piece read as an id when it is a number that fits.
pub open spec fn target_matches(t: Option<Target>, part: Option<Seq<char>>) -> bool {
    match part {
        None => t is None,
        Some(text) => match parse_unsigned(text, usize::MAX as nat) {
            Some(n) => t == Some(Target::Id(n as usize)),
            None => t matches Some(Target::Name(name)) && name@ == text,
        },
    }
}

/// A target as the user would write it.
pub open spec fn target_text(t: Target) -> Seq<char> {
    match t {
        Target::Id(id) => decimal(id as nat),
        Target::Name(name) => name@,
    }
}

/// `PathBuf` collected from path components.
pub open spec fn join_all(parts: Seq<Seq<char>>) -> Seq<char>
    decreases parts.len(),
{
    if parts.len() == 0 {
        seq![]
    } else {
        join(join_all(parts.drop_last()), parts.last())
    }
}

/// Folders written back out, each followed by a slash.
pub open spec fn folders_text(parts: Seq<Seq<char>>) -> Seq<char>
    decreases parts.len(),
{
    if parts.len() == 0 {
        seq![]
    } else {
        folders_text(parts.drop_last()) + parts.last() + seq!['/']
    }
}

/// A selector rendered back the way the user wrote it.
pub open spec fn describe_text(s: Selector) -> Seq<char> {
    (match s.notebook {
        Some(n) => n@ + seq![':'],
        None => seq![],
    }) + folders_text(texts(s.folder@)) + match s.target {
        Some(t) => target_text(t),
        None => seq![],
    }
}

impl Selector {
    /// The empty selector.
    pub fn empty() -> (r: Selector)
        ensures
            r.notebook is None,
            r.folder@.len() == 0,
            r.target is None,
    {
        Selector { notebook: None, folder: Vec::new(), target: None }
    }

    /// Parse a selector.
    ///
    /// The notebook prefix ends at the first colon, so `home:knowledge/3` splits
    /// into notebook `home`, folder `knowledge`, target `3`. A trailing slash
    /// means the whole path is folders and there is no target.
    pub fn parse(input: &str) -> (r: Selector)
        ensures
            opt_text(r.notebook) == sel_notebook(input@),
            texts(r.folder@) == sel_folder(input@),
            target_matches(r.target, sel_target(input@)),
    {
        let all = chars_of(input);
        let (a, b) = trim_range(&all, 0, all.len());
        assert(all@.subrange(0, all@.len() as int) =~= all@);
        let s = slice_vec(&all, a, b);
        proof {
            lemma_find_char_facts(s@, ':', 0);
        }
        let (notebook, rest): (Option<String>, Vec<char>) = match find_char(&s, ':', 0) {
            Some(k) => {
                let after = k + 1;
                if k > 0 && !(s.len() - after >= 2 && s[after] == '/' && s[after + 1] == '/') {
                    proof {
                        let rest = s@.skip(after as int);
                        if rest.len() >= 2 {
                            assert(rest[0] == s@[after as int]);
                            assert(rest[1] == s@[after + 1]);
                        }
                    }
                    (Some(string_of(&slice_vec(&s, 0, k))), slice_vec(&s, after, s.len()))
                } else {
                    proof {
                        let rest = s@.skip(after as int);
                        if s@.len() - after >= 2 {
                            assert(rest[0] == s@[after as int]);
                            assert(rest[1] == s@[after + 1]);
                        }
                    }
                    (None, slice_vec(&s, 0, s.len()))
                }
            },
            None => (None, slice_vec(&s, 0, s.len())),
        };
        proof {
            assert(s@.subrange(0, s@.len() as int) =~= s@);
            assert(s@.skip((find_char_from(s@, ':', 0).unwrap_or(0) + 1)) =~= s@.subrange(
                find_char_from(s@, ':', 0).unwrap_or(0) + 1,
                s@.len() as int,
            ));
            assert(rest@ == sel_rest(input@));
        }
        let trailing = rest.len() > 0 && rest[rest.len() - 1] == '/';
        let ranges = piece_ranges(&rest, '/');
        let mut folder: Vec<String> = Vec::new();
        let n = ranges.len();
        let keep = if trailing || n == 0 {
            n
        } else {
            n - 1
        };
        for k in 0..keep
            invariant
                keep <= ranges@.len(),
                spans(rest@, ranges@) == pieces(rest@, '/'),
                crate::text::ranges_within(ranges@, rest@.len() as int),
                texts(folder@) == pieces(rest@, '/').take(k as int),
        {
            let (x, y) = ranges[k];
            assert(ranges@[k as int].0 <= ranges@[k as int].1 <= rest@.len());
            let part = string_of(&slice_vec(&rest, x, y));
            let ghost before = folder@;
            folder.push(part);
            proof {
                assert(spans(rest@, ranges@)[k as int] == rest@.subrange(x as int, y as int));
                assert(texts(folder@) =~= texts(before).push(part@));
                assert(pieces(rest@, '/').take(k + 1) =~= pieces(rest@, '/').take(k as int).push(
                    pieces(rest@, '/')[k as int],
                ));
            }
        }
        proof {
            if trailing || n == 0 {
                assert(pieces(rest@, '/').take(n as int) =~= pieces(rest@, '/'));
            } else {
                assert(pieces(rest@, '/').take((n - 1) as int) =~= pieces(rest@, '/').drop_last());
            }
        }
        let target = if trailing || n == 0 {
            None
        } else {
            let (x, y) = ranges[n - 1];
            assert(ranges@[n - 1].0 <= ranges@[n - 1].1 <= rest@.len());
            assert(spans(rest@, ranges@)[n - 1] == rest@.subrange(x as int, y as int));
            let part = slice_vec(&rest, x, y);
            Some(Self::classify(&part))
        };
        Selector { notebook, folder, target }
    }

    fn classify(part: &[char]) -> (r: Target)
        ensures
            target_matches(Some(r), Some(part@)),
    {
        match parse_unsigned_exec(part, usize::MAX as u64) {
            Some(id) => Target::Id(id as usize),
            None => Target::Name(string_of(part)),
        }
    }

    /// Whether this names only a notebook, e.g. `home:`.
    pub fn is_notebook_only(&self) -> (r: bool)
        ensures
            r == (self.notebook is Some && self.folder@.len() == 0 && self.target is None),
    {
        self.notebook.is_some() && self.folder.len() == 0 && self.target.is_none()
    }

    /// The folder path relative to the notebook root.
    pub fn folder_path(&self) -> (r: String)
        ensures
            r@ == join_all(texts(self.folder@)),
    {
        let mut acc: Vec<char> = Vec::new();
        for k in 0..self.folder.len()
            invariant
                acc@ == join_all(texts(self.folder@).take(k as int)),
        {
            let part = chars_of(self.folder[k].as_str());
            acc = join_chars(&acc, &part);
            proof {
                assert(texts(self.folder@).take(k + 1).drop_last() =~= texts(self.folder@).take(
                    k as int,
                ));
            }
        }
        proof {
            assert(texts(self.folder@).take(self.folder@.len() as int) =~= texts(self.folder@));
        }
        string_of(&acc)
    }
}

/// What a selector resolved to.
#[derive(Debug, PartialEq, Eq)]
pub enum Resolved {
    Note { path: String, id: Option<usize> },
    Folder { path: String, id: Option<usize> },
    Notebook { name: String, root: String },
}

impl Resolved {
    /// The path of the item, folder, or notebook root.
    pub fn path(&self) -> (r: &str)
        ensures
            r@ == match self {
                Resolved::Note { path, .. } => path@,
                Resolved::Folder { path, .. } => path@,
                Resolved::Notebook { root, .. } => root@,
            },
    {
        match self {
            Resolved::Note { path, .. } => path.as_str(),
            Resolved::Folder { path, .. } => path.as_str(),
            Resolved::Notebook { root, .. } => root.as_str(),
        }
    }

    pub fn is_note(&self) -> (r: bool)
        ensures
            r == (self is Note),
    {
        match self {
            Resolved::Note { .. } => true,
            _ => false,
        }
    }
}

/// Render a selector back the way the user wrote it, for error messages.
pub fn describe(selector: &Selector) -> (r: String)
    ensures
        r@ == describe_text(*selector),
{
    let mut out = String::new();
    let ghost nb: Seq<char> = match &selector.notebook {
        Some(n) => n@ + seq![':'],
        None => seq![],
    };
    match &selector.notebook {
        Some(notebook) => {
            push_str(&mut out, notebook.as_str());
            push_char(&mut out, ':');
        },
        None => {},
    }
    assert(out@ =~= nb);
    for k in 0..selector.folder.len()
        invariant
            out@ == nb + folders_text(texts(selector.folder@).take(k as int)),
    {
        push_str(&mut out, selector.folder[k].as_str());
        push_char(&mut out, '/');
        proof {
            assert(texts(selector.folder@).take(k + 1).drop_last() =~= texts(selector.folder@).take(
                k as int,
            ));
            assert(out@ =~= nb + folders_text(texts(selector.folder@).take(k + 1)));
        }
    }
    proof {
        assert(texts(selector.folder@).take(selector.folder@.len() as int) =~= texts(
            selector.folder@,
        ));
    }
    let ghost before = out@;
    match &selector.target {
        Some(Target::Id(id)) => {
            let t = usize_to_string(*id);
            push_str(&mut out, t.as_str());
        },
        Some(Target::Name(name)) => push_str(&mut out, name.as_str()),
        None => {},
    }
    proof {
        if selector.target is None {
            assert(out@ =~= before + Seq::<char>::empty());
        }
    }
    out
}

/// How a name can match a directory entry or a note's title, in the order
/// they are tried.
pub enum NameMatch {
    /// The entry's name is the needle.
    Exact,
    /// The entry's name without its extension is the needle.
    Stem,
    /// The note's title is the needle.
    Title,
    /// The note's title is the needle in another case.
    TitleFolded,
}

pub open spec fn name_matches(how: NameMatch, text: Seq<char>, needle: Seq<char>) -> bool {
    match how {
        NameMatch::Exact => text == needle,
        NameMatch::Stem => crate::paths::file_stem(text) == Some(needle),
        NameMatch::Title => text == needle,
        NameMatch::TitleFolded => crate::text::eq_ignore_case(text, needle),
    }
}

/// The first of `v` from `i` on that matches the needle `how`.
pub open spec fn first_match(v: Seq<Seq<char>>, how: NameMatch, needle: Seq<char>, i: int) -> Option<int>
    decreases v.len() - i,
{
    if i < 0 || i >= v.len() {
        None
    } else if name_matches(how, v[i], needle) {
        Some(i)
    } else {
        first_match(v, how, needle, i + 1)
    }
}

/// Which item a name picks in a directory: an entry named exactly so, else
/// one whose name without its extension is, else a note titled exactly so,
/// else one titled so in another case. `titles` pairs the directory's notes
/// (its entries that are not folders) with their titles.
pub open spec fn picked_by_name(
    entries: Seq<Seq<char>>,
    titles: Seq<(Seq<char>, Seq<char>)>,
    needle: Seq<char>,
) -> Option<Seq<char>> {
    let ts = titles.map_values(|p: (Seq<char>, Seq<char>)| p.1);
    match first_match(entries, NameMatch::Exact, needle, 0) {
        Some(k) => Some(entries[k]),
        None => match first_match(entries, NameMatch::Stem, needle, 0) {
            Some(k) => Some(entries[k]),
            None => match first_match(ts, NameMatch::Title, needle, 0) {
                Some(k) => Some(titles[k].0),
                None => match first_match(ts, NameMatch::TitleFolded, needle, 0) {
                    Some(k) => Some(titles[k].0),
                    None => None,
                },
            },
        },
    }
}

proof fn lemma_first_match(v: Seq<Seq<char>>, how: NameMatch, needle: Seq<char>, i: int)
    requires
        0 <= i,
    ensures
        first_match(v, how, needle, i) matches Some(k) ==> i <= k < v.len(),
    decreases v.len() - i,
{
    if i < v.len() && !name_matches(how, v[i], needle) {
        lemma_first_match(v, how, needle, i + 1);
    }
}

pub open spec fn title_pairs(v: Seq<(String, String)>) -> Seq<(Seq<char>, Seq<char>)> {
    v.map_values(|p: (String, String)| (p.0@, p.1@))
}

fn matches_how(how: &NameMatch, text: &str, needle: &[char]) -> (r: bool)
    ensures
        r == name_matches(*how, text@, needle@),
{
    match how {
        NameMatch::Exact | NameMatch::Title => crate::text::chars_eq(&chars_of(text), needle),
        NameMatch::Stem => match crate::paths::file_stem_of(&chars_of(text)) {
            Some(st) => crate::text::chars_eq(&st, needle),
            None => false,
        },
        NameMatch::TitleFolded => crate::text::eq_ignore_case_exec(&chars_of(text), needle),
    }
}

fn scan_entries(entries: &Vec<String>, how: NameMatch, needle: &[char]) -> (r: Option<usize>)
    ensures
        r matches Some(i) ==> first_match(texts(entries@), how, needle@, 0) == Some(i as int),
        r is None ==> first_match(texts(entries@), how, needle@, 0) is None,
{
    let ghost es = texts(entries@);
    let mut i: usize = 0;
    while i < entries.len()
        invariant
            i <= entries@.len(),
            es == texts(entries@),
            first_match(es, how, needle@, 0) == first_match(es, how, needle@, i as int),
        decreases entries@.len() - i,
    {
        assert(es[i as int] == entries@[i as int]@);
        if matches_how(&how, entries[i].as_str(), needle) {
            return Some(i);
        }
        i += 1;
    }
    None
}

fn scan_titles(titles: &Vec<(String, String)>, how: NameMatch, needle: &[char]) -> (r: Option<usize>)
    ensures
        r matches Some(i) ==> first_match(
            title_pairs(titles@).map_values(|p: (Seq<char>, Seq<char>)| p.1),
            how,
            needle@,
            0,
        ) == Some(i as int),
        r is None ==> first_match(
            title_pairs(titles@).map_values(|p: (Seq<char>, Seq<char>)| p.1),
            how,
            needle@,
            0,
        ) is None,
{
    let ghost ts = title_pairs(titles@).map_values(|p: (Seq<char>, Seq<char>)| p.1);
    let mut i: usize = 0;
    while i < titles.len()
        invariant
            i <= titles@.len(),
            ts == title_pairs(titles@).map_values(|p: (Seq<char>, Seq<char>)| p.1),
            first_match(ts, how, needle@, 0) == first_match(ts, how, needle@, i as int),
        decreases titles@.len() - i,
    {
        assert(ts[i as int] == titles@[i as int].1@);
        if matches_how(&how, titles[i].1.as_str(), needle) {
            return Some(i);
        }
        i += 1;
    }
    None
}

/// Match a name against filenames, then titles: a reference can be whatever
/// the user remembers. `entries` are the directory's visible names, in the
/// order read; `titles` the notes among them with their titles.
pub fn find_by_name(entries: &Vec<String>, titles: &Vec<(String, String)>, needle: &str) -> (r: Option<String>)
    ensures
        match picked_by_name(texts(entries@), title_pairs(titles@), needle@) {
            Some(n) => r matches Some(x) && x@ == n,
            None => r is None,
        },
{
    let nc = chars_of(needle);
    proof {
        let ts = title_pairs(titles@).map_values(|p: (Seq<char>, Seq<char>)| p.1);
        lemma_first_match(texts(entries@), NameMatch::Exact, needle@, 0);
        lemma_first_match(texts(entries@), NameMatch::Stem, needle@, 0);
        lemma_first_match(ts, NameMatch::Title, needle@, 0);
        lemma_first_match(ts, NameMatch::TitleFolded, needle@, 0);
    }
    match scan_entries(entries, NameMatch::Exact, &nc) {
        Some(k) => {
            assert(texts(entries@)[k as int] == entries@[k as int]@);
            return Some(crate::text::copy_string(&entries[k]));
        },
        None => {},
    }
    match scan_entries(entries, NameMatch::Stem, &nc) {
        Some(k) => {
            assert(texts(entries@)[k as int] == entries@[k as int]@);
            return Some(crate::text::copy_string(&entries[k]));
        },
        None => {},
    }
    match scan_titles(titles, NameMatch::Title, &nc) {
        Some(k) => {
            assert(title_pairs(titles@)[k as int] == (titles@[k as int].0@, titles@[k as int].1@));
            return Some(crate::text::copy_string(&titles[k].0));
        },
        None => {},
    }
    match scan_titles(titles, NameMatch::TitleFolded, &nc) {
        Some(k) => {
            assert(title_pairs(titles@)[k as int] == (titles@[k as int].0@, titles@[k as int].1@));
            Some(crate::text::copy_string(&titles[k].0))
        },
        None => None,
    }
}

// ───────────────────────── laws ─────────────────────────

/// A folder path with no empty component: no slash opens it or follows
/// another.
pub open spec fn no_empty_folders(s: Seq<char>) -> bool {
    forall|j: int| 0 <= j < s.len() && #[trigger] s[j] == '/' ==> j > 0 && s[j - 1] != '/'
}

proof fn lemma_pieces_scan(s: Seq<char>, st: int, i: int, e: int)
    requires
        0 <= st <= i <= e <= s.len(),
        forall|j: int| i <= j < e ==> s[j] != '/',
    ensures
        pieces_acc(s, '/', st, i) == pieces_acc(s, '/', st, e),
    decreases e - i,
{
    if i < e {
        assert(s[i] != '/');
        lemma_pieces_scan(s, st, i + 1, e);
    }
}

proof fn lemma_folders_prepend(x: Seq<char>, rest: Seq<Seq<char>>)
    ensures
        folders_text(seq![x] + rest) == x + seq!['/'] + folders_text(rest),
    decreases rest.len(),
{
    let xs = seq![x] + rest;
    if rest.len() == 0 {
        assert(xs.drop_last() =~= Seq::<Seq<char>>::empty());
        assert(xs.last() == x);
        assert(folders_text(xs.drop_last()) == Seq::<char>::empty());
        assert(folders_text(rest) == Seq::<char>::empty());
        assert(folders_text(xs) == folders_text(xs.drop_last()) + xs.last() + seq!['/']);
        assert(folders_text(xs) =~= x + seq!['/'] + folders_text(rest));
    } else {
        lemma_folders_prepend(x, rest.drop_last());
        assert(xs.drop_last() =~= seq![x] + rest.drop_last());
        assert(xs.last() == rest.last());
        assert(folders_text(xs) =~= x + seq!['/'] + folders_text(rest));
    }
}

proof fn lemma_pieces_join(s: Seq<char>, st: int)
    requires
        no_empty_folders(s),
        0 <= st <= s.len(),
        st == 0 || s[st - 1] == '/',
    ensures
        folders_text(pieces_acc(s, '/', st, st)) == s.skip(st) + (if st < s.len() && s.last() != '/' {
            seq!['/']
        } else {
            seq![]
        }),
    decreases s.len() - st,
{
    if st == s.len() {
        assert(pieces_acc(s, '/', st, st) =~= Seq::<Seq<char>>::empty());
        assert(s.skip(st) =~= Seq::<char>::empty());
    } else {
        assert(s[st] != '/');
        lemma_find_char_facts(s, '/', st);
        match find_char_from(s, '/', st) {
            Some(e) => {
                lemma_pieces_scan(s, st, st, e);
                assert(pieces_acc(s, '/', st, e) == seq![s.subrange(st, e)] + pieces_acc(s, '/', e + 1, e + 1));
                lemma_pieces_join(s, e + 1);
                lemma_folders_prepend(s.subrange(st, e), pieces_acc(s, '/', e + 1, e + 1));
                assert(s.skip(st) =~= s.subrange(st, e) + seq!['/'] + s.skip(e + 1));
                if e + 1 == s.len() {
                    assert(s.last() == '/');
                }
            },
            None => {
                lemma_pieces_scan(s, st, st, s.len() as int);
                assert(s.subrange(st, s.len() as int) =~= s.skip(st));
                assert(s.last() != '/');
                lemma_folders_prepend(s.skip(st), Seq::<Seq<char>>::empty());
                assert(seq![s.skip(st)] + Seq::<Seq<char>>::empty() =~= seq![s.skip(st)]);
            },
        }
    }
}

proof fn lemma_scope_split(input: Seq<char>)
    requires
        trim(input) == input,
    ensures
        (match sel_notebook(input) {
            Some(n) => n + seq![':'],
            None => seq![],
        }) + sel_rest(input) == input,
{
    let s = sel_input(input);
    lemma_find_char_facts(s, ':', 0);
    if has_scope(s) {
        let k = find_char_from(s, ':', 0).unwrap();
        assert(s =~= s.take(k) + seq![':'] + s.skip(k + 1));
    } else {
        assert(Seq::<char>::empty() + s =~= s);
    }
}

proof fn lemma_rest_described(input: Seq<char>, r: Selector)
    requires
        no_empty_folders(sel_rest(input)),
        sel_target(input) matches Some(t) ==> (parse_unsigned(t, usize::MAX as nat) matches Some(n)
            ==> decimal(n) == t),
        texts(r.folder@) == sel_folder(input),
        target_matches(r.target, sel_target(input)),
    ensures
        folders_text(texts(r.folder@)) + (match r.target {
            Some(t) => target_text(t),
            None => seq![],
        }) == sel_rest(input),
{
    let rest = sel_rest(input);
    let p = pieces(rest, '/');
    lemma_pieces_join(rest, 0);
    assert(rest.skip(0) =~= rest);
    let ft = folders_text(texts(r.folder@));
    if sel_trailing_slash(input) || p.len() == 0 {
        assert(r.target is None);
        if sel_trailing_slash(input) {
            assert(folders_text(p) =~= rest);
        } else {
            if rest.len() > 0 && rest.last() != '/' {
                assert(folders_text(p) =~= rest + seq!['/']);
                assert(folders_text(p).len() == 0);
            }
            assert(rest.len() == 0);
            assert(ft =~= rest);
        }
        assert(ft + Seq::<char>::empty() =~= rest);
    } else {
        let text = p.last();
        assert(rest.len() > 0) by {
            if rest.len() == 0 {
                assert(p =~= Seq::<Seq<char>>::empty());
            }
        }
        assert(rest.last() != '/');
        assert(folders_text(p) =~= rest + seq!['/']);
        assert(texts(r.folder@) == p.drop_last());
        assert(folders_text(p) == ft + text + seq!['/']);
        let a = ft + text;
        assert(a =~= (a + seq!['/']).drop_last());
        assert(rest =~= (rest + seq!['/']).drop_last());
        assert(a == rest);
        match parse_unsigned(text, usize::MAX as nat) {
            Some(n) => {
                assert(r.target == Some(Target::Id(n as usize)));
                assert((n as usize) as nat == n);
            },
            None => {},
        }
    }
}

/// The notebook a selector names is what comes before its first `:`, and
/// the rest of the selector is what follows; text with no `:` names none.
/// A `:` followed by `//`, as in a URL, opens no scope.
pub proof fn lemma_scope_before_colon(nb: Seq<char>, rest: Seq<char>)
    requires
        nb.len() > 0,
        !nb.contains(':'),
        trim(nb + seq![':'] + rest) == nb + seq![':'] + rest,
    ensures
        !(rest.len() >= 2 && rest[0] == '/' && rest[1] == '/') ==> sel_notebook(nb + seq![':'] + rest)
            == Some(nb) && sel_rest(nb + seq![':'] + rest) == rest,
        rest.len() >= 2 && rest[0] == '/' && rest[1] == '/' ==> sel_notebook(nb + seq![':'] + rest)
            is None,
{
    let s = nb + seq![':'] + rest;
    lemma_find_char_facts(s, ':', 0);
    assert(s[nb.len() as int] == ':');
    assert forall|j: int| 0 <= j < nb.len() implies s[j] != ':' by {
        assert(s[j] == nb[j]);
        if nb[j] == ':' {
            assert(nb.contains(':'));
        }
    }
    let k = find_char_from(s, ':', 0).unwrap();
    assert(k == nb.len()) by {
        if k < nb.len() {
        } else if k > nb.len() {
        }
    }
    assert(s.take(k) =~= nb);
    assert(s.skip(k + 1) =~= rest);
}

/// Text without a `:` names no notebook, and all of it is the rest.
pub proof fn lemma_no_colon_no_scope(input: Seq<char>)
    requires
        !trim(input).contains(':'),
    ensures
        sel_notebook(input) is None,
        sel_rest(input) == trim(input),
{
    let s = trim(input);
    lemma_find_char_facts(s, ':', 0);
    if find_char_from(s, ':', 0) is Some {
        let k = find_char_from(s, ':', 0).unwrap();
        assert(s[k] == ':');
        assert(s.contains(':'));
    }
}

/// A selector describes back to the text it was parsed from, when that
/// text is trimmed, its folder path has no empty component, and a target
/// that reads as a number is written the way the number prints.
pub proof fn lemma_describe_parse(input: Seq<char>, r: Selector)
    requires
        trim(input) == input,
        no_empty_folders(sel_rest(input)),
        sel_target(input) matches Some(t) ==> (parse_unsigned(t, usize::MAX as nat) matches Some(n)
            ==> decimal(n) == t),
        opt_text(r.notebook) == sel_notebook(input),
        texts(r.folder@) == sel_folder(input),
        target_matches(r.target, sel_target(input)),
    ensures
        describe_text(r) == input,
{
    lemma_scope_split(input);
    lemma_rest_described(input, r);
    let nb: Seq<char> = match r.notebook {
        Some(n) => n@ + seq![':'],
        None => seq![],
    };
    assert(nb == match sel_notebook(input) {
        Some(n) => n + seq![':'],
        None => seq![],
    });
    assert(describe_text(r) =~= nb + sel_rest(input));
}

} // verus!
