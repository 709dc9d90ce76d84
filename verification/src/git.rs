//! Git, shelled out to `git` itself.
//!
//! Running `git` is the caller's part. This module says which arguments each
//! operation passes and reads what `git` prints back.

use vstd::prelude::*;

use crate::note::{parse_timestamp, timestamp_owed, Stamp};
use crate::text::{
    chars_eq, chars_of, extend_str, find_char, lemma_find_char_facts, lemma_rfind_char_facts,
    line_ranges, lines, ranges_within, rfind_char, rfind_char_before, slice_vec, spans, split_once,
    string_of, trim, trim_chars, copy_string,
};

verus! {

/// The words of a command line.
pub open spec fn words_of(args: Seq<String>) -> Seq<Seq<char>> {
    args.map_values(|a: String| a@)
}

fn args_of(words: &Vec<&str>) -> (r: Vec<String>)
    ensures
        words_of(r@) == words@.map_values(|w: &str| w@),
{
    let mut out: Vec<String> = Vec::new();
    for i in 0..words.len()
        invariant
            words_of(out@) == words@.map_values(|w: &str| w@).take(i as int),
    {
        let s = words[i].to_owned();
        let ghost before = out@;
        out.push(s);
        assert(words_of(out@) =~= words_of(before).push(s@));
        assert(words_of(out@) =~= words@.map_values(|w: &str| w@).take(i + 1));
    }
    assert(words@.map_values(|w: &str| w@).take(words@.len() as int) =~= words@.map_values(
        |w: &str| w@,
    ));
    out
}

/// Arguments that read every file's history in one pass: the commit date
/// before each commit's files, oldest first, with non-ASCII names unescaped.
pub fn history_args() -> (r: Vec<String>)
    ensures
        words_of(r@) == seq![
            "-c"@,
            "core.quotepath=false"@,
            "log"@,
            "--reverse"@,
            "--format=%x01%aI"@,
            "--name-only"@,
        ],
{
    let mut w: Vec<&str> = Vec::new();
    w.push("-c");
    w.push("core.quotepath=false");
    w.push("log");
    w.push("--reverse");
    w.push("--format=%x01%aI");
    w.push("--name-only");
    let r = args_of(&w);
    assert(w@.map_values(|x: &str| x@) =~= seq![
        "-c"@,
        "core.quotepath=false"@,
        "log"@,
        "--reverse"@,
        "--format=%x01%aI"@,
        "--name-only"@,
    ]);
    r
}

/// Arguments listing uncommitted changes.
pub fn status_args() -> (r: Vec<String>)
    ensures
        words_of(r@) == seq!["status"@, "--porcelain"@],
{
    let mut w: Vec<&str> = Vec::new();
    w.push("status");
    w.push("--porcelain");
    let r = args_of(&w);
    assert(w@.map_values(|x: &str| x@) =~= seq!["status"@, "--porcelain"@]);
    r
}

/// Whether `git status --porcelain` output shows a clean working tree.
pub fn is_clean(status_output: &str) -> (r: bool)
    ensures
        r == (trim(status_output@).len() == 0),
{
    trim_chars(&chars_of(status_output)).len() == 0
}

/// The directory whose presence marks a repository.
pub fn git_dir(path: &str) -> (r: String)
    ensures
        r@ == crate::paths::join(path@, ".git"@),
{
    crate::paths::join_str(path, ".git")
}

/// Arguments staging every change.
pub fn add_all() -> (r: Vec<String>)
    ensures
        words_of(r@) == seq!["add"@, "-A"@],
{
    let mut w: Vec<&str> = Vec::new();
    w.push("add");
    w.push("-A");
    let r = args_of(&w);
    assert(w@.map_values(|x: &str| x@) =~= seq!["add"@, "-A"@]);
    r
}

/// Arguments staging everything matching `pathspec`, e.g. `*.md`.
pub fn add(pathspec: &str) -> (r: Vec<String>)
    ensures
        words_of(r@) == seq!["add"@, "--"@, pathspec@],
{
    let mut w: Vec<&str> = Vec::new();
    w.push("add");
    w.push("--");
    w.push(pathspec);
    let r = args_of(&w);
    assert(w@.map_values(|x: &str| x@) =~= seq!["add"@, "--"@, pathspec@]);
    r
}

/// A staged change: its status letter and path.
#[derive(Debug, Clone, PartialEq, Eq)]
pub struct StagedChange {
    pub status: char,
    pub path: String,
}

impl StagedChange {
    pub fn is_addition(&self) -> (r: bool)
        ensures
            r == (self.status == 'A'),
    {
        self.status == 'A'
    }
}

/// Arguments listing staged changes with their status letters.
pub fn staged_args() -> (r: Vec<String>)
    ensures
        words_of(r@) == seq![
            "-c"@,
            "core.quotepath=false"@,
            "diff"@,
            "--cached"@,
            "--name-status"@,
        ],
{
    let mut w: Vec<&str> = Vec::new();
    w.push("-c");
    w.push("core.quotepath=false");
    w.push("diff");
    w.push("--cached");
    w.push("--name-status");
    let r = args_of(&w);
    assert(w@.map_values(|x: &str| x@) =~= seq![
        "-c"@,
        "core.quotepath=false"@,
        "diff"@,
        "--cached"@,
        "--name-status"@,
    ]);
    r
}

/// One line of `git diff --name-status`: the status letter and the path (for
/// a rename, the new one); nothing for a line without a tab.
pub open spec fn staged_line(line: Seq<char>) -> Option<(char, Seq<char>)> {
    match split_once(line, '\t') {
        Some((status, path)) => if status.len() > 0 {
            Some(
                (
                    status[0],
                    match rfind_char_before(path, '\t', path.len() as int) {
                        Some(k) => path.skip(k + 1),
                        None => path,
                    },
                ),
            )
        } else {
            None
        },
        None => None,
    }
}

/// The staged changes the first `n` lines describe.
pub open spec fn staged_from(ls: Seq<Seq<char>>, n: int) -> Seq<(char, Seq<char>)>
    decreases n,
{
    if n <= 0 {
        seq![]
    } else {
        match staged_line(ls[n - 1]) {
            Some(c) => staged_from(ls, n - 1).push(c),
            None => staged_from(ls, n - 1),
        }
    }
}

pub open spec fn changes_view(v: Seq<StagedChange>) -> Seq<(char, Seq<char>)> {
    v.map_values(|c: StagedChange| (c.status, c.path@))
}

proof fn lemma_changes_push(v: Seq<StagedChange>, c: StagedChange)
    ensures
        changes_view(v.push(c)) == changes_view(v).push((c.status, c.path@)),
{
    let l = changes_view(v.push(c));
    let r = changes_view(v).push((c.status, c.path@));
    assert(l.len() == r.len());
    assert forall|j: int| 0 <= j < l.len() implies l[j] == r[j] by {
        if j < v.len() {
            assert(v.push(c)[j] == v[j]);
        }
    }
    assert(l =~= r);
}

/// Read `git diff --cached --name-status` output.
pub fn staged_changes(output: &str) -> (r: Vec<StagedChange>)
    ensures
        changes_view(r@) == staged_from(lines(output@), lines(output@).len() as int),
{
    let t = chars_of(output);
    let ranges = line_ranges(&t);
    let ghost ls = lines(t@);
    let mut out: Vec<StagedChange> = Vec::new();
    for i in 0..ranges.len()
        invariant
            spans(t@, ranges@) == ls,
            ls == lines(output@),
            ranges_within(ranges@, t@.len() as int),
            changes_view(out@) == staged_from(ls, i as int),
    {
        let (a, b) = ranges[i];
        assert(ranges@[i as int].0 <= ranges@[i as int].1 <= t@.len());
        let line = slice_vec(&t, a, b);
        assert(line@ == ls[i as int]);
        match find_char(&line, '\t', 0) {
            Some(k) => {
                proof {
                    lemma_find_char_facts(line@, '\t', 0);
                }
                let n = line.len();
                let status = slice_vec(&line, 0, k);
                let path = slice_vec(&line, k + 1, n);
                if k > 0 {
                    let p = match rfind_char(&path, '\t', path.len()) {
                        Some(j) => {
                            proof {
                                lemma_rfind_char_facts(path@, '\t', path@.len() as int);
                            }
                            slice_vec(&path, j + 1, path.len())
                        },
                        None => path,
                    };
                    let c = StagedChange { status: line[0], path: string_of(&p) };
                    let ghost before = out@;
                    let ghost item = c;
                    out.push(c);
                    assert(status@[0] == line@[0]);
                    assert(out@ == before.push(item));
                    proof {
                        lemma_changes_push(before, item);
                    }
                }
            },
            None => {},
        }
    }
    out
}

/// Arguments that succeed only when the branch has an upstream.
pub fn upstream_args() -> (r: Vec<String>)
    ensures
        words_of(r@) == seq!["rev-parse"@, "--abbrev-ref"@, "@{upstream}"@],
{
    let mut w: Vec<&str> = Vec::new();
    w.push("rev-parse");
    w.push("--abbrev-ref");
    w.push("@{upstream}");
    let r = args_of(&w);
    assert(w@.map_values(|x: &str| x@) =~= seq!["rev-parse"@, "--abbrev-ref"@, "@{upstream}"@]);
    r
}

/// Arguments committing what is staged.
pub fn commit(message: &str) -> (r: Vec<String>)
    ensures
        words_of(r@) == seq!["commit"@, "-m"@, message@],
{
    let mut w: Vec<&str> = Vec::new();
    w.push("commit");
    w.push("-m");
    w.push(message);
    let r = args_of(&w);
    assert(w@.map_values(|x: &str| x@) =~= seq!["commit"@, "-m"@, message@]);
    r
}

/// Arguments pulling with rebase, stashing anything left in the working
/// tree.
///
/// These repositories routinely carry unrelated dirt — a nested checkout, an
/// index file some other tool rewrote — and without `--autostash` a rebase
/// refuses to start because of it.
pub fn pull_rebase() -> (r: Vec<String>)
    ensures
        words_of(r@) == seq!["pull"@, "--rebase"@, "--autostash"@],
{
    let mut w: Vec<&str> = Vec::new();
    w.push("pull");
    w.push("--rebase");
    w.push("--autostash");
    let r = args_of(&w);
    assert(w@.map_values(|x: &str| x@) =~= seq!["pull"@, "--rebase"@, "--autostash"@]);
    r
}

pub fn push() -> (r: Vec<String>)
    ensures
        words_of(r@) == seq!["push"@],
{
    let mut w: Vec<&str> = Vec::new();
    w.push("push");
    let r = args_of(&w);
    assert(w@.map_values(|x: &str| x@) =~= seq!["push"@]);
    r
}

pub fn init() -> (r: Vec<String>)
    ensures
        words_of(r@) == seq!["init"@, "-q"@],
{
    let mut w: Vec<&str> = Vec::new();
    w.push("init");
    w.push("-q");
    let r = args_of(&w);
    assert(w@.map_values(|x: &str| x@) =~= seq!["init"@, "-q"@]);
    r
}

/// Arguments cloning `url` into `into`, on `branch` when one is given.
pub fn clone_args(url: &str, into: &str, branch: Option<&str>) -> (r: Vec<String>)
    ensures
        words_of(r@) == match branch {
            Some(b) => seq!["clone"@, url@, into@, "--branch"@, b@],
            None => seq!["clone"@, url@, into@],
        },
{
    let mut w: Vec<&str> = Vec::new();
    w.push("clone");
    w.push(url);
    w.push(into);
    match branch {
        Some(b) => {
            w.push("--branch");
            w.push(b);
        },
        None => {},
    }
    let r = args_of(&w);
    assert(w@.map_values(|x: &str| x@) =~= match branch {
        Some(b) => seq!["clone"@, url@, into@, "--branch"@, b@],
        None => seq!["clone"@, url@, into@],
    });
    r
}

/// Arguments printing the current branch; its name is the output, trimmed.
pub fn branch_args() -> (r: Vec<String>)
    ensures
        words_of(r@) == seq!["rev-parse"@, "--abbrev-ref"@, "HEAD"@],
{
    let mut w: Vec<&str> = Vec::new();
    w.push("rev-parse");
    w.push("--abbrev-ref");
    w.push("HEAD");
    let r = args_of(&w);
    assert(w@.map_values(|x: &str| x@) =~= seq!["rev-parse"@, "--abbrev-ref"@, "HEAD"@]);
    r
}

/// The branch name in `git rev-parse --abbrev-ref HEAD` output.
pub fn current_branch(output: &str) -> (r: String)
    ensures
        r@ == trim(output@),
{
    string_of(&trim_chars(&chars_of(output)))
}

/// Arguments printing `origin`'s URL; the URL is the output, trimmed.
pub fn remote_url_args() -> (r: Vec<String>)
    ensures
        words_of(r@) == seq!["remote"@, "get-url"@, "origin"@],
{
    let mut w: Vec<&str> = Vec::new();
    w.push("remote");
    w.push("get-url");
    w.push("origin");
    let r = args_of(&w);
    assert(w@.map_values(|x: &str| x@) =~= seq!["remote"@, "get-url"@, "origin"@]);
    r
}

/// The URL in `git remote get-url origin` output.
pub fn remote_url(output: &str) -> (r: String)
    ensures
        r@ == trim(output@),
{
    string_of(&trim_chars(&chars_of(output)))
}

/// Arguments pointing `origin` at `url`: set when the remote exists, added
/// when it does not.
pub fn set_remote(url: &str, has_origin: bool) -> (r: Vec<String>)
    ensures
        words_of(r@) == if has_origin {
            seq!["remote"@, "set-url"@, "origin"@, url@]
        } else {
            seq!["remote"@, "add"@, "origin"@, url@]
        },
{
    let mut w: Vec<&str> = Vec::new();
    w.push("remote");
    w.push(if has_origin {
        "set-url"
    } else {
        "add"
    });
    w.push("origin");
    w.push(url);
    let r = args_of(&w);
    assert(w@.map_values(|x: &str| x@) =~= if has_origin {
        seq!["remote"@, "set-url"@, "origin"@, url@]
    } else {
        seq!["remote"@, "add"@, "origin"@, url@]
    });
    r
}

pub fn remove_remote() -> (r: Vec<String>)
    ensures
        words_of(r@) == seq!["remote"@, "remove"@, "origin"@],
{
    let mut w: Vec<&str> = Vec::new();
    w.push("remote");
    w.push("remove");
    w.push("origin");
    let r = args_of(&w);
    assert(w@.map_values(|x: &str| x@) =~= seq!["remote"@, "remove"@, "origin"@]);
    r
}

/// Arguments for a passthrough command: `-C` and the repository, then the
/// user's arguments as given.
pub fn run_raw(repo: &str, args: &Vec<String>) -> (r: Vec<String>)
    ensures
        words_of(r@) == seq!["-C"@, repo@] + words_of(args@),
{
    let mut out: Vec<String> = Vec::new();
    out.push("-C".to_owned());
    out.push(repo.to_owned());
    for i in 0..args.len()
        invariant
            words_of(out@) == seq!["-C"@, repo@] + words_of(args@).take(i as int),
    {
        let s = crate::text::copy_string(&args[i]);
        let ghost before = out@;
        out.push(s);
        assert(words_of(out@) =~= words_of(before).push(s@));
        assert(words_of(out@) =~= seq!["-C"@, repo@] + words_of(args@).take(i + 1));
    }
    assert(words_of(args@).take(args@.len() as int) =~= words_of(args@));
    out
}

/// The error for a git command that failed.
pub fn failure_message(args: &Vec<String>, repo: &str, stderr: &str) -> (r: String)
    ensures
        r@ == "git "@ + crate::text::join_with(words_of(args@), seq![' ']) + " failed in "@ + repo@
            + ": "@ + trim(stderr@),
{
    let mut out = chars_of("git ");
    let ghost start = out@;
    let ghost ws = words_of(args@);
    for i in 0..args.len()
        invariant
            ws == words_of(args@),
            out@ == start + crate::text::join_with(ws.take(i as int), seq![' ']),
    {
        proof {
            crate::text::lemma_join_with_push(ws.take(i as int), seq![' '], ws[i as int]);
            assert(ws.take(i + 1) =~= ws.take(i as int).push(ws[i as int]));
        }
        if i > 0 {
            out.push(' ');
        }
        extend_str(&mut out, args[i].as_str());
        assert(out@ =~= start + crate::text::join_with(ws.take(i + 1), seq![' ']));
    }
    assert(ws.take(args@.len() as int) =~= ws);
    extend_str(&mut out, " failed in ");
    extend_str(&mut out, repo);
    extend_str(&mut out, ": ");
    crate::text::extend_chars(&mut out, &trim_chars(&chars_of(stderr)));
    string_of(&out)
}

// ───────────────────────── history ─────────────────────────

/// When a file first appeared in history and when it last changed.
#[derive(Debug, Clone)]
pub struct FileHistory {
    pub created: Stamp,
    pub updated: Stamp,
}

/// Marks the start of a commit's record in the history output.
pub const RECORD: char = '\u{1}';

/// The history output read as records: for each line, the commit date it
/// opens (a line starting with the record mark), or the file it names (any
/// other line that is not empty).
pub enum HistoryLine {
    Date(Seq<char>),
    File(Seq<char>),
    Blank,
}

pub open spec fn history_line(line: Seq<char>) -> HistoryLine {
    if line.len() > 0 && line[0] == '\u{1}' {
        HistoryLine::Date(line.drop_first())
    } else if line.len() == 0 {
        HistoryLine::Blank
    } else {
        HistoryLine::File(line)
    }
}

/// The (file, commit date text) pairs of the first `n` lines: each file with
/// the date of the record it appears in; files before any record are left
/// out.
pub open spec fn file_dates(ls: Seq<Seq<char>>, n: int) -> Seq<(Seq<char>, Seq<char>)>
    decreases n,
{
    if n <= 0 {
        seq![]
    } else {
        match history_line(ls[n - 1]) {
            HistoryLine::File(f) => match current_date(ls, n - 1) {
                Some(d) => file_dates(ls, n - 1).push((f, d)),
                None => file_dates(ls, n - 1),
            },
            _ => file_dates(ls, n - 1),
        }
    }
}

/// The date of the record that line `n` falls in.
pub open spec fn current_date(ls: Seq<Seq<char>>, n: int) -> Option<Seq<char>>
    decreases n,
{
    if n <= 0 {
        None
    } else {
        match history_line(ls[n - 1]) {
            HistoryLine::Date(d) => Some(d),
            _ => current_date(ls, n - 1),
        }
    }
}

/// Read `git log --reverse --format=%x01%aI --name-only` output into
/// (file, date text) pairs, oldest first.
pub fn history_entries(output: &str) -> (r: Vec<(String, String)>)
    ensures
        r@.map_values(|p: (String, String)| (p.0@, p.1@)) == file_dates(
            lines(output@),
            lines(output@).len() as int,
        ),
{
    let t = chars_of(output);
    let ranges = line_ranges(&t);
    let ghost ls = lines(t@);
    let mut out: Vec<(String, String)> = Vec::new();
    let mut current: Option<Vec<char>> = None;
    for i in 0..ranges.len()
        invariant
            spans(t@, ranges@) == ls,
            ls == lines(output@),
            ranges_within(ranges@, t@.len() as int),
            out@.map_values(|p: (String, String)| (p.0@, p.1@)) == file_dates(ls, i as int),
            match current_date(ls, i as int) {
                Some(d) => current matches Some(c) && c@ == d,
                None => current is None,
            },
    {
        let (a, b) = ranges[i];
        assert(ranges@[i as int].0 <= ranges@[i as int].1 <= t@.len());
        let line = slice_vec(&t, a, b);
        assert(line@ == ls[i as int]);
        if line.len() > 0 && line[0] == '\u{1}' {
            let d = slice_vec(&line, 1, line.len());
            assert(d@ =~= line@.drop_first());
            current = Some(d);
        } else if line.len() > 0 {
            match &current {
                Some(d) => {
                    let entry = (string_of(&line), string_of(d));
                    let ghost before = out@;
                    out.push(entry);
                    assert(out@.map_values(|p: (String, String)| (p.0@, p.1@)) =~= before.map_values(
                        |p: (String, String)| (p.0@, p.1@),
                    ).push((entry.0@, entry.1@)));
                },
                None => {},
            }
        }
    }
    out
}


/// A dated file: its name and the plain values of the commit stamp.
pub type DatedView = (Seq<char>, (i64, i32, Seq<char>, Seq<char>, Seq<char>));

pub open spec fn dated_view(d: Seq<(String, Stamp)>) -> Seq<DatedView> {
    d.map_values(|p: (String, Stamp)| (p.0@, p.1.parts()))
}

/// A file's history as plain values: name, created, updated.
pub type HistoryView = (
    Seq<char>,
    (i64, i32, Seq<char>, Seq<char>, Seq<char>),
    (i64, i32, Seq<char>, Seq<char>, Seq<char>),
);

pub open spec fn history_view(r: Seq<(String, FileHistory)>) -> Seq<HistoryView> {
    r.map_values(|p: (String, FileHistory)| (p.0@, p.1.created.parts(), p.1.updated.parts()))
}

/// `i` is the first place `f` occurs in `d`.
pub open spec fn first_at(d: Seq<DatedView>, f: Seq<char>, i: int) -> bool {
    &&& 0 <= i < d.len()
    &&& d[i].0 == f
    &&& forall|j: int| 0 <= j < i ==> d[j].0 != f
}

/// `i` is the last place `f` occurs in `d`.
pub open spec fn last_at(d: Seq<DatedView>, f: Seq<char>, i: int) -> bool {
    &&& 0 <= i < d.len()
    &&& d[i].0 == f
    &&& forall|j: int| i < j < d.len() ==> d[j].0 != f
}

/// No file is named twice.
pub open spec fn distinct_names(r: Seq<HistoryView>) -> bool {
    forall|a: int, b: int| 0 <= a < b < r.len() ==> r[a].0 != r[b].0
}

/// `f` first appears in `d` dated `at`.
pub open spec fn first_dated(d: Seq<DatedView>, f: Seq<char>, at: (i64, i32, Seq<char>, Seq<char>, Seq<char>)) -> bool {
    exists|i: int| #[trigger] first_at(d, f, i) && d[i].1 == at
}

/// `f` last appears in `d` dated `at`.
pub open spec fn last_dated(d: Seq<DatedView>, f: Seq<char>, at: (i64, i32, Seq<char>, Seq<char>, Seq<char>)) -> bool {
    exists|i: int| #[trigger] last_at(d, f, i) && d[i].1 == at
}

/// `r` has an entry for `f`.
pub open spec fn has_entry(r: Seq<HistoryView>, f: Seq<char>) -> bool {
    exists|k: int| 0 <= k < r.len() && #[trigger] r[k].0 == f
}

/// Each entry's creation is its file's first dated appearance.
pub open spec fn created_first(d: Seq<DatedView>, r: Seq<HistoryView>) -> bool {
    forall|k: int| 0 <= k < r.len() ==> #[trigger] first_dated(d, r[k].0, r[k].1)
}

/// Each entry's update is its file's last dated appearance.
pub open spec fn updated_last(d: Seq<DatedView>, r: Seq<HistoryView>) -> bool {
    forall|k: int| 0 <= k < r.len() ==> #[trigger] last_dated(d, r[k].0, r[k].2)
}

/// Every dated file has an entry.
pub open spec fn covers(d: Seq<DatedView>, r: Seq<HistoryView>) -> bool {
    forall|i: int| 0 <= i < d.len() ==> #[trigger] has_entry(r, d[i].0)
}

/// `r` holds one entry per file named in `d`, each created at the file's
/// first dated appearance and updated at its last.
pub open spec fn histories_of(d: Seq<DatedView>, r: Seq<HistoryView>) -> bool {
    &&& distinct_names(r)
    &&& created_first(d, r)
    &&& updated_last(d, r)
    &&& covers(d, r)
}

/// One step of gathering: `r2` is `r` after the file of `d[n]` was added
/// (`k == -1`) or its entry `k` was moved forward to `d[n]`.
pub open spec fn gather_step(d: Seq<DatedView>, r: Seq<HistoryView>, r2: Seq<HistoryView>, n: int, k: int) -> bool {
    &&& 0 <= n < d.len()
    &&& k == -1 ==> (forall|j: int| 0 <= j < r.len() ==> r[j].0 != d[n].0) && r2 == r.push(
        (d[n].0, d[n].1, d[n].1),
    )
    &&& k != -1 ==> 0 <= k < r.len() && r[k].0 == d[n].0 && r2 == r.update(k, (d[n].0, r[k].1, d[n].1))
}

proof fn lemma_step_distinct(d: Seq<DatedView>, r: Seq<HistoryView>, r2: Seq<HistoryView>, n: int, k: int)
    requires
        gather_step(d, r, r2, n, k),
        distinct_names(r),
    ensures
        distinct_names(r2),
{
    assert forall|a: int, b: int| 0 <= a < b < r2.len() implies r2[a].0 != r2[b].0 by {
        if k == -1 {
            if b == r.len() {
                assert(r2[a] == r[a]);
            } else {
                assert(r2[a] == r[a] && r2[b] == r[b]);
            }
        } else {
            assert(r2[a].0 == r[a].0 && r2[b].0 == r[b].0);
        }
    }
}

proof fn lemma_step_cover(d: Seq<DatedView>, r: Seq<HistoryView>, r2: Seq<HistoryView>, n: int, k: int)
    requires
        gather_step(d, r, r2, n, k),
        covers(d.take(n), r),
    ensures
        covers(d.take(n + 1), r2),
{
    let p = d.take(n);
    let q = d.take(n + 1);
    assert forall|i: int| 0 <= i < q.len() implies #[trigger] has_entry(r2, q[i].0) by {
        if i == n {
            if k == -1 {
                assert(r2[r.len() as int].0 == q[i].0);
            } else {
                assert(r2[k].0 == q[i].0);
            }
        } else {
            assert(q[i] == p[i]);
            assert(has_entry(r, p[i].0));
            let m = choose|m: int| 0 <= m < r.len() && #[trigger] r[m].0 == p[i].0;
            assert(r2[m].0 == q[i].0);
        }
    }
}

proof fn lemma_step_first(d: Seq<DatedView>, r: Seq<HistoryView>, r2: Seq<HistoryView>, n: int, k: int)
    requires
        gather_step(d, r, r2, n, k),
        created_first(d.take(n), r),
        covers(d.take(n), r),
    ensures
        created_first(d.take(n + 1), r2),
{
    let p = d.take(n);
    let q = d.take(n + 1);
    assert forall|m: int| 0 <= m < r2.len() implies #[trigger] first_dated(q, r2[m].0, r2[m].1) by {
        if k == -1 && m == r.len() {
            assert forall|j: int| 0 <= j < n implies q[j].0 != d[n].0 by {
                assert(q[j] == p[j]);
                assert(has_entry(r, p[j].0));
                let w = choose|w: int| 0 <= w < r.len() && #[trigger] r[w].0 == p[j].0;
                assert(r[w].0 != d[n].0);
            }
            assert(first_at(q, r2[m].0, n));
        } else {
            assert(r2[m].0 == r[m].0 && r2[m].1 == r[m].1);
            assert(first_dated(p, r[m].0, r[m].1));
            let i = choose|i: int| #[trigger] first_at(p, r[m].0, i) && p[i].1 == r[m].1;
            assert forall|j: int| 0 <= j < i implies q[j].0 != r[m].0 by {
                assert(q[j] == p[j]);
            }
            assert(q[i] == p[i]);
            assert(first_at(q, r2[m].0, i));
        }
    }
}

proof fn lemma_step_last(d: Seq<DatedView>, r: Seq<HistoryView>, r2: Seq<HistoryView>, n: int, k: int)
    requires
        gather_step(d, r, r2, n, k),
        updated_last(d.take(n), r),
        distinct_names(r),
    ensures
        updated_last(d.take(n + 1), r2),
{
    let p = d.take(n);
    let q = d.take(n + 1);
    assert forall|m: int| 0 <= m < r2.len() implies #[trigger] last_dated(q, r2[m].0, r2[m].2) by {
        if (k == -1 && m == r.len()) || m == k {
            assert(last_at(q, r2[m].0, n));
        } else {
            assert(r2[m] == r[m]);
            assert(last_dated(p, r[m].0, r[m].2));
            let i = choose|i: int| #[trigger] last_at(p, r[m].0, i) && p[i].1 == r[m].2;
            if k == -1 {
                assert(r[m].0 != d[n].0);
            } else {
                assert(r[m].0 != r[k].0);
            }
            assert forall|j: int| i < j < q.len() implies q[j].0 != r[m].0 by {
                if j < n {
                    assert(q[j] == p[j]);
                }
            }
            assert(q[i] == p[i]);
            assert(last_at(q, r2[m].0, i));
        }
    }
}

proof fn lemma_histories_step(d: Seq<DatedView>, r: Seq<HistoryView>, r2: Seq<HistoryView>, n: int, k: int)
    requires
        gather_step(d, r, r2, n, k),
        histories_of(d.take(n), r),
    ensures
        histories_of(d.take(n + 1), r2),
{
    lemma_step_distinct(d, r, r2, n, k);
    lemma_step_cover(d, r, r2, n, k);
    lemma_step_first(d, r, r2, n, k);
    lemma_step_last(d, r, r2, n, k);
}

/// Gather each file's first and last dated appearance, files in the order
/// they first appear.
pub fn collect_history(dated: &Vec<(String, Stamp)>) -> (r: Vec<(String, FileHistory)>)
    ensures
        histories_of(dated_view(dated@), history_view(r@)),
{
    let ghost d = dated_view(dated@);
    let mut out: Vec<(String, FileHistory)> = Vec::new();
    assert(d.take(0) =~= Seq::<DatedView>::empty());
    for n in 0..dated.len()
        invariant
            d == dated_view(dated@),
            histories_of(d.take(n as int), history_view(out@)),
    {
        let name = &dated[n].0;
        let stamp = &dated[n].1;
        assert(d[n as int] == (name@, stamp.parts()));
        let mut found: Option<usize> = None;
        let mut k: usize = 0;
        while k < out.len()
            invariant_except_break
                found is None,
            invariant
                k <= out.len(),
                forall|j: int| 0 <= j < k ==> history_view(out@)[j].0 != name@,
            ensures
                match found {
                    Some(f) => f < out.len() && history_view(out@)[f as int].0 == name@,
                    None => forall|j: int| 0 <= j < out.len() ==> history_view(out@)[j].0 != name@,
                },
            decreases out.len() - k,
        {
            if crate::text::str_eq(out[k].0.as_str(), name.as_str()) {
                found = Some(k);
                break;
            }
            k = k + 1;
        }
        let ghost before = history_view(out@);
        match found {
            Some(f) => {
                let created = out[f].1.created.duplicate();
                let entry = (copy_string(name), FileHistory { created, updated: stamp.duplicate() });
                out.set(f, entry);
                proof {
                    assert(history_view(out@) =~= before.update(
                        f as int,
                        (name@, before[f as int].1, stamp.parts()),
                    ));
                    lemma_histories_step(d, before, history_view(out@), n as int, f as int);
                }
            },
            None => {
                let entry = (
                    copy_string(name),
                    FileHistory { created: stamp.duplicate(), updated: stamp.duplicate() },
                );
                out.push(entry);
                proof {
                    assert(history_view(out@) =~= before.push((name@, stamp.parts(), stamp.parts())));
                    lemma_histories_step(d, before, history_view(out@), n as int, -1);
                }
            },
        }
    }
    assert(d.take(dated@.len() as int) =~= d);
    out
}

/// `f` is among the files the history output names under some commit.
pub open spec fn logged(output: Seq<char>, f: Seq<char>) -> bool {
    let fd = file_dates(lines(output), lines(output).len() as int);
    exists|i: int| 0 <= i < fd.len() && #[trigger] fd[i].0 == f
}

/// A commit date `parse_timestamp` always reads: text jiff reads as a civil
/// datetime or date of an ordinary year.
pub open spec fn date_reads(t: Seq<char>) -> bool {
    trim(t).len() > 0 && timestamp_owed(trim(t))
}

/// `f` is the name of some entry of `d`.
pub open spec fn dated_name(d: Seq<DatedView>, f: Seq<char>) -> bool {
    exists|k: int| 0 <= k < d.len() && #[trigger] d[k].0 == f
}

/// Every file of the first `n` entries of `fd` whose date reads is among
/// the names of `d`.
#[verifier::opaque]
pub open spec fn dated_covers(fd: Seq<(Seq<char>, Seq<char>)>, d: Seq<DatedView>, n: int) -> bool {
    forall|j: int| 0 <= j < n && date_reads(#[trigger] fd[j].1) ==> dated_name(d, fd[j].0)
}

proof fn lemma_dated_covers_push(fd: Seq<(Seq<char>, Seq<char>)>, before: Seq<DatedView>, after: Seq<DatedView>, n: int)
    requires
        0 <= n < fd.len(),
        dated_covers(fd, before, n),
        after.len() == before.len() + 1,
        forall|k: int| 0 <= k < before.len() ==> after[k] == before[k],
        after[before.len() as int].0 == fd[n].0,
    ensures
        dated_covers(fd, after, n + 1),
{
    reveal(dated_covers);
    assert forall|j: int| 0 <= j < n + 1 && date_reads(#[trigger] fd[j].1) implies dated_name(after, fd[j].0) by {
        if j < n {
            assert(dated_name(before, fd[j].0));
            let k = choose|k: int| 0 <= k < before.len() && #[trigger] before[k].0 == fd[j].0;
            assert(after[k] == before[k]);
        } else {
            assert(after[before.len() as int].0 == fd[j].0);
        }
    }
}

proof fn lemma_dated_covers_skip(fd: Seq<(Seq<char>, Seq<char>)>, d: Seq<DatedView>, n: int)
    requires
        0 <= n < fd.len(),
        dated_covers(fd, d, n),
        !date_reads(fd[n].1),
    ensures
        dated_covers(fd, d, n + 1),
{
    reveal(dated_covers);
}

proof fn lemma_dated_covers_entries(fd: Seq<(Seq<char>, Seq<char>)>, d: Seq<DatedView>, r: Seq<HistoryView>)
    requires
        dated_covers(fd, d, fd.len() as int),
        covers(d, r),
    ensures
        forall|i: int| 0 <= i < fd.len() && date_reads(fd[i].1) ==> #[trigger] has_entry(r, fd[i].0),
{
    reveal(dated_covers);
    assert forall|i: int| 0 <= i < fd.len() && date_reads(fd[i].1) implies #[trigger] has_entry(r, fd[i].0) by {
        assert(dated_name(d, fd[i].0));
        let k = choose|k: int| 0 <= k < d.len() && #[trigger] d[k].0 == fd[i].0;
        assert(has_entry(r, d[k].0));
    }
}

/// Read the full history of a repository from one `git log` run (see
/// `history_args`): each file's first and last commit date. A date that does
/// not parse leaves the files of its commit out; which dates parse rests on
/// jiff and the machine's time zone, so beyond what is stated here the
/// result is `collect_history` of the dates that did.
pub fn history(output: &str) -> (r: Vec<(String, FileHistory)>)
    ensures
        forall|a: int, b: int| 0 <= a < b < r@.len() ==> r@[a].0@ != r@[b].0@,
        forall|k: int| 0 <= k < r@.len() ==> #[trigger] logged(output@, r@[k].0@),
        forall|i: int|
            0 <= i < file_dates(lines(output@), lines(output@).len() as int).len() && date_reads(
                file_dates(lines(output@), lines(output@).len() as int)[i].1,
            ) ==> #[trigger] has_entry(
                history_view(r@),
                file_dates(lines(output@), lines(output@).len() as int)[i].0,
            ),
{
    let entries = history_entries(output);
    let ghost fd = file_dates(lines(output@), lines(output@).len() as int);
    let mut dated: Vec<(String, Stamp)> = Vec::new();
    proof {
        reveal(dated_covers);
    }
    for i in 0..entries.len()
        invariant
            fd == file_dates(lines(output@), lines(output@).len() as int),
            entries@.map_values(|p: (String, String)| (p.0@, p.1@)) == fd,
            forall|j: int| 0 <= j < dated@.len() ==> #[trigger] logged(output@, dated@[j].0@),
            dated_covers(fd, dated_view(dated@), i as int),
    {
        assert(fd[i as int].0 == entries@[i as int].0@);
        match parse_timestamp(entries[i].1.as_str()) {
            Some(stamp) => {
                let ghost before = dated@;
                dated.push((copy_string(&entries[i].0), stamp));
                proof {
                    assert forall|j: int| 0 <= j < dated@.len() implies #[trigger] logged(
                        output@,
                        dated@[j].0@,
                    ) by {
                        if j < before.len() {
                            assert(dated@[j] == before[j]);
                        } else {
                            assert(fd[i as int].0 == dated@[j].0@);
                        }
                    }
                    lemma_dated_covers_push(fd, dated_view(before), dated_view(dated@), i as int);
                }
            },
            None => {
                proof {
                    lemma_dated_covers_skip(fd, dated_view(dated@), i as int);
                }
            },
        }
    }
    let r = collect_history(&dated);
    proof {
        let dv = dated_view(dated@);
        let hv = history_view(r@);
        assert forall|a: int, b: int| 0 <= a < b < r@.len() implies r@[a].0@ != r@[b].0@ by {
            assert(hv[a].0 == r@[a].0@ && hv[b].0 == r@[b].0@);
        }
        assert forall|k: int| 0 <= k < r@.len() implies #[trigger] logged(output@, r@[k].0@) by {
            assert(hv[k].0 == r@[k].0@);
            assert(first_dated(dv, hv[k].0, hv[k].1));
            let i = choose|i: int| #[trigger] first_at(dv, hv[k].0, i) && dv[i].1 == hv[k].1;
            assert(dv[i].0 == dated@[i].0@);
            assert(logged(output@, dated@[i].0@));
        }
        lemma_dated_covers_entries(fd, dv, hv);
    }
    r
}

} // verus!
