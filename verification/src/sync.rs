//! Committing and exchanging notes with the remote.
//!
//! Only Markdown is staged by default. These repositories hold more than
//! notes — a Worker, CI config, a nested checkout — and sweeping all of it
//! into an automatic commit is how unrelated work gets published by accident.
//!
//! The steps of a sync alternate between running `git` and deciding what to
//! do next; the decisions live here, the runs belong to the caller.

use vstd::prelude::*;

use crate::git::{add_all, words_of, StagedChange};
use crate::text::{
    chars_of, decimal, ends_with, extend_chars, extend_str, join_with, lemma_join_with_push, lower,
    string_of, to_lower, usize_to_string,
};

verus! {

/// A path ending, in any case, in `.md` or `.markdown`.
pub open spec fn markdown_name(path: Seq<char>) -> bool {
    ".md"@.is_suffix_of(lower(path)) || ".markdown"@.is_suffix_of(lower(path))
}

pub fn is_markdown(path: &str) -> (r: bool)
    ensures
        r == markdown_name(path@),
{
    let l = to_lower(&chars_of(path));
    ends_with(&l, &chars_of(".md")) || ends_with(&l, &chars_of(".markdown"))
}

/// What a sync did to one notebook.
#[derive(Debug, Clone)]
pub struct Outcome {
    pub notebook: String,
    /// Paths committed, empty when there was nothing to commit.
    pub committed: Vec<String>,
    pub message: Option<String>,
    pub pulled: bool,
    pub pushed: bool,
}

/// The staging arguments: everything, or only Markdown.
pub fn stage_args(include_everything: bool) -> (r: Vec<String>)
    ensures
        words_of(r@) == if include_everything {
            seq!["add"@, "-A"@]
        } else {
            seq!["add"@, "--"@, "*.md"@]
        },
{
    if include_everything {
        add_all()
    } else {
        crate::git::add("*.md")
    }
}

/// Every staged change is an addition.
pub open spec fn all_additions(staged: Seq<StagedChange>) -> bool {
    forall|i: int| 0 <= i < staged.len() ==> staged[i].status == 'A'
}

/// The commit subject summarising `staged`: "Add" when every change adds a
/// file, "Update" otherwise; then the one path, or the count of notes.
pub open spec fn description(staged: Seq<StagedChange>) -> Seq<char> {
    let verb = if all_additions(staged) {
        "Add"@
    } else {
        "Update"@
    };
    if staged.len() == 1 {
        verb + " "@ + staged[0].path@
    } else {
        verb + " "@ + decimal(staged.len()) + " notes"@
    }
}

/// Summarise staged changes for a commit subject.
pub fn describe(staged: &Vec<StagedChange>) -> (r: String)
    ensures
        r@ == description(staged@),
{
    let mut all = true;
    for i in 0..staged.len()
        invariant
            all == (forall|j: int| 0 <= j < i ==> staged@[j].status == 'A'),
    {
        let a = staged[i].is_addition();
        all = all && a;
    }
    let mut out = if all {
        chars_of("Add ")
    } else {
        chars_of("Update ")
    };
    proof {
        reveal_strlit("Add ");
        reveal_strlit("Add");
        reveal_strlit("Update ");
        reveal_strlit("Update");
        reveal_strlit(" ");
    }
    if staged.len() == 1 {
        extend_str(&mut out, staged[0].path.as_str());
    } else {
        let n = usize_to_string(staged.len());
        extend_str(&mut out, n.as_str());
        extend_str(&mut out, " notes");
    }
    let r = string_of(&out);
    assert(r@ =~= description(staged@));
    r
}

/// The paths of the staged changes that are not Markdown.
pub open spec fn foreign_paths(staged: Seq<StagedChange>) -> Seq<Seq<char>> {
    staged.map_values(|c: StagedChange| c.path@).filter(|p: Seq<char>| !markdown_name(p))
}

/// The refusal when something other than Markdown was already staged.
pub open spec fn foreign_message(notebook: Seq<char>, foreign: Seq<Seq<char>>) -> Seq<char> {
    notebook + " has non-Markdown changes already staged ("@ + join_with(foreign, ", "@)
        + "); commit or unstage them, or pass --all"@
}

/// The commit a sync makes once staging is done.
///
/// Staging Markdown does not unstage what someone else already staged, and
/// committing now would sweep it in: unless everything was asked for, a
/// staged change outside Markdown stops the sync. Otherwise nothing staged
/// means no commit, and anything staged is committed under `message`, or
/// under a subject describing it.
pub fn commit_plan(
    notebook: &str,
    message: Option<&str>,
    include_everything: bool,
    staged: &Vec<StagedChange>,
) -> (r: Result<Option<String>, String>)
    ensures
        !include_everything && foreign_paths(staged@).len() > 0 ==> (r matches Err(e) && e@
            == foreign_message(notebook@, foreign_paths(staged@))),
        (include_everything || foreign_paths(staged@).len() == 0) && staged@.len() == 0 ==> r
            matches Ok(None),
        (include_everything || foreign_paths(staged@).len() == 0) && staged@.len() > 0 ==> (r
            matches Ok(Some(m)) && m@ == match message {
            Some(t) => t@,
            None => description(staged@),
        }),
{
    if !include_everything {
        let ghost paths = staged@.map_values(|c: StagedChange| c.path@);
        let mut foreign: Vec<Vec<char>> = Vec::new();
        for i in 0..staged.len()
            invariant
                paths == staged@.map_values(|c: StagedChange| c.path@),
                foreign@.map_values(|v: Vec<char>| v@) == paths.take(i as int).filter(
                    |p: Seq<char>| !markdown_name(p),
                ),
        {
            let p = chars_of(staged[i].path.as_str());
            let m = is_markdown(staged[i].path.as_str());
            let ghost before = foreign@;
            proof {
                reveal(Seq::filter);
                assert(paths.take(i + 1).drop_last() =~= paths.take(i as int));
                assert(paths[i as int] == p@);
            }
            if !m {
                foreign.push(p);
                assert(foreign@.map_values(|v: Vec<char>| v@) =~= before.map_values(
                    |v: Vec<char>| v@,
                ).push(paths[i as int]));
            } else {
                assert(foreign@ == before);
            }
        }
        assert(paths.take(staged@.len() as int) =~= paths);
        if foreign.len() > 0 {
            let ghost fs = foreign@.map_values(|v: Vec<char>| v@);
            let mut out = chars_of(notebook);
            extend_str(&mut out, " has non-Markdown changes already staged (");
            let ghost start = out@;
            for i in 0..foreign.len()
                invariant
                    fs == foreign@.map_values(|v: Vec<char>| v@),
                    out@ == start + join_with(fs.take(i as int), ", "@),
            {
                proof {
                    lemma_join_with_push(fs.take(i as int), ", "@, fs[i as int]);
                    assert(fs.take(i + 1) =~= fs.take(i as int).push(fs[i as int]));
                }
                if i > 0 {
                    extend_str(&mut out, ", ");
                }
                extend_chars(&mut out, &foreign[i]);
                assert(out@ =~= start + join_with(fs.take(i + 1), ", "@));
            }
            assert(fs.take(foreign@.len() as int) =~= fs);
            extend_str(&mut out, "); commit or unstage them, or pass --all");
            let e = string_of(&out);
            assert(e@ =~= foreign_message(notebook@, foreign_paths(staged@)));
            return Err(e);
        }
    }
    if staged.len() == 0 {
        return Ok(None);
    }
    match message {
        Some(t) => Ok(Some(t.to_owned())),
        None => Ok(Some(describe(staged))),
    }
}

/// The paths a commit of `staged` records.
pub fn committed_paths(staged: &Vec<StagedChange>) -> (r: Vec<String>)
    ensures
        words_of(r@) == staged@.map_values(|c: StagedChange| c.path@),
{
    let mut out: Vec<String> = Vec::new();
    for i in 0..staged.len()
        invariant
            words_of(out@) == staged@.map_values(|c: StagedChange| c.path@).take(i as int),
    {
        let s = crate::text::copy_string(&staged[i].path);
        let ghost before = out@;
        out.push(s);
        assert(words_of(out@) =~= words_of(before).push(s@));
        assert(words_of(out@) =~= staged@.map_values(|c: StagedChange| c.path@).take(i + 1));
    }
    assert(staged@.map_values(|c: StagedChange| c.path@).take(staged@.len() as int)
        =~= staged@.map_values(|c: StagedChange| c.path@));
    out
}

} // verus!
