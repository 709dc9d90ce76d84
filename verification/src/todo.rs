//! Todos and pinning.
//!
//! A todo is a note whose heading carries a checkbox — `# [ ] task` open,
//! `# [x] task` done — saved as `*.todo.md`. Pinned items are listed in a
//! `.pindex` file. Both shapes are `nb`'s.

use vstd::prelude::*;

use crate::text::texts;

use crate::paths::{file_name, file_name_range};
use crate::text::{
    chars_eq, chars_of, extend_chars, extend_str, join_with, lemma_join_with_push, line_ranges,
    line_spans, lines, lower, push_char, ranges_view, ranges_within, skip_ws, slice_vec, spans,
    string_of, to_lower, trim,
    trim_range, trim_start, lead_ws, ends_with,
};

verus! {

/// Extension marking a note as a todo.
pub const TODO_EXT: &'static str = "todo.md";

/// File listing pinned entry names, one per line.
pub const PINDEX_FILE: &'static str = ".pindex";

/// Marker file making a notebook archived.
pub const ARCHIVED_FILE: &'static str = ".archived";


/// Whether a path names a todo: its file name ends in `todo.md`, in any case.
pub open spec fn is_todo_path(path: Seq<char>) -> bool {
    match file_name(path) {
        Some(n) => "todo.md"@.is_suffix_of(lower(n)),
        None => false,
    }
}

pub fn is_todo(path: &str) -> (r: bool)
    ensures
        r == is_todo_path(path@),
{
    let p = chars_of(path);
    match file_name_range(&p) {
        Some((a, b)) => {
            let n = to_lower(&slice_vec(&p, a, b));
            let ext = chars_of(TODO_EXT);
            ends_with(&n, &ext)
        },
        None => false,
    }
}

/// `#tag`, whatever number of `#` the tag was given with.
pub open spec fn hashtag(tag: Seq<char>) -> Seq<char> {
    seq!['#'] + tag.skip(lead_hashes(tag) as int)
}

/// How many `#` open `s`.
pub open spec fn lead_hashes(s: Seq<char>) -> nat
    decreases s.len(),
{
    if s.len() > 0 && s[0] == '#' {
        1 + lead_hashes(s.drop_first())
    } else {
        0
    }
}

proof fn lemma_lead_hashes(s: Seq<char>, k: int)
    requires
        0 <= k <= s.len(),
        forall|j: int| 0 <= j < k ==> s[j] == '#',
        k == s.len() || s[k] != '#',
    ensures
        lead_hashes(s) == k,
    decreases k,
{
    if k > 0 {
        assert forall|j: int| 0 <= j < k - 1 implies s.drop_first()[j] == '#' by {
            assert(s.drop_first()[j] == s[j + 1]);
        }
        if k < s.len() {
            assert(s.drop_first()[k - 1] == s[k]);
        }
        lemma_lead_hashes(s.drop_first(), k - 1);
    }
}

/// `#tag` for a tag given with or without its `#`.
pub fn hashtag_of(tag: &str) -> (r: Vec<char>)
    ensures
        r@ == hashtag(tag@),
{
    let t = chars_of(tag);
    let mut k: usize = 0;
    while k < t.len() && t[k] == '#'
        invariant
            k <= t@.len(),
            forall|j: int| 0 <= j < k ==> t@[j] == '#',
        decreases t@.len() - k,
    {
        k += 1;
    }
    proof {
        lemma_lead_hashes(t@, k as int);
    }
    let mut r: Vec<char> = vec!['#'];
    extend_chars(&mut r, &slice_vec(&t, k, t.len()));
    assert(r@ =~= hashtag(tag@));
    r
}

/// Tags as `#a #b`.
pub open spec fn hashtags(tags: Seq<Seq<char>>) -> Seq<char> {
    join_with(tags.map_values(|t: Seq<char>| hashtag(t)), seq![' '])
}

pub fn hashtags_of(tags: &[String]) -> (r: Vec<char>)
    ensures
        r@ == hashtags(texts(tags@)),
{
    let ghost items = texts(tags@).map_values(|t: Seq<char>| hashtag(t));
    let mut out: Vec<char> = Vec::new();
    for i in 0..tags.len()
        invariant
            items == texts(tags@).map_values(|t: Seq<char>| hashtag(t)),
            out@ == join_with(items.take(i as int), seq![' ']),
    {
        let h = hashtag_of(tags[i].as_str());
        proof {
            assert(items.take(i + 1) =~= items.take(i as int).push(h@));
            lemma_join_with_push(items.take(i as int), seq![' '], h@);
        }
        if i > 0 {
            out.push(' ');
        }
        extend_chars(&mut out, &h);
    }
    assert(items.take(tags@.len() as int) =~= items);
    out
}

/// The text of a new todo.
pub open spec fn todo_text(task: Seq<char>, tags: Seq<Seq<char>>) -> Seq<char> {
    "# [ ] "@ + task + seq!['\n'] + if tags.len() == 0 {
        seq![]
    } else {
        "\n## Tags\n\n"@ + hashtags(tags) + seq!['\n']
    }
}

/// Render a new todo.
pub fn render(task: &str, tags: &[String]) -> (r: String)
    ensures
        r@ == todo_text(task@, texts(tags@)),
{
    let mut out: Vec<char> = Vec::new();
    extend_str(&mut out, "# [ ] ");
    extend_str(&mut out, task);
    out.push('\n');
    if tags.len() > 0 {
        extend_str(&mut out, "\n## Tags\n\n");
        let h = hashtags_of(tags);
        extend_chars(&mut out, &h);
        out.push('\n');
    }
    assert(out@ =~= todo_text(task@, texts(tags@)));
    string_of(&out)
}

/// The checkbox a line opens with, if any: its state and task text.
pub open spec fn checkbox(line: Seq<char>) -> Option<(bool, Seq<char>)> {
    let r = trim_start(line);
    if r.len() >= 5 && r.take(3) == "# ["@ && r[4] == ']' {
        if r[3] == ' ' {
            Some((false, trim(r.skip(5))))
        } else if r[3] == 'x' || r[3] == 'X' {
            Some((true, trim(r.skip(5))))
        } else {
            None
        }
    } else {
        None
    }
}

/// A `# [ ]` heading is an open todo, and `# [x]` or `# [X]` a done one;
/// the task is the rest of the line, trimmed.
pub proof fn lemma_checkbox_headings(t: Seq<char>)
    ensures
        checkbox(seq!['#', ' ', '[', ' ', ']', ' '] + t) == Some((false, trim(t))),
        checkbox(seq!['#', ' ', '[', 'x', ']', ' '] + t) == Some((true, trim(t))),
        checkbox(seq!['#', ' ', '[', 'X', ']', ' '] + t) == Some((true, trim(t))),
{
    reveal_strlit("# [");
    let a = seq!['#', ' ', '[', ' ', ']', ' '] + t;
    let b = seq!['#', ' ', '[', 'x', ']', ' '] + t;
    let c = seq!['#', ' ', '[', 'X', ']', ' '] + t;
    crate::text::lemma_lead_ws_is(a, 0);
    crate::text::lemma_lead_ws_is(b, 0);
    crate::text::lemma_lead_ws_is(c, 0);
    assert(trim_start(a) =~= a);
    assert(trim_start(b) =~= b);
    assert(trim_start(c) =~= c);
    assert(a.take(3) =~= "# ["@);
    assert(b.take(3) =~= "# ["@);
    assert(c.take(3) =~= "# ["@);
    assert(a.skip(5) =~= seq![' '] + t);
    assert(b.skip(5) =~= seq![' '] + t);
    assert(c.skip(5) =~= seq![' '] + t);
    lemma_trim_after_space(t);
}

proof fn lemma_trim_after_space(t: Seq<char>)
    ensures
        trim(seq![' '] + t) == trim(t),
{
    let s = seq![' '] + t;
    assert(s.drop_first() =~= t);
    assert(lead_ws(s) == 1 + lead_ws(t));
    crate::text::lemma_lead_ws_bound(t);
    assert(s.skip(1 + lead_ws(t) as int) =~= t.skip(lead_ws(t) as int));
    assert(trim_start(s) =~= trim_start(t));
}

/// The first line at or after `i` that carries a checkbox.
pub open spec fn checkbox_from(ls: Seq<Seq<char>>, i: int) -> Option<(int, bool, Seq<char>)>
    decreases ls.len() - i,
{
    if i < 0 || i >= ls.len() {
        None
    } else {
        match checkbox(ls[i]) {
            Some((done, task)) => Some((i, done, task)),
            None => checkbox_from(ls, i + 1),
        }
    }
}

proof fn lemma_checkbox_from(ls: Seq<Seq<char>>, i: int)
    requires
        0 <= i,
    ensures
        checkbox_from(ls, i) matches Some((j, d, t)) ==> i <= j < ls.len() && checkbox(ls[j]) == Some(
            (d, t),
        ),
    decreases ls.len() - i,
{
    if i < ls.len() && checkbox(ls[i]) is None {
        lemma_checkbox_from(ls, i + 1);
    }
}

/// The checkbox heading of a note: its line index, state, and text.
pub open spec fn checkbox_of(raw: Seq<char>) -> Option<(int, bool, Seq<char>)> {
    checkbox_from(lines(raw), 0)
}

fn checkbox_exec(t: &[char], a: usize, b: usize) -> (r: Option<(bool, Vec<char>)>)
    requires
        a <= b <= t@.len(),
    ensures
        match checkbox(t@.subrange(a as int, b as int)) {
            Some((done, task)) => r matches Some((d, k)) && d == done && k@ == task,
            None => r is None,
        },
{
    let w = skip_ws(t, a, b);
    let ghost line = t@.subrange(a as int, b as int);
    let ghost r = trim_start(line);
    assert(r =~= t@.subrange(w as int, b as int));
    if !(b - w >= 5 && t[w] == '#' && t[w + 1] == ' ' && t[w + 2] == '[' && t[w + 4] == ']') {
        proof {
            reveal_strlit("# [");
            if r.len() >= 5 && r.take(3) == "# ["@ {
                assert(r.take(3)[0] == r[0] && r.take(3)[1] == r[1] && r.take(3)[2] == r[2]);
            }
        }
        return None;
    }
    proof {
        reveal_strlit("# [");
        assert(r.take(3) =~= "# ["@);
    }
    let mark = t[w + 3];
    let done = if mark == ' ' {
        false
    } else if mark == 'x' || mark == 'X' {
        true
    } else {
        return None;
    };
    let (x, y) = trim_range(t, w + 5, b);
    assert(r.skip(5) =~= t@.subrange(w + 5, b as int));
    Some((done, slice_vec(t, x, y)))
}

/// Locate the checkbox heading: its line index, state, and text.
fn checkbox_line(raw: &[char]) -> (r: Option<(usize, bool, Vec<char>)>)
    ensures
        match checkbox_of(raw@) {
            Some((i, done, task)) => r matches Some((j, d, k)) && j == i && d == done && k@ == task,
            None => r is None,
        },
{
    let ranges = line_ranges(raw);
    let ghost ls = lines(raw@);
    let mut i: usize = 0;
    while i < ranges.len()
        invariant
            spans(raw@, ranges@) == ls,
            ls == lines(raw@),
            ranges_within(ranges@, raw@.len() as int),
            checkbox_from(ls, 0) == checkbox_from(ls, i as int),
        decreases ranges@.len() - i,
    {
        let (a, b) = ranges[i];
        assert(ranges@[i as int].0 <= ranges@[i as int].1 <= raw@.len());
        assert(ls[i as int] == raw@.subrange(a as int, b as int));
        match checkbox_exec(raw, a, b) {
            Some((done, task)) => return Some((i, done, task)),
            None => {},
        }
        i += 1;
    }
    None
}

/// Whether the todo's box is checked.
pub fn is_done(raw: &str) -> (r: bool)
    ensures
        r == (checkbox_of(raw@) matches Some((_, done, _)) && done),
{
    let t = chars_of(raw);
    match checkbox_line(&t) {
        Some((_, done, _)) => done,
        None => false,
    }
}

/// The task text, without the checkbox.
pub fn task_of(raw: &str) -> (r: Option<String>)
    ensures
        match checkbox_of(raw@) {
            Some((_, _, task)) => r matches Some(t) && t@ == task,
            None => r is None,
        },
{
    let t = chars_of(raw);
    match checkbox_line(&t) {
        Some((_, _, task)) => Some(string_of(&task)),
        None => None,
    }
}

/// The checkbox heading rewritten in a given state.
pub open spec fn checkbox_heading(done: bool, task: Seq<char>) -> Seq<char> {
    "# ["@ + seq![if done { 'x' } else { ' ' }] + "] "@ + task
}

/// The note after checking or unchecking its box: the text of the checkbox
/// line is replaced by the rewritten heading; everything else, line endings
/// included, stays byte for byte.
pub open spec fn with_done(raw: Seq<char>, done: bool) -> Option<Seq<char>> {
    match checkbox_of(raw) {
        Some((i, was, task)) => if was == done {
            Some(raw)
        } else {
            Some(
                raw.take(line_spans(raw)[i].0) + checkbox_heading(done, task) + raw.skip(
                    line_spans(raw)[i].1,
                ),
            )
        },
        None => None,
    }
}

/// Check or uncheck the todo, returning the new contents.
///
/// Only the checkbox itself is rewritten, so nothing else in the note moves.
pub fn set_done(raw: &str, done: bool) -> (r: Option<String>)
    ensures
        match with_done(raw@, done) {
            Some(t) => r matches Some(s) && s@ == t,
            None => r is None,
        },
{
    let t = chars_of(raw);
    let (index, was_done, task) = match checkbox_line(&t) {
        Some(found) => found,
        None => return None,
    };
    if was_done == done {
        return Some(raw.to_owned());
    }
    let mut heading: Vec<char> = Vec::new();
    extend_str(&mut heading, "# [");
    heading.push(if done {
        'x'
    } else {
        ' '
    });
    extend_str(&mut heading, "] ");
    extend_chars(&mut heading, &task);
    assert(heading@ =~= checkbox_heading(done, task@));
    let ranges = line_ranges(&t);
    proof {
        lemma_checkbox_from(lines(t@), 0);
        assert(spans(t@, ranges@).len() == ranges@.len());
        assert(ranges_view(ranges@)[index as int] == (ranges@[index as int].0 as int, ranges@[index as int].1 as int));
    }
    let (a, b) = ranges[index];
    assert(ranges@[index as int].0 <= ranges@[index as int].1 <= t@.len());
    let mut out: Vec<char> = slice_vec(&t, 0, a);
    extend_chars(&mut out, &heading);
    extend_chars(&mut out, &slice_vec(&t, b, t.len()));
    assert(out@ =~= with_done(raw@, done).unwrap());

    Some(string_of(&out))
}

// ───────────────────────── pinning ─────────────────────────

/// Entry names listed in `.pindex` text: trimmed, blank lines skipped.
pub open spec fn pinned_names(ls: Seq<Seq<char>>) -> Seq<Seq<char>>
    decreases ls.len(),
{
    if ls.len() == 0 {
        seq![]
    } else {
        pinned_names(ls.drop_last()) + if trim(ls.last()).len() == 0 {
            seq![]
        } else {
            seq![trim(ls.last())]
        }
    }
}

/// Entry names pinned by a `.pindex` file's text, in pin order.
pub fn pinned(raw: &str) -> (r: Vec<String>)
    ensures
        texts(r@) == pinned_names(lines(raw@)),
{
    let t = chars_of(raw);
    let ranges = line_ranges(&t);
    let ghost ls = lines(t@);
    let mut r: Vec<String> = Vec::new();
    for k in 0..ranges.len()
        invariant
            spans(t@, ranges@) == ls,
            ranges_within(ranges@, t@.len() as int),
            texts(r@) == pinned_names(ls.take(k as int)),
    {
        let (a, b) = ranges[k];
        assert(ranges@[k as int].0 <= ranges@[k as int].1 <= t@.len());
        let (x, y) = trim_range(&t, a, b);
        proof {
            assert(ls[k as int] == t@.subrange(a as int, b as int));
            assert(ls.take(k + 1).drop_last() =~= ls.take(k as int));
        }
        if x < y {
            let ghost before = r@;
            r.push(string_of(&slice_vec(&t, x, y)));
            assert(texts(r@) =~= texts(before).push(t@.subrange(x as int, y as int)));
        }
    }
    assert(ls.take(ranges@.len() as int) =~= ls);
    r
}

/// Whether `name` is among the pinned entries.
pub fn is_pinned(pinned: &[String], name: &str) -> (r: bool)
    ensures
        r == texts(pinned@).contains(name@),
{
    let n = chars_of(name);
    for i in 0..pinned.len()
        invariant
            n@ == name@,
            forall|j: int| 0 <= j < i ==> texts(pinned@)[j] != n@,
    {
        let c = chars_of(pinned[i].as_str());
        assert(texts(pinned@)[i as int] == pinned@[i as int]@);
        if chars_eq(&c, &n) {
            return true;
        }
    }
    false
}

/// Pin `name`, returning whether the list changed: a name already pinned
/// keeps its place.
pub fn pin(pinned: &mut Vec<String>, name: &str) -> (changed: bool)
    ensures
        changed == !texts(old(pinned)@).contains(name@),
        changed ==> texts(final(pinned)@) == texts(old(pinned)@).push(name@),
        !changed ==> final(pinned)@ == old(pinned)@,
{
    if is_pinned(pinned, name) {
        return false;
    }
    let ghost before = pinned@;
    pinned.push(name.to_owned());
    assert(texts(pinned@) =~= texts(before).push(name@));
    true
}

/// Every pinned entry other than `name`, in order.
pub open spec fn without(names: Seq<Seq<char>>, name: Seq<char>) -> Seq<Seq<char>> {
    names.filter(|n: Seq<char>| n != name)
}

/// Unpin `name`, keeping the order of the rest.
pub fn unpin(pinned: &mut Vec<String>, name: &str)
    ensures
        texts(final(pinned)@) == without(texts(old(pinned)@), name@),
{
    let n = chars_of(name);
    let ghost all = texts(pinned@);
    let mut kept: Vec<String> = Vec::new();
    for i in 0..pinned.len()
        invariant
            n@ == name@,
            all == texts(pinned@),
            texts(kept@) == without(all.take(i as int), name@),
    {
        let c = chars_of(pinned[i].as_str());
        proof {
            assert(all.take(i + 1).drop_last() =~= all.take(i as int));
            assert(all[i as int] == c@);
            reveal(Seq::filter);
        }
        if !chars_eq(&c, &n) {
            let ghost before = kept@;
            kept.push(pinned[i].clone());
            assert(texts(kept@) =~= texts(before).push(c@));
        }
    }
    assert(all.take(pinned@.len() as int) =~= all);
    *pinned = kept;
}

/// The text of `.pindex` for these entries, or `None` when there are none
/// and the file should not exist.
pub open spec fn pindex_text(names: Seq<Seq<char>>) -> Option<Seq<char>> {
    if names.len() == 0 {
        None
    } else {
        Some(join_with(names, seq!['\n']) + seq!['\n'])
    }
}

pub fn pindex_contents(pinned: &[String]) -> (r: Option<String>)
    ensures
        match pindex_text(texts(pinned@)) {
            Some(t) => r matches Some(s) && s@ == t,
            None => r is None,
        },
{
    if pinned.len() == 0 {
        return None;
    }
    let ghost all = texts(pinned@);
    let mut out: Vec<char> = Vec::new();
    for i in 0..pinned.len()
        invariant
            all == texts(pinned@),
            out@ == join_with(all.take(i as int), seq!['\n']),
    {
        proof {
            assert(all.take(i + 1) =~= all.take(i as int).push(pinned@[i as int]@));
            lemma_join_with_push(all.take(i as int), seq!['\n'], pinned@[i as int]@);
        }
        if i > 0 {
            out.push('\n');
        }
        extend_str(&mut out, pinned[i].as_str());
    }
    assert(all.take(pinned@.len() as int) =~= all);
    out.push('\n');
    Some(string_of(&out))
}

/// The rank a path sorts by: the position of its file name among the pinned
/// entries, or after all of them.
pub open spec fn rank(pinned: Seq<Seq<char>>, path: Seq<char>) -> int {
    let name = match file_name(path) {
        Some(n) => n,
        None => seq![],
    };
    first_pos(pinned, name, 0)
}

/// The first position at or after `i` holding `name`, or the length.
pub open spec fn first_pos(names: Seq<Seq<char>>, name: Seq<char>, i: int) -> int
    decreases names.len() - i,
{
    if i < 0 || i >= names.len() {
        names.len() as int
    } else if names[i] == name {
        i
    } else {
        first_pos(names, name, i + 1)
    }
}

proof fn lemma_first_pos(names: Seq<Seq<char>>, name: Seq<char>, i: int)
    requires
        0 <= i <= names.len(),
    ensures
        i <= first_pos(names, name, i) <= names.len(),
    decreases names.len() - i,
{
    if i < names.len() && names[i] != name {
        lemma_first_pos(names, name, i + 1);
    }
}

/// The paths of rank `r`, in the order they came in.
pub open spec fn of_rank(pinned: Seq<Seq<char>>, paths: Seq<Seq<char>>, r: int) -> Seq<Seq<char>> {
    paths.filter(|p: Seq<char>| rank(pinned, p) == r)
}

/// Paths grouped by rank, ranks from `r` upward.
pub open spec fn ranked_from(pinned: Seq<Seq<char>>, paths: Seq<Seq<char>>, r: int) -> Seq<
    Seq<char>,
>
    decreases pinned.len() + 1 - r,
{
    if r < 0 || r > pinned.len() {
        seq![]
    } else {
        of_rank(pinned, paths, r) + ranked_from(pinned, paths, r + 1)
    }
}

/// Paths with pinned entries first, in pin order, each group keeping the
/// order it had — the stable sort by rank.
pub open spec fn pinned_first(pinned: Seq<Seq<char>>, paths: Seq<Seq<char>>) -> Seq<Seq<char>> {
    ranked_from(pinned, paths, 0)
}

/// The rank of one path.
fn rank_of(pinned: &[String], path: &str) -> (r: usize)
    ensures
        r as int == rank(texts(pinned@), path@),
{
    let name = match crate::paths::file_name_of(path) {
        Some(n) => n,
        None => String::new(),
    };
    assert(name@ == (match file_name(path@) {
        Some(n) => n,
        None => seq![],
    }));
    let n = chars_of(name.as_str());
    let ghost ps = texts(pinned@);
    let mut i: usize = 0;
    while i < pinned.len()
        invariant
            n@ == name@,
            ps == texts(pinned@),
            i <= pinned@.len(),
            name@ == (match file_name(path@) {
                Some(n) => n,
                None => seq![],
            }),
            first_pos(ps, n@, 0) == first_pos(ps, n@, i as int),
        decreases pinned@.len() - i,
    {
        let c = chars_of(pinned[i].as_str());
        assert(ps[i as int] == c@);
        if chars_eq(&c, &n) {
            return i;
        }
        i += 1;
    }
    pinned.len()
}

/// Append the paths of rank `r`, in order.
fn append_rank(paths: &Vec<String>, ranks: &Vec<usize>, r: usize, sorted: &mut Vec<String>, Ghost(ps): Ghost<Seq<Seq<char>>>)
    requires
        ranks@.len() == paths@.len(),
        forall|j: int| 0 <= j < paths@.len() ==> ranks@[j] as int == rank(ps, #[trigger] texts(paths@)[j]),
    ensures
        texts(final(sorted)@) == texts(old(sorted)@) + of_rank(ps, texts(paths@), r as int),
{
    let ghost all = texts(paths@);
    let ghost before = texts(sorted@);
    for i in 0..paths.len()
        invariant
            all == texts(paths@),
            ranks@.len() == all.len(),
            forall|j: int| 0 <= j < all.len() ==> ranks@[j] as int == rank(ps, #[trigger] all[j]),
            texts(sorted@) == before + of_rank(ps, all.take(i as int), r as int),
    {
        proof {
            assert(all.take(i + 1).drop_last() =~= all.take(i as int));
            reveal(Seq::filter);
            assert(all.take(i + 1).last() == all[i as int]);
        }
        if ranks[i] == r {
            let ghost b2 = sorted@;
            sorted.push(paths[i].clone());
            assert(texts(sorted@) =~= texts(b2).push(all[i as int]));
        }
    }
    assert(all.take(paths@.len() as int) =~= all);
}

/// Order paths with pinned entries first, each group keeping its own order.
pub fn sort_pinned_first(pinned: &[String], paths: &mut Vec<String>)
    ensures
        texts(final(paths)@) == pinned_first(texts(pinned@), texts(old(paths)@)),
{
    let ghost ps = texts(pinned@);
    let ghost all = texts(paths@);
    let mut ranks: Vec<usize> = Vec::new();
    for i in 0..paths.len()
        invariant
            ps == texts(pinned@),
            all == texts(paths@),
            ranks@.len() == i,
            forall|j: int| 0 <= j < i ==> ranks@[j] as int == rank(ps, #[trigger] all[j]),
    {
        ranks.push(rank_of(pinned, paths[i].as_str()));
    }
    let mut sorted: Vec<String> = Vec::new();
    for r in 0..pinned.len()
        invariant
            ps == texts(pinned@),
            all == texts(paths@),
            ranks@.len() == all.len(),
            forall|j: int| 0 <= j < all.len() ==> ranks@[j] as int == rank(ps, #[trigger] all[j]),
            texts(sorted@) + ranked_from(ps, all, r as int) == pinned_first(ps, all),
    {
        let ghost before = texts(sorted@);
        append_rank(paths, &ranks, r, &mut sorted, Ghost(ps));
        proof {
            assert(ranked_from(ps, all, r as int) == of_rank(ps, all, r as int) + ranked_from(
                ps,
                all,
                r + 1,
            ));
            assert(texts(sorted@) + ranked_from(ps, all, r + 1) =~= before + ranked_from(ps, all, r as int));
        }
    }
    let ghost before = texts(sorted@);
    append_rank(paths, &ranks, pinned.len(), &mut sorted, Ghost(ps));
    proof {
        let n = pinned@.len() as int;
        assert(ranked_from(ps, all, n) == of_rank(ps, all, n) + ranked_from(ps, all, n + 1));
        assert(ranked_from(ps, all, n + 1) =~= Seq::<Seq<char>>::empty());
        assert(texts(sorted@) =~= pinned_first(ps, all));
    }
    *paths = sorted;
}

// ───────────────────────── laws ─────────────────────────

proof fn lemma_without_contains(names: Seq<Seq<char>>, name: Seq<char>, other: Seq<char>)
    ensures
        without(names, name).contains(other) <==> (other != name && names.contains(other)),
    decreases names.len(),
{
    reveal(Seq::filter);
    if names.len() > 0 {
        let init = names.drop_last();
        lemma_without_contains(init, name, other);
        let wi = without(init, name);
        if names.contains(other) && other != name {
            let i = choose|i: int| 0 <= i < names.len() && names[i] == other;
            if i < init.len() {
                assert(init[i] == other);
            } else {
                assert(without(names, name) == wi.push(names.last()));
                assert(without(names, name)[wi.len() as int] == other);
            }
        }
        if without(names, name).contains(other) {
            let k = choose|k: int| 0 <= k < without(names, name).len() && without(names, name)[k] == other;
            if names.last() != name {
                assert(without(names, name) == wi.push(names.last()));
                if k < wi.len() {
                    assert(wi[k] == other);
                    let i = choose|i: int| 0 <= i < init.len() && init[i] == other;
                    assert(names[i] == other);
                } else {
                    assert(names[names.len() - 1] == other);
                }
            } else {
                assert(wi[k] == other);
                let i = choose|i: int| 0 <= i < init.len() && init[i] == other;
                assert(names[i] == other);
            }
        }
    }
}

/// After pinning, a name is pinned and every name pinned before still is;
/// after unpinning, it is not and every other pinned name still is.
pub proof fn lemma_pin_unpin(names: Seq<Seq<char>>, name: Seq<char>, other: Seq<char>)
    ensures
        names.push(name).contains(name),
        names.contains(other) ==> names.push(name).contains(other),
        !without(names, name).contains(name),
        other != name ==> (without(names, name).contains(other) <==> names.contains(other)),
{
    let w = without(names, name);
    let f = |n: Seq<char>| n != name;
    names.filter_lemma(f);
    assert(names.push(name)[names.len() as int] == name);
    if names.contains(other) {
        let i = choose|i: int| 0 <= i < names.len() && names[i] == other;
        assert(names.push(name)[i] == other);
    }
    if w.contains(name) {
        let i = choose|i: int| 0 <= i < w.len() && w[i] == name;
        assert(f(w[i]));
    }
    if other != name {
        if names.contains(other) {
            let i = choose|i: int| 0 <= i < names.len() && names[i] == other;
            assert(f(names[i]));
        }
        lemma_without_contains(names, name, other);
    }
}

proof fn lemma_ranked_from(ps: Seq<Seq<char>>, paths: Seq<Seq<char>>, r: int)
    requires
        0 <= r,
        forall|j: int| 0 <= j < paths.len() ==> 0 <= #[trigger] rank(ps, paths[j]) <= ps.len(),
    ensures
        forall|i: int| 0 <= i < ranked_from(ps, paths, r).len() ==> r <= #[trigger] rank(ps, ranked_from(ps, paths, r)[i]),
        forall|i: int, j: int|
            0 <= i <= j < ranked_from(ps, paths, r).len() ==> #[trigger] rank(ps, ranked_from(ps, paths, r)[i]) <= #[trigger] rank(
                ps,
                ranked_from(ps, paths, r)[j],
            ),
        ranked_from(ps, paths, r).to_multiset() == paths.filter(|p: Seq<char>| r <= rank(ps, p)).to_multiset(),
    decreases ps.len() + 1 - r,
{
    let f = |p: Seq<char>| r <= rank(ps, p);
    if r > ps.len() {
        assert(ranked_from(ps, paths, r) =~= Seq::<Seq<char>>::empty());
        paths.filter_lemma(f);
        assert(paths.filter(f) =~= Seq::<Seq<char>>::empty()) by {
            if paths.filter(f).len() > 0 {
                let x = paths.filter(f)[0];
                assert(f(x));
                assert(paths.filter(f).contains(x));
                paths.lemma_filter_contains_rev(f, x);
            }
        }
    } else {
        lemma_ranked_from(ps, paths, r + 1);
        let g = |p: Seq<char>| rank(ps, p) == r;
        let h = |p: Seq<char>| r + 1 <= rank(ps, p);
        let a = paths.filter(g);
        let b = ranked_from(ps, paths, r + 1);
        let all = ranked_from(ps, paths, r);
        assert(all == a + b);
        paths.filter_lemma(g);
        assert forall|i: int| 0 <= i < all.len() implies r <= #[trigger] rank(ps, all[i]) by {
            if i < a.len() {
                assert(all[i] == a[i]);
                assert(g(a[i]));
            } else {
                assert(all[i] == b[i - a.len()]);
            }
        }
        assert forall|i: int, j: int| 0 <= i <= j < all.len() implies #[trigger] rank(ps, all[i]) <= #[trigger] rank(ps, all[j]) by {
            if i < a.len() {
                assert(all[i] == a[i]);
                assert(g(a[i]));
                if j < a.len() {
                    assert(all[j] == a[j]);
                    assert(g(a[j]));
                } else {
                    assert(all[j] == b[j - a.len()]);
                    assert(r + 1 <= rank(ps, b[j - a.len()]));
                }
            } else {
                assert(all[i] == b[i - a.len()]);
                assert(all[j] == b[j - a.len()]);
                assert(rank(ps, b[i - a.len()]) <= rank(ps, b[j - a.len()]));
            }
        }
        lemma_filter_split(paths, ps, r);
        vstd::seq_lib::lemma_multiset_commutative(a, b);
    }
}

proof fn lemma_filter_split(paths: Seq<Seq<char>>, ps: Seq<Seq<char>>, r: int)
    ensures
        paths.filter(|p: Seq<char>| r <= rank(ps, p)).to_multiset() == paths.filter(
            |p: Seq<char>| rank(ps, p) == r,
        ).to_multiset().add(paths.filter(|p: Seq<char>| r + 1 <= rank(ps, p)).to_multiset()),
    decreases paths.len(),
{
    let f = |p: Seq<char>| r <= rank(ps, p);
    let g = |p: Seq<char>| rank(ps, p) == r;
    let h = |p: Seq<char>| r + 1 <= rank(ps, p);
    broadcast use vstd::multiset::group_multiset_axioms;
    if paths.len() == 0 {
        reveal(Seq::filter);
        let e = Seq::<Seq<char>>::empty();
        e.to_multiset_ensures();
        vstd::multiset::lemma_multiset_empty_len(e.to_multiset());
        assert(paths.filter(f) == e);
        assert(paths.filter(g) == e);
        assert(paths.filter(h) == e);
        assert(paths.filter(f).to_multiset() =~= paths.filter(g).to_multiset().add(
            paths.filter(h).to_multiset(),
        ));
    } else {
        let init = paths.drop_last();
        let x = paths.last();
        lemma_filter_split(init, ps, r);
        assert(init.push(x) =~= paths);
        init.lemma_filter_push(x, f);
        init.lemma_filter_push(x, g);
        init.lemma_filter_push(x, h);
        let a = init.filter(f);
        let b = init.filter(g);
        let c = init.filter(h);
        a.to_multiset_ensures();
        b.to_multiset_ensures();
        c.to_multiset_ensures();
        if g(x) {
            assert(f(x) && !h(x));
            assert(paths.filter(f).to_multiset() =~= a.to_multiset().insert(x));
            assert(paths.filter(g).to_multiset() =~= b.to_multiset().insert(x));
            assert(paths.filter(h) == c);
        } else if h(x) {
            assert(f(x));
            assert(paths.filter(f).to_multiset() =~= a.to_multiset().insert(x));
            assert(paths.filter(h).to_multiset() =~= c.to_multiset().insert(x));
            assert(paths.filter(g) == b);
        } else {
            assert(!f(x));
            assert(paths.filter(f) == a);
            assert(paths.filter(g) == b);
            assert(paths.filter(h) == c);
        }
        assert(paths.filter(f).to_multiset() =~= paths.filter(g).to_multiset().add(
            paths.filter(h).to_multiset(),
        ));
    }
}

proof fn lemma_unpinned_suffix(ps: Seq<Seq<char>>, paths: Seq<Seq<char>>, r: int)
    requires
        0 <= r <= ps.len(),
    ensures
        of_rank(ps, paths, ps.len() as int).is_suffix_of(ranked_from(ps, paths, r)),
    decreases ps.len() - r,
{
    let u = of_rank(ps, paths, ps.len() as int);
    if r == ps.len() {
        assert(ranked_from(ps, paths, r + 1) =~= Seq::<Seq<char>>::empty());
        assert(ranked_from(ps, paths, r) =~= u);
        assert(u.subrange(0, u.len() as int) =~= u);
    } else {
        lemma_unpinned_suffix(ps, paths, r + 1);
        let a = of_rank(ps, paths, r);
        let b = ranked_from(ps, paths, r + 1);
        let all = a + b;
        assert(ranked_from(ps, paths, r) == all);
        assert(b.subrange(b.len() - u.len(), b.len() as int) =~= u);
        assert(all.subrange(all.len() - u.len(), all.len() as int) =~= b.subrange(
            b.len() - u.len(),
            b.len() as int,
        ));
    }
}

/// The unpinned paths come last, in the order they came in.
pub proof fn lemma_unpinned_keep_order(ps: Seq<Seq<char>>, paths: Seq<Seq<char>>)
    ensures
        of_rank(ps, paths, ps.len() as int).is_suffix_of(pinned_first(ps, paths)),
{
    lemma_unpinned_suffix(ps, paths, 0);
}

/// Putting pinned entries first only reorders: the same paths come out,
/// each as often as it went in, ordered by the position of their names in
/// the pin list, every unpinned path after every pinned one.
pub proof fn lemma_pinned_first_reorders(ps: Seq<Seq<char>>, paths: Seq<Seq<char>>)
    ensures
        pinned_first(ps, paths).to_multiset() == paths.to_multiset(),
        forall|i: int, j: int|
            0 <= i <= j < pinned_first(ps, paths).len() ==> #[trigger] rank(ps, pinned_first(ps, paths)[i])
                <= #[trigger] rank(ps, pinned_first(ps, paths)[j]),
{
    assert forall|j: int| 0 <= j < paths.len() implies 0 <= #[trigger] rank(ps, paths[j]) <= ps.len() by {
        let name = match file_name(paths[j]) {
            Some(n) => n,
            None => seq![],
        };
        lemma_first_pos(ps, name, 0);
    }
    lemma_ranked_from(ps, paths, 0);
    let f = |p: Seq<char>| 0 <= rank(ps, p);
    assert(paths.filter(f) =~= paths) by {
        reveal(Seq::filter);
        lemma_filter_all(paths, ps);
    }
}

proof fn lemma_filter_all(paths: Seq<Seq<char>>, ps: Seq<Seq<char>>)
    ensures
        paths.filter(|p: Seq<char>| 0 <= rank(ps, p)) == paths,
    decreases paths.len(),
{
    reveal(Seq::filter);
    if paths.len() > 0 {
        lemma_filter_all(paths.drop_last(), ps);
        let name = match file_name(paths.last()) {
            Some(n) => n,
            None => seq![],
        };
        lemma_first_pos(ps, name, 0);
        assert(paths.drop_last().push(paths.last()) =~= paths);
    } else {
        assert(paths.filter(|p: Seq<char>| 0 <= rank(ps, p)) =~= paths);
    }
}

/// Checking or unchecking a todo and reading it back gives the state just
/// set and the same task on the same line; when the state changes, that line
/// becomes the rewritten heading and every other line stays as it was. A
/// note without a checkbox heading has nothing to set.
pub proof fn lemma_set_done_reads_back(raw: Seq<char>, done: bool)
    ensures
        match checkbox_of(raw) {
            Some((i, was, task)) => with_done(raw, done) matches Some(t) && checkbox_of(t) == Some(
                (i, done, task),
            ) && (was != done ==> lines(t) == lines(raw).update(i, checkbox_heading(done, task))),
            None => with_done(raw, done) is None,
        },
{
    let ls = lines(raw);
    lemma_checkbox_from(ls, 0);
    match checkbox_of(raw) {
        Some((i, was, task)) => {
            if was != done {
                let line = ls[i];
                let r = trim_start(line);
                crate::text::lemma_line_has_no_newline(raw, i);
                crate::text::lemma_lead_ws_bound(line);
                let y = r.skip(5);
                assert(task == trim(y));
                assert(!y.contains('\n')) by {
                    if y.contains('\n') {
                        let j = choose|j: int| 0 <= j < y.len() && y[j] == '\n';
                        assert(line[lead_ws(line) + 5 + j] == '\n');
                    }
                }
                crate::text::lemma_trim_within(y, '\n');
                crate::text::lemma_trim_idempotent(y);
                let h = checkbox_heading(done, task);
                reveal_strlit("# [");
                reveal_strlit("] ");
                assert(h.len() > 0);
                assert(!h.contains('\n')) by {
                    if h.contains('\n') {
                        let j = choose|j: int| 0 <= j < h.len() && h[j] == '\n';
                        if j >= 6 {
                            assert(task[j - 6] == '\n');
                        }
                    }
                }
                if task.len() > 0 {
                    assert(h.last() == task.last());
                }
                assert(h.last() != '\r');
                crate::text::lemma_line_splice(raw, i, h);
                lemma_heading_reads_back(done, task);
                lemma_checkbox_update(ls, 0, i, h, done, task);
            }
        },
        None => {},
    }
}

/// A new todo opens unchecked with its task, checking it reads back as
/// checked with the same task, and unchecking it again gives back the text
/// it was rendered as.
pub proof fn lemma_new_todo_flips(task: Seq<char>, tags: Seq<Seq<char>>)
    requires
        !task.contains('\n'),
        trim(task) == task,
    ensures
        checkbox_of(todo_text(task, tags)) == Some((0int, false, task)),
        with_done(todo_text(task, tags), true) matches Some(t) && checkbox_of(t) == Some((0int, true, task))
            && with_done(t, false) == Some(todo_text(task, tags)),
{
    reveal_strlit("# [ ] ");
    reveal_strlit("# [");
    reveal_strlit("] ");
    reveal_strlit("\n## Tags\n\n");
    let h0 = checkbox_heading(false, task);
    let h1 = checkbox_heading(true, task);
    let rest: Seq<char> = if tags.len() == 0 {
        seq![]
    } else {
        "\n## Tags\n\n"@ + hashtags(tags) + seq!['\n']
    };
    let r = todo_text(task, tags);
    assert(r =~= h0.push('\n') + rest);
    assert(h1.len() == h0.len());
    assert forall|h: Seq<char>| h == h0 || h == h1 implies !h.contains('\n') && (h.len() == 0 || h.last() != '\r') by {
        if h.contains('\n') {
            let j = choose|j: int| 0 <= j < h.len() && h[j] == '\n';
            assert(task[j - 6] == '\n');
        }
        crate::text::lemma_trim_within(task, '\n');
        if task.len() > 0 {
            assert(h.last() == task.last());
        }
    }
    crate::text::lemma_lines_append(h0.push('\n'), rest);
    crate::text::lemma_lines_single(h0);
    lemma_heading_reads_back(false, task);
    lemma_checkbox_from(lines(r), 0);
    assert(lines(r)[0] == h0);
    assert(checkbox_of(r) == Some((0int, false, task)));
    lemma_set_done_reads_back(r, true);
    crate::text::lemma_first_span(h0, rest);
    let t = r.take(0) + h1 + r.skip(h0.len() as int);
    assert(with_done(r, true) == Some(t));
    assert(r.skip(h0.len() as int) =~= seq!['\n'] + rest);
    assert(t =~= h1.push('\n') + rest);
    lemma_set_done_reads_back(t, false);
    crate::text::lemma_first_span(h1, rest);
    assert(t.take(0) + h0 + t.skip(h1.len() as int) =~= r);
}

/// A name the pin file keeps as it is: not empty, on one line, with no
/// blank at either end.
pub open spec fn pinnable(n: Seq<char>) -> bool {
    n.len() > 0 && trim(n) == n && !n.contains('\n')
}

/// The pin file's text is its names, each closed by a newline.
proof fn lemma_pindex_joined(names: Seq<Seq<char>>)
    requires
        names.len() > 0,
    ensures
        join_with(names, seq!['\n']) + seq!['\n'] == crate::text::joined_lines(names),
    decreases names.len(),
{
    let init = names.drop_last();
    assert(init.push(names.last()) =~= names);
    lemma_join_with_push(init, seq!['\n'], names.last());
    if init.len() > 0 {
        lemma_pindex_joined(init);
        assert(join_with(names, seq!['\n']) + seq!['\n'] =~= (join_with(init, seq!['\n']) + seq!['\n'])
            + names.last().push('\n'));
    } else {
        assert(join_with(names, seq!['\n']) + seq!['\n'] =~= names.last().push('\n'));
        assert(crate::text::joined_lines(init) =~= Seq::<char>::empty());
    }
}

/// Names that are their own trimmed, non-empty selves read back as they are.
proof fn lemma_pinned_names_plain(names: Seq<Seq<char>>)
    requires
        forall|i: int| 0 <= i < names.len() ==> pinnable(#[trigger] names[i]),
    ensures
        pinned_names(names) == names,
    decreases names.len(),
{
    if names.len() > 0 {
        let init = names.drop_last();
        assert forall|i: int| 0 <= i < init.len() implies pinnable(#[trigger] init[i]) by {
            assert(init[i] == names[i]);
        }
        lemma_pinned_names_plain(init);
        assert(pinnable(names[names.len() - 1]));
        assert(names =~= init + seq![names.last()]);
    }
}

/// What `pindex_contents` writes, `pinned` reads back: the same names in the
/// same order, for names the pin file can hold. With no names the file goes,
/// and a missing file reads as empty text.
pub proof fn lemma_pin_file_round_trip(names: Seq<Seq<char>>)
    requires
        forall|i: int| 0 <= i < names.len() ==> pinnable(#[trigger] names[i]),
    ensures
        pinned_names(
            lines(
                match pindex_text(names) {
                    Some(t) => t,
                    None => seq![],
                },
            ),
        ) == names,
{
    if names.len() == 0 {
        assert(lines(Seq::<char>::empty()) =~= Seq::<Seq<char>>::empty());
    } else {
        lemma_pindex_joined(names);
        assert forall|i: int| 0 <= i < names.len() implies !(#[trigger] names[i]).contains('\n') by {
            assert(pinnable(names[i]));
        }
        assert forall|i: int| 0 <= i < names.len() implies (#[trigger] names[i]).len() == 0
            || names[i].last() != '\r' by {
            let n = names[i];
            assert(pinnable(n));
            crate::text::lemma_trail_ws_bound(trim_start(n));
            if n.last() == '\r' {
                crate::text::lemma_lead_ws_bound(n);
                assert(crate::text::is_ws(n.last()));
                assert(trim(n).len() < n.len()) by {
                    crate::text::lemma_trail_ws_is(trim_start(n), 0);
                }
            }
        }
        crate::text::lemma_lines_joined(names);
        lemma_pinned_names_plain(names);
    }
}

/// The first checkbox stays where it was when its line is replaced by
/// another checkbox line.
proof fn lemma_checkbox_update(ls: Seq<Seq<char>>, k: int, i: int, h: Seq<char>, d: bool, task: Seq<char>)
    requires
        0 <= k <= i < ls.len(),
        checkbox_from(ls, k) matches Some((j, _, _)) && j == i,
        checkbox(h) == Some((d, task)),
    ensures
        checkbox_from(ls.update(i, h), k) == Some((i, d, task)),
    decreases i - k,
{
    let ls2 = ls.update(i, h);
    if k < i {
        assert(checkbox(ls[k]) is None);
        assert(ls2[k] == ls[k]);
        lemma_checkbox_update(ls, k + 1, i, h, d, task);
    } else {
        assert(ls2[i] == h);
    }
}

/// A rewritten checkbox heading reads back as written.
#[verifier::rlimit(40)]
proof fn lemma_heading_reads_back(d: bool, task: Seq<char>)
    requires
        trim(task) == task,
    ensures
        checkbox(checkbox_heading(d, task)) == Some((d, task)),
{
    reveal_strlit("# [");
    reveal_strlit("] ");
    let h = checkbox_heading(d, task);
    crate::text::lemma_lead_ws_is(h, 0);
    assert(trim_start(h) =~= h);
    assert(h.take(3) =~= "# ["@);
    let rest = h.skip(5);
    assert(rest =~= seq![' '] + task);
    assert(rest.drop_first() =~= task);
    assert(lead_ws(rest) == 1 + lead_ws(task));
    crate::text::lemma_lead_ws_bound(task);
    assert(trim_start(rest) =~= trim_start(task));
}

} // verus!
