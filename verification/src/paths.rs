//! Paths as text, with the Unix rules of `std::path::Path`: `/` separates
//! components, empty and `.` components in the middle carry no name.

use vstd::prelude::*;

use crate::text::{chars_of, extend_chars, lemma_rfind_char_facts, rfind_char, rfind_char_before, slice_vec, string_of};

verus! {

/// `Path::join` for a relative `name`: a separator is added unless `dir` is
/// empty or already ends with one; an absolute `name` replaces `dir`.
pub open spec fn join(dir: Seq<char>, name: Seq<char>) -> Seq<char> {
    if name.len() > 0 && name[0] == '/' {
        name
    } else if dir.len() == 0 || dir.last() == '/' {
        dir + name
    } else {
        dir + seq!['/'] + name
    }
}

pub fn join_chars(dir: &[char], name: &[char]) -> (r: Vec<char>)
    ensures
        r@ == join(dir@, name@),
{
    if name.len() > 0 && name[0] == '/' {
        return slice_vec(name, 0, name.len());
    }
    let mut r = slice_vec(dir, 0, dir.len());
    if !(dir.len() == 0 || dir[dir.len() - 1] == '/') {
        r.push('/');
    }
    extend_chars(&mut r, name);
    proof {
        assert(dir@.subrange(0, dir@.len() as int) =~= dir@);
        assert(name@.subrange(0, name@.len() as int) =~= name@);
    }
    r
}

pub fn join_str(dir: &str, name: &str) -> (r: String)
    ensures
        r@ == join(dir@, name@),
{
    let d = chars_of(dir);
    let n = chars_of(name);
    let j = join_chars(&d, &n);
    string_of(&j)
}

/// Where the component ending at `end` starts.
pub open spec fn piece_start(s: Seq<char>, end: int) -> int {
    match rfind_char_before(s, '/', end) {
        Some(k) => k + 1,
        None => 0,
    }
}

/// The bounds of the last component of `s[..end]` that carries a name:
/// separators and `.` components are skipped.
pub open spec fn last_piece(s: Seq<char>, end: int) -> Option<(int, int)>
    decreases end,
{
    if end <= 0 || end > s.len() {
        None
    } else if s[end - 1] == '/' {
        last_piece(s, end - 1)
    } else if piece_start(s, end) >= end || piece_start(s, end) < 0 {
        None
    } else if s.subrange(piece_start(s, end), end) == seq!['.'] {
        last_piece(s, piece_start(s, end))
    } else {
        Some((piece_start(s, end), end))
    }
}

/// Where `Path::file_name` finds the name inside `s`.
pub open spec fn file_name_bounds(s: Seq<char>) -> Option<(int, int)> {
    match last_piece(s, s.len() as int) {
        Some((a, b)) => if s.subrange(a, b) == seq!['.', '.'] {
            None
        } else {
            Some((a, b))
        },
        None => None,
    }
}

/// `Path::file_name`.
pub open spec fn file_name(s: Seq<char>) -> Option<Seq<char>> {
    match last_piece(s, s.len() as int) {
        Some((a, b)) => if s.subrange(a, b) == seq!['.', '.'] {
            None
        } else {
            Some(s.subrange(a, b))
        },
        None => None,
    }
}

/// Split a file name at its last dot: `(stem, extension)`. A name whose only
/// dot opens it has no extension.
pub open spec fn split_dot(name: Seq<char>) -> (Seq<char>, Option<Seq<char>>) {
    if name == seq!['.', '.'] {
        (name, None)
    } else {
        match rfind_char_before(name, '.', name.len() as int) {
            Some(k) => if k == 0 {
                (name, None)
            } else {
                (name.take(k), Some(name.skip(k + 1)))
            },
            None => (name, None),
        }
    }
}

/// `Path::extension`.
pub open spec fn extension(s: Seq<char>) -> Option<Seq<char>> {
    match file_name(s) {
        Some(n) => split_dot(n).1,
        None => None,
    }
}

/// `Path::file_stem`.
pub open spec fn file_stem(s: Seq<char>) -> Option<Seq<char>> {
    match file_name(s) {
        Some(n) => Some(split_dot(n).0),
        None => None,
    }
}

proof fn lemma_piece_start(s: Seq<char>, end: int)
    requires
        0 < end <= s.len(),
        s[end - 1] != '/',
    ensures
        0 <= piece_start(s, end) < end,
        forall|j: int| piece_start(s, end) <= j < end ==> s[j] != '/',
        piece_start(s, end) > 0 ==> s[piece_start(s, end) - 1] == '/',
{
    lemma_rfind_char_facts(s, '/', end);
}

/// Bounds of the last named component of `s[..end]`.
pub fn last_piece_exec(s: &[char], end: usize) -> (r: Option<(usize, usize)>)
    requires
        end <= s@.len(),
    ensures
        r matches Some(p) ==> last_piece(s@, end as int) == Some((p.0 as int, p.1 as int)) && p.0
            <= p.1 <= s@.len(),
        r is None ==> last_piece(s@, end as int) is None,
    decreases end,
{
    if end == 0 {
        return None;
    }
    if s[end - 1] == '/' {
        return last_piece_exec(s, end - 1);
    }
    proof {
        lemma_piece_start(s@, end as int);
    }
    let start = match rfind_char(s, '/', end) {
        Some(k) => k + 1,
        None => 0,
    };
    if end - start == 1 && s[start] == '.' {
        proof {
            assert(s@.subrange(start as int, end as int) =~= seq!['.']);
        }
        return last_piece_exec(s, start);
    }
    proof {
        assert(start == piece_start(s@, end as int));
        if s@.subrange(start as int, end as int) == seq!['.'] {
            assert(s@.subrange(start as int, end as int).len() == 1);
            assert(s@.subrange(start as int, end as int)[0] == s@[start as int]);
        }
        assert(s@.subrange(start as int, end as int) != seq!['.']);
        assert(last_piece(s@, end as int) == Some((start as int, end as int)));
    }
    Some((start, end))
}

/// `Path::file_name`, as character bounds.
pub fn file_name_range(s: &[char]) -> (r: Option<(usize, usize)>)
    ensures
        r matches Some(p) ==> p.0 <= p.1 <= s@.len() && file_name(s@) == Some(
            s@.subrange(p.0 as int, p.1 as int),
        ) && file_name_bounds(s@) == Some((p.0 as int, p.1 as int)),
        r is None ==> file_name(s@) is None && file_name_bounds(s@) is None,
{
    match last_piece_exec(s, s.len()) {
        Some((a, b)) => {
            if b - a == 2 && s[a] == '.' && s[a + 1] == '.' {
                proof {
                    assert(s@.subrange(a as int, b as int) =~= seq!['.', '.']);
                }
                None
            } else {
                proof {
                    if s@.subrange(a as int, b as int) == seq!['.', '.'] {
                        assert(s@.subrange(a as int, b as int).len() == 2);
                        assert(s@.subrange(a as int, b as int)[0] == s@[a as int]);
                        assert(s@.subrange(a as int, b as int)[1] == s@[a + 1]);
                    }
                }
                Some((a, b))
            }
        },
        None => None,
    }
}

/// `Path::file_name` of a path given as text.
pub fn file_name_of(path: &str) -> (r: Option<String>)
    ensures
        r matches Some(n) ==> file_name(path@) == Some(n@),
        r is None ==> file_name(path@) is None,
{
    let s = chars_of(path);
    match file_name_range(&s) {
        Some((a, b)) => Some(string_of(&slice_vec(&s, a, b))),
        None => None,
    }
}

/// Where the last dot of a file name splits it, as `split_dot` decides.
pub fn split_dot_exec(name: &[char]) -> (r: Option<usize>)
    ensures
        r matches Some(k) ==> k < name@.len() && split_dot(name@) == (
            name@.take(k as int),
            Some(name@.skip(k + 1)),
        ),
        r is None ==> split_dot(name@) == (name@, None::<Seq<char>>),
{
    if name.len() == 2 && name[0] == '.' && name[1] == '.' {
        assert(name@ =~= seq!['.', '.']);
        return None;
    }
    proof {
        if name@ == seq!['.', '.'] {
            assert(name@[0] == '.' && name@[1] == '.');
        }
    }
    match rfind_char(name, '.', name.len()) {
        Some(k) => {
            proof {
                lemma_rfind_char_facts(name@, '.', name@.len() as int);
            }
            if k == 0 {
                None
            } else {
                Some(k)
            }
        },
        None => None,
    }
}

/// `Path::extension` of a path given as text.
pub fn extension_of(path: &[char]) -> (r: Option<Vec<char>>)
    ensures
        r matches Some(e) ==> extension(path@) == Some(e@),
        r is None ==> extension(path@) is None,
{
    match file_name_range(path) {
        Some((a, b)) => {
            let name = slice_vec(path, a, b);
            match split_dot_exec(&name) {
                Some(k) => Some(slice_vec(&name, k + 1, name.len())),
                None => None,
            }
        },
        None => None,
    }
}

/// `Path::file_stem` of a path given as text.
pub fn file_stem_of(path: &[char]) -> (r: Option<Vec<char>>)
    ensures
        r matches Some(e) ==> file_stem(path@) == Some(e@),
        r is None ==> file_stem(path@) is None,
{
    match file_name_range(path) {
        Some((a, b)) => {
            let name = slice_vec(path, a, b);
            match split_dot_exec(&name) {
                Some(k) => Some(slice_vec(&name, 0, k)),
                None => Some(name),
            }
        },
        None => None,
    }
}

} // verus!
