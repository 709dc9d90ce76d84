//! Creating, deleting, moving, and copying items, keeping `.index` in step.
//!
//! Every mutation has to touch two things: the file on disk and the index
//! entry that gives it an id. The file operations are the caller's part; this
//! module decides names and destinations, and the index updates are
//! `Index`'s.

use vstd::prelude::*;

use crate::text::texts;

use crate::note::{filename_stem, filename_stem_text};
use crate::paths::{
    extension, extension_of, file_name, file_name_of, file_stem, file_stem_of, join, join_str,
};
use crate::text::{
    chars_of, decimal, extend_chars, extend_str, name_less, name_less_exec, string_of,
    usize_to_string,
};
use crate::workspace::{visible, visible_name};

verus! {

/// Where a stable insertion puts `x` among names already in order.
pub open spec fn name_slot(r: Seq<Seq<char>>, x: Seq<char>, i: int) -> int
    decreases r.len() - i,
{
    if i < 0 || i >= r.len() {
        r.len() as int
    } else if name_less(x, r[i]) {
        i
    } else {
        name_slot(r, x, i + 1)
    }
}

/// Names in order, as `sort` leaves them.
pub open spec fn names_in_order(s: Seq<Seq<char>>) -> Seq<Seq<char>>
    decreases s.len(),
{
    if s.len() == 0 {
        seq![]
    } else {
        let r = names_in_order(s.drop_last());
        r.insert(name_slot(r, s.last(), 0), s.last())
    }
}

proof fn lemma_name_slot(r: Seq<Seq<char>>, x: Seq<char>, i: int)
    requires
        0 <= i <= r.len(),
    ensures
        i <= name_slot(r, x, i) <= r.len(),
    decreases r.len() - i,
{
    if i < r.len() && !name_less(x, r[i]) {
        lemma_name_slot(r, x, i + 1);
    }
}

proof fn lemma_names_in_order_len(s: Seq<Seq<char>>)
    ensures
        names_in_order(s).len() == s.len(),
    decreases s.len(),
{
    if s.len() > 0 {
        lemma_names_in_order_len(s.drop_last());
        lemma_name_slot(names_in_order(s.drop_last()), s.last(), 0);
    }
}

/// The items directly inside a directory, given the names of its entries:
/// dotfiles left out, the rest in name order.
pub fn list_dir(names: &Vec<String>) -> (r: Vec<String>)
    ensures
        texts(r@) == names_in_order(visible(texts(names@))),
{
    let ghost all = texts(names@);
    let mut out: Vec<String> = Vec::new();
    assert(all.take(0) =~= Seq::<Seq<char>>::empty());
    for k in 0..names.len()
        invariant
            all == texts(names@),
            texts(out@) == names_in_order(visible(all.take(k as int))),
    {
        assert(all.take(k + 1).drop_last() =~= all.take(k as int));
        assert(all.take(k + 1).last() == names@[k as int]@);
        let name = chars_of(names[k].as_str());
        if !(name.len() > 0 && name[0] == '.') {
            let ghost before = texts(out@);
            proof {
                lemma_names_in_order_len(visible(all.take(k as int)));
            }
            let mut p: usize = 0;
            while p < out.len() && !name_less_exec(&name, &chars_of(out[p].as_str()))
                invariant
                    p <= out@.len(),
                    before == texts(out@),
                    name_slot(before, name@, 0) == name_slot(before, name@, p as int),
                decreases out@.len() - p,
            {
                assert(before[p as int] == out@[p as int]@);
                p += 1;
            }
            proof {
                if p < out@.len() {
                    assert(before[p as int] == out@[p as int]@);
                }
            }
            let s = string_of(&name);
            out.insert(p, s);
            assert(texts(out@) =~= before.insert(p as int, name@));
            proof {
                let v = visible(all.take(k as int));
                assert(visible(all.take(k + 1)) == v.push(name@));
                assert(v.push(name@).drop_last() =~= v);
            }
        } else {
            assert(visible(all.take(k + 1)) == visible(all.take(k as int)));
        }
    }
    assert(all.take(names@.len() as int) =~= all);
    out
}

/// How many items sit directly inside a directory, given its entries' names.
pub fn count(names: &Vec<String>) -> (r: usize)
    ensures
        r == visible(texts(names@)).len(),
{
    let listed = list_dir(names);
    proof {
        lemma_names_in_order_len(visible(texts(names@)));
    }
    listed.len()
}

/// Where an item goes: into `to` when that is a directory, else to `to`
/// itself.
pub open spec fn destination_text(from: Seq<char>, to: Seq<char>, to_is_dir: bool) -> Option<Seq<char>> {
    if to_is_dir {
        match file_name(from) {
            Some(n) => Some(join(to, n)),
            None => None,
        }
    } else {
        Some(to)
    }
}

/// Interpret a destination that may be a directory or a full path; `None`
/// when it is a directory and the item has no file name to keep.
pub fn destination(from: &str, to: &str, to_is_dir: bool) -> (r: Option<String>)
    ensures
        match destination_text(from@, to@, to_is_dir) {
            Some(d) => r matches Some(s) && s@ == d,
            None => r is None,
        },
{
    if to_is_dir {
        match file_name_of(from) {
            Some(n) => Some(join_str(to, n.as_str())),
            None => None,
        }
    } else {
        Some(to.to_owned())
    }
}

/// The file name an item gets when renamed after its title, keeping its
/// extension.
pub open spec fn title_name(path: Seq<char>, title: Seq<char>) -> Seq<char> {
    match extension(path) {
        Some(ext) => filename_stem_text(title) + seq!['.'] + ext,
        None => filename_stem_text(title),
    }
}

/// The new file name for renaming an item after its own title, as
/// `nb move --to-title` does; the caller renames it beside itself.
pub fn rename_to_title(path: &str, title: &str) -> (r: String)
    ensures
        r@ == title_name(path@, title@),
{
    let stem = filename_stem(title);
    match extension_of(&chars_of(path)) {
        Some(ext) => {
            let mut out = chars_of(stem.as_str());
            out.push('.');
            extend_chars(&mut out, &ext);
            string_of(&out)
        },
        None => stem,
    }
}

/// The `n`th path tried beside an existing one: `name.md` → `name-2.md`, …
/// in the same directory (`dir`).
pub open spec fn beside_text(dir: Seq<char>, path: Seq<char>, n: nat) -> Seq<char> {
    let stem = match file_stem(path) {
        Some(s) => s,
        None => seq![],
    };
    let ext = match extension(path) {
        Some(e) => seq!['.'] + e,
        None => seq![],
    };
    join(dir, stem + seq!['-'] + decimal(n) + ext)
}

pub fn beside(dir: &str, path: &str, n: usize) -> (r: String)
    ensures
        r@ == beside_text(dir@, path@, n as nat),
{
    let p = chars_of(path);
    let mut name: Vec<char> = match file_stem_of(&p) {
        Some(s) => s,
        None => Vec::new(),
    };
    name.push('-');
    extend_str(&mut name, usize_to_string(n).as_str());
    match extension_of(&p) {
        Some(e) => {
            name.push('.');
            extend_chars(&mut name, &e);
        },
        None => {},
    }
    join_str(dir, string_of(&name).as_str())
}

/// The refusal to move an item onto one that exists.
pub fn already_exists_message(path: &str) -> (r: String)
    ensures
        r@ == "already exists: "@ + path@,
{
    let mut out = chars_of("already exists: ");
    extend_str(&mut out, path);
    string_of(&out)
}

} // verus!
