//! Settings, stored in the `.kbrc` shell file, in the format `nb` uses for
//! its `.nbrc`, which is read when kb has no file of its own.
//!
//! The file is sourced by a shell, so each setting is an `export` line of the
//! form `export NB_NAME="${NB_NAME:-value}"` — the indirection lets an
//! environment variable override the file. Reading and writing that exact shape
//! keeps one configuration working for both tools.
//!
//! The values are held as a list of `(name, value)` pairs kept sorted by name
//! with no name twice, so they read like a map and list in name order.

use vstd::prelude::*;

use crate::paths::{join, join_str};
use crate::text::{
    trim_matching, trim_matching_exec,
    lemma_name_less_irreflexive, lemma_name_less_total, lemma_name_less_transitive, name_less,
    name_less_exec,
    chars_eq, chars_of, decimal, decimal_chars, extend_chars, extend_str, find, find_char,
    find_char_from, find_chars, join_with, lemma_find_char_facts, lemma_find_from_facts,
    joined_lines, lemma_lines_joined, line_ranges, lines, lower, parse_unsigned, parse_unsigned_exec, ranges_within, slice_vec,
    spans, starts_with, string_of, to_lower, trim, trim_chars, trim_range,
};

verus! {

/// Filename of the configuration file.
pub const RC_FILE: &'static str = ".nbrc";

/// The settings `nb` recognises, in the order `settings list` prints them.
pub open spec fn known_names() -> Seq<Seq<char>> {
    seq![
        "auto_sync"@,
        "color_primary"@,
        "color_secondary"@,
        "color_theme"@,
        "default_extension"@,
        "editor"@,
        "encryption_tool"@,
        "footer"@,
        "header"@,
        "limit"@,
        "nb_dir"@,
        "syntax_theme"@,
    ]
}

/// The settings `nb` recognises, in the order `settings list` prints them.
pub fn known() -> (r: Vec<&'static str>)
    ensures
        r@.map_values(|s: &str| s@) == known_names(),
{
    let mut v: Vec<&'static str> = Vec::new();
    v.push("auto_sync");
    v.push("color_primary");
    v.push("color_secondary");
    v.push("color_theme");
    v.push("default_extension");
    v.push("editor");
    v.push("encryption_tool");
    v.push("footer");
    v.push("header");
    v.push("limit");
    v.push("nb_dir");
    v.push("syntax_theme");
    assert(v@.map_values(|s: &str| s@) =~= known_names());
    v
}

/// The comment block that opens the settings file, one entry per line.
pub open spec fn header_lines() -> Seq<Seq<char>> {
    seq![
        "#!/usr/bin/env bash"@,
        "###############################################################################"@,
        "# .nbrc"@,
        "#"@,
        "# Configuration file for `kb`, a fast Markdown knowledge base."@,
        "#"@,
        "# Compatible with `nb`: settings are environment variables, eg:"@,
        "#   export NB_ENCRYPTION_TOOL=gpg"@,
        "#"@,
        "# https://github.com/Koutaro-Hanabusa/kb"@,
        "###############################################################################"@,
    ]
}

/// The lines of the comment block that opens the settings file.
fn header() -> (r: Vec<&'static str>)
    ensures
        r@.map_values(|s: &str| s@) == header_lines(),
{
    let mut v: Vec<&'static str> = Vec::new();
    v.push("#!/usr/bin/env bash");
    v.push("###############################################################################");
    v.push("# .nbrc");
    v.push("#");
    v.push("# Configuration file for `kb`, a fast Markdown knowledge base.");
    v.push("#");
    v.push("# Compatible with `nb`: settings are environment variables, eg:");
    v.push("#   export NB_ENCRYPTION_TOOL=gpg");
    v.push("#");
    v.push("# https://github.com/Koutaro-Hanabusa/kb");
    v.push("###############################################################################");
    assert(v@.map_values(|s: &str| s@) =~= header_lines());
    v
}


// ───────────────────────── names ─────────────────────────

/// `char::to_ascii_uppercase`.
pub open spec fn upper_char(c: char) -> char {
    if 'a' <= c && c <= 'z' {
        ((c as u32) - 32) as char
    } else {
        c
    }
}

pub open spec fn upper(s: Seq<char>) -> Seq<char> {
    s.map_values(|c: char| upper_char(c))
}

fn to_upper(s: &[char]) -> (r: Vec<char>)
    ensures
        r@ == upper(s@),
{
    let mut r: Vec<char> = Vec::new();
    for i in 0..s.len()
        invariant
            r@ == upper(s@.take(i as int)),
    {
        let c = s[i];
        let u = if 'a' <= c && c <= 'z' {
            let v: u32 = (c as u32) - 32;
            crate::text::char_from_ascii(v)
        } else {
            c
        };
        r.push(u);
        assert(upper(s@.take(i + 1)) =~= upper(s@.take(i as int)).push(upper_char(s@[i as int])));
    }
    assert(s@.take(s@.len() as int) =~= s@);
    r
}

/// A setting's name as stored: trimmed and lower-cased; an `nb_` prefix,
/// the form the environment and the file carry, is dropped unless the name
/// is a setting as it stands (`nb_dir` is one).
pub open spec fn normalised(name: Seq<char>) -> Seq<char> {
    let l = lower(trim(name));
    if known_names().contains(l) {
        l
    } else if l.len() >= 3 && l.take(3) == "nb_"@ {
        l.skip(3)
    } else {
        l
    }
}

/// The environment variable (and file key) for a setting: `NB_` and its
/// name in upper case.
pub open spec fn env_key_text(name: Seq<char>) -> Seq<char> {
    "NB_"@ + upper(normalised(name))
}

/// The `kb` form of a setting's environment variable: `KB_` and its name in
/// upper case.
pub open spec fn kb_key_text(name: Seq<char>) -> Seq<char> {
    "KB_"@ + upper(normalised(name))
}

fn normalise(name: &str) -> (r: Vec<char>)
    ensures
        r@ == normalised(name@),
{
    let l = to_lower(&trim_chars(&chars_of(name)));
    if is_known(&l) {
        return l;
    }
    proof {
        reveal_strlit("nb_");
    }
    if l.len() >= 3 && l[0] == 'n' && l[1] == 'b' && l[2] == '_' {
        assert(l@.take(3) =~= "nb_"@);
        slice_vec(&l, 3, l.len())
    } else {
        proof {
            if l@.len() >= 3 && l@.take(3) == "nb_"@ {
                assert(l@.take(3)[0] == l@[0] && l@.take(3)[1] == l@[1] && l@.take(3)[2] == l@[2]);
            }
        }
        l
    }
}

/// The `kb` environment variable that overrides a setting, preferred to the
/// `NB_` one: `KB_` and its name in upper case.
pub fn kb_env_key(name: &str) -> (r: String)
    ensures
        r@ == kb_key_text(name@),
{
    let mut out: Vec<char> = Vec::new();
    extend_str(&mut out, "KB_");
    extend_chars(&mut out, &to_upper(&normalise(name)));
    string_of(&out)
}

/// The environment variable that overrides a setting: `NB_` and its name in
/// upper case.
pub fn env_key(name: &str) -> (r: String)
    ensures
        r@ == env_key_text(name@),
{
    let mut out: Vec<char> = Vec::new();
    extend_str(&mut out, "NB_");
    extend_chars(&mut out, &to_upper(&normalise(name)));
    string_of(&out)
}

/// The message refusing a name outside the known settings.
pub open spec fn unknown_message(name: Seq<char>) -> Seq<char> {
    "unknown setting `"@ + name + "` (known: "@ + join_with(known_names(), ", "@) + ")"@
}

fn is_known(name: &[char]) -> (r: bool)
    ensures
        r == known_names().contains(name@),
{
    let names = known();
    let ghost ks = names@.map_values(|s: &str| s@);
    for i in 0..names.len()
        invariant
            ks == known_names(),
            ks == names@.map_values(|s: &str| s@),
            forall|j: int| 0 <= j < i ==> ks[j] != name@,
    {
        assert(ks[i as int] == names@[i as int]@);
        if chars_eq(name, &chars_of(names[i])) {
            assert(ks[i as int] == name@);
            return true;
        }
    }
    false
}

fn unknown_error(name: &[char]) -> (r: String)
    ensures
        r@ == unknown_message(name@),
{
    let names = known();
    let ghost ks = names@.map_values(|s: &str| s@);
    let mut out: Vec<char> = Vec::new();
    extend_str(&mut out, "unknown setting `");
    extend_chars(&mut out, name);
    extend_str(&mut out, "` (known: ");
    let ghost start = out@;
    for i in 0..names.len()
        invariant
            ks == known_names(),
            ks == names@.map_values(|s: &str| s@),
            out@ == start + join_with(ks.take(i as int), ", "@),
    {
        proof {
            crate::text::lemma_join_with_push(ks.take(i as int), ", "@, ks[i as int]);
            assert(ks.take(i + 1) =~= ks.take(i as int).push(ks[i as int]));
        }
        assert(ks[i as int] == names@[i as int]@);
        if i > 0 {
            extend_str(&mut out, ", ");
        }
        extend_str(&mut out, names[i]);
        assert(out@ =~= start + join_with(ks.take(i + 1), ", "@));
    }
    assert(ks.take(names@.len() as int) =~= ks);
    extend_str(&mut out, ")");
    string_of(&out)
}

/// A setting's name, validated: the normalised name when it is known, else
/// the message refusing it.
pub open spec fn validated(name: Seq<char>) -> Result<Seq<char>, Seq<char>> {
    if known_names().contains(normalised(name)) {
        Ok(normalised(name))
    } else {
        Err(unknown_message(normalised(name)))
    }
}

fn validate(name: &str) -> (r: Result<Vec<char>, String>)
    ensures
        match validated(name@) {
            Ok(n) => r matches Ok(v) && v@ == n,
            Err(m) => r matches Err(e) && e@ == m,
        },
{
    let n = normalise(name);
    if is_known(&n) {
        Ok(n)
    } else {
        Err(unknown_error(&n))
    }
}

/// What `settings set` and friends make of a name or a 1-based number: a
/// number picks from the known list, anything else must be a known name.
pub open spec fn name_resolved(input: Seq<char>) -> Result<Seq<char>, Seq<char>> {
    match parse_unsigned(input, usize::MAX as nat) {
        Some(n) => if 1 <= n <= known_names().len() {
            Ok(known_names()[n - 1])
        } else {
            Err("no setting numbered "@ + decimal(n))
        },
        None => validated(input),
    }
}

/// Resolve a setting given by name or by its 1-based number.
pub fn resolve_name(input: &str) -> (r: Result<String, String>)
    ensures
        match name_resolved(input@) {
            Ok(n) => r matches Ok(v) && v@ == n,
            Err(m) => r matches Err(e) && e@ == m,
        },
{
    match parse_unsigned_exec(&chars_of(input), usize::MAX as u64) {
        Some(n) => {
            let names = known();
            let ghost ks = names@.map_values(|s: &str| s@);
            assert(ks == known_names());
            if 1 <= n && n <= names.len() as u64 {
                let k = (n - 1) as usize;
                assert(ks[k as int] == names@[k as int]@);
                Ok(names[k].to_owned())
            } else {
                let mut out: Vec<char> = Vec::new();
                extend_str(&mut out, "no setting numbered ");
                extend_chars(&mut out, &decimal_chars(n));
                Err(string_of(&out))
            }
        },
        None => match validate(input) {
            Ok(n) => Ok(string_of(&n)),
            Err(e) => Err(e),
        },
    }
}

/// A settings file's path: the variable's value when set and not empty,
/// else `name` in the home directory.
pub open spec fn rc_file_text(home: Seq<char>, name: Seq<char>, var: Option<Seq<char>>) -> Seq<char> {
    match var {
        Some(p) => if p.len() > 0 {
            p
        } else {
            join(home, name)
        },
        None => join(home, name),
    }
}

/// Where kb keeps its own settings, the file it reads first and the only
/// one it writes: `$KBRC_PATH` when set and not empty, else `~/.kbrc`.
pub fn rc_path(home: &str, kbrc_path: Option<&str>) -> (r: String)
    ensures
        r@ == rc_file_text(home@, ".kbrc"@, match kbrc_path {
            Some(p) => Some(p@),
            None => None,
        }),
{
    rc_file(home, ".kbrc", kbrc_path)
}

/// Where `nb` keeps its settings, read when kb has none of its own:
/// `$NBRC_PATH` when set and not empty, else `~/.nbrc`.
pub fn nbrc_path(home: &str, nbrc_var: Option<&str>) -> (r: String)
    ensures
        r@ == rc_file_text(home@, ".nbrc"@, match nbrc_var {
            Some(p) => Some(p@),
            None => None,
        }),
{
    rc_file(home, ".nbrc", nbrc_var)
}

fn rc_file(home: &str, name: &str, var: Option<&str>) -> (r: String)
    ensures
        r@ == rc_file_text(home@, name@, match var {
            Some(p) => Some(p@),
            None => None,
        }),
{
    match var {
        Some(p) => if !p.is_empty() {
            p.to_owned()
        } else {
            join_str(home, name)
        },
        None => join_str(home, name),
    }
}

/// The settings text to read: kb's own file when it exists, else `nb`'s.
pub fn settings_source(own: Option<String>, fallback: Option<String>) -> (r: Option<String>)
    ensures
        r == (if own is Some {
            own
        } else {
            fallback
        }),
{
    match own {
        Some(t) => Some(t),
        None => fallback,
    }
}

/// Settings as names and values.
pub open spec fn pairs(v: Seq<(String, String)>) -> Seq<(Seq<char>, Seq<char>)> {
    v.map_values(|p: (String, String)| (p.0@, p.1@))
}

/// Names strictly increasing, so none occurs twice.
pub open spec fn sorted(es: Seq<(Seq<char>, Seq<char>)>) -> bool {
    forall|i: int, j: int| 0 <= i < j < es.len() ==> name_less(#[trigger] es[i].0, #[trigger] es[j].0)
}

/// The value stored under a name.
pub open spec fn lookup(es: Seq<(Seq<char>, Seq<char>)>, name: Seq<char>) -> Option<Seq<char>>
    decreases es.len(),
{
    if es.len() == 0 {
        None
    } else if es[0].0 == name {
        Some(es[0].1)
    } else {
        lookup(es.drop_first(), name)
    }
}

pub proof fn lemma_lookup_at(es: Seq<(Seq<char>, Seq<char>)>, j: int)
    requires
        sorted(es),
        0 <= j < es.len(),
    ensures
        lookup(es, es[j].0) == Some(es[j].1),
    decreases es.len(),
{
    if j > 0 {
        lemma_name_less_irreflexive(es[j].0);
        assert(es[0].0 != es[j].0) by {
            if es[0].0 == es[j].0 {
                assert(name_less(es[0].0, es[j].0));
            }
        }
        assert(es.drop_first()[j - 1] == es[j]);
        lemma_lookup_at(es.drop_first(), j - 1);
    }
}

pub proof fn lemma_lookup_absent(es: Seq<(Seq<char>, Seq<char>)>, name: Seq<char>)
    requires
        forall|j: int| 0 <= j < es.len() ==> es[j].0 != name,
    ensures
        lookup(es, name) is None,
    decreases es.len(),
{
    if es.len() > 0 {
        assert forall|j: int| 0 <= j < es.drop_first().len() implies es.drop_first()[j].0 != name by {
            assert(es.drop_first()[j] == es[j + 1]);
        }
        lemma_lookup_absent(es.drop_first(), name);
    }
}

pub proof fn lemma_lookup_some(es: Seq<(Seq<char>, Seq<char>)>, name: Seq<char>)
    requires
        lookup(es, name) is Some,
    ensures
        exists|j: int| 0 <= j < es.len() && es[j].0 == name && lookup(es, name) == Some(es[j].1),
    decreases es.len(),
{
    if es[0].0 != name {
        lemma_lookup_some(es.drop_first(), name);
        let j = choose|j: int|
            0 <= j < es.drop_first().len() && es.drop_first()[j].0 == name && lookup(
                es.drop_first(),
                name,
            ) == Some(es.drop_first()[j].1);
        assert(es[j + 1] == es.drop_first()[j]);
    }
}

/// Put a value under a name in a sorted list: replaced where the name is,
/// inserted in order where it is not.
fn upsert(values: &mut Vec<(String, String)>, name: Vec<char>, value: Vec<char>)
    requires
        sorted(pairs(old(values)@)),
    ensures
        sorted(pairs(final(values)@)),
        forall|k: Seq<char>|
            #[trigger] lookup(pairs(final(values)@), k) == if k == name@ {
                Some(value@)
            } else {
                lookup(pairs(old(values)@), k)
            },
{
    let ghost old_es = pairs(values@);
    let mut i: usize = 0;
    while i < values.len() && name_less_exec(&chars_of(values[i].0.as_str()), &name)
        invariant
            i <= values@.len(),
            old_es == pairs(values@),
            sorted(old_es),
            forall|j: int| 0 <= j < i ==> name_less(#[trigger] old_es[j].0, name@),
        decreases values@.len() - i,
    {
        assert(old_es[i as int].0 == values@[i as int].0@);
        i += 1;
    }
    let ghost below = forall|j: int| 0 <= j < i ==> name_less(#[trigger] old_es[j].0, name@);
    let n = string_of(&name);
    let v = string_of(&value);
    if i < values.len() && chars_eq(&chars_of(values[i].0.as_str()), &name) {
        assert(old_es[i as int].0 == name@);
        values.set(i, (n, v));
        let ghost new_es = pairs(values@);
        assert(new_es =~= old_es.update(i as int, (name@, value@)));
        assert(sorted(new_es));
        assert forall|k: Seq<char>| #[trigger]
            lookup(new_es, k) == if k == name@ {
                Some(value@)
            } else {
                lookup(old_es, k)
            } by {
            if k == name@ {
                lemma_lookup_at(new_es, i as int);
            } else {
                if lookup(old_es, k) is Some {
                    lemma_lookup_some(old_es, k);
                    let j = choose|j: int|
                        0 <= j < old_es.len() && old_es[j].0 == k && lookup(old_es, k) == Some(
                            old_es[j].1,
                        );
                    lemma_lookup_at(new_es, j);
                } else {
                    if lookup(new_es, k) is Some {
                        lemma_lookup_some(new_es, k);
                        let j = choose|j: int|
                            0 <= j < new_es.len() && new_es[j].0 == k && lookup(new_es, k) == Some(
                                new_es[j].1,
                            );
                        lemma_lookup_at(old_es, j);
                    }
                }
            }
        }
    } else {
        proof {
            if i < old_es.len() {
                assert(old_es[i as int].0 == values@[i as int].0@);
                lemma_name_less_total(old_es[i as int].0, name@);
            }
        }
        values.insert(i, (n, v));
        let ghost new_es = pairs(values@);
        assert(new_es =~= old_es.insert(i as int, (name@, value@)));
        assert forall|a: int, b: int| 0 <= a < b < new_es.len() implies name_less(
            #[trigger] new_es[a].0,
            #[trigger] new_es[b].0,
        ) by {
            if b < i {
            } else if b == i {
                assert(name_less(old_es[a].0, name@));
            } else if a == i {
                if b > i + 1 {
                    lemma_name_less_transitive(name@, old_es[i as int].0, old_es[b - 1].0);
                }
            } else if a < i {
                assert(name_less(old_es[a].0, name@));
                if b - 1 > i {
                    lemma_name_less_transitive(name@, old_es[i as int].0, old_es[b - 1].0);
                }
                lemma_name_less_transitive(old_es[a].0, name@, old_es[b - 1].0);
            } else {
                assert(name_less(old_es[a - 1].0, old_es[b - 1].0));
            }
        }
        assert forall|j: int| 0 <= j < old_es.len() implies old_es[j].0 != name@ by {
            lemma_name_less_irreflexive(name@);
            if j < i {
                assert(name_less(old_es[j].0, name@));
            } else {
                if j > i {
                    lemma_name_less_transitive(name@, old_es[i as int].0, old_es[j].0);
                }
            }
        }
        assert forall|k: Seq<char>| #[trigger]
            lookup(new_es, k) == if k == name@ {
                Some(value@)
            } else {
                lookup(old_es, k)
            } by {
            if k == name@ {
                lemma_lookup_at(new_es, i as int);
                lemma_lookup_absent(old_es, k);
            } else {
                if lookup(old_es, k) is Some {
                    lemma_lookup_some(old_es, k);
                    let j = choose|j: int|
                        0 <= j < old_es.len() && old_es[j].0 == k && lookup(old_es, k) == Some(
                            old_es[j].1,
                        );
                    if j < i {
                        assert(new_es[j] == old_es[j]);
                        lemma_lookup_at(new_es, j);
                    } else {
                        assert(new_es[j + 1] == old_es[j]);
                        lemma_lookup_at(new_es, j + 1);
                    }
                } else {
                    if lookup(new_es, k) is Some {
                        lemma_lookup_some(new_es, k);
                        let j = choose|j: int|
                            0 <= j < new_es.len() && new_es[j].0 == k && lookup(new_es, k) == Some(
                                new_es[j].1,
                            );
                        if j < i {
                            lemma_lookup_at(old_es, j);
                        } else if j > i {
                            assert(new_es[j] == old_es[j - 1]);
                            lemma_lookup_at(old_es, j - 1);
                        }
                    }
                }
            }
        }
    }
}

/// Take a name out of a sorted list.
fn remove_name(values: &mut Vec<(String, String)>, name: &Vec<char>)
    requires
        sorted(pairs(old(values)@)),
    ensures
        sorted(pairs(final(values)@)),
        forall|k: Seq<char>|
            #[trigger] lookup(pairs(final(values)@), k) == if k == name@ {
                None
            } else {
                lookup(pairs(old(values)@), k)
            },
{
    let ghost old_es = pairs(values@);
    let mut i: usize = 0;
    while i < values.len() && !chars_eq(&chars_of(values[i].0.as_str()), name)
        invariant
            i <= values@.len(),
            old_es == pairs(values@),
            forall|j: int| 0 <= j < i ==> (#[trigger] old_es[j]).0 != name@,
        decreases values@.len() - i,
    {
        assert(old_es[i as int].0 == values@[i as int].0@);
        i += 1;
    }
    if i < values.len() {
        let ghost at = i as int;
        assert(old_es[at].0 == values@[at].0@);
        assert(old_es[at].0 == name@);
        values.remove(i);
        let ghost new_es = pairs(values@);
        assert(new_es =~= old_es.remove(at));
        assert forall|a: int, b: int| 0 <= a < b < new_es.len() implies name_less(
            #[trigger] new_es[a].0,
            #[trigger] new_es[b].0,
        ) by {
            let oa = if a < at { a } else { a + 1 };
            let ob = if b < at { b } else { b + 1 };
            assert(new_es[a] == old_es[oa] && new_es[b] == old_es[ob]);
        }
        assert forall|k: Seq<char>| #[trigger]
            lookup(new_es, k) == if k == name@ {
                None
            } else {
                lookup(old_es, k)
            } by {
            if k == name@ {
                assert forall|j: int| 0 <= j < new_es.len() implies new_es[j].0 != k by {
                    lemma_name_less_irreflexive(k);
                    if j < at {
                        assert(name_less(old_es[j].0, old_es[at].0));
                    } else {
                        assert(new_es[j] == old_es[j + 1]);
                        assert(name_less(old_es[at].0, old_es[j + 1].0));
                    }
                }
                lemma_lookup_absent(new_es, k);
            } else if lookup(old_es, k) is Some {
                lemma_lookup_some(old_es, k);
                let j = choose|j: int|
                    0 <= j < old_es.len() && old_es[j].0 == k && lookup(old_es, k) == Some(
                        old_es[j].1,
                    );
                if j < at {
                    lemma_lookup_at(new_es, j);
                } else {
                    assert(new_es[j - 1] == old_es[j]);
                    lemma_lookup_at(new_es, j - 1);
                }
            } else if lookup(new_es, k) is Some {
                lemma_lookup_some(new_es, k);
                let j = choose|j: int|
                    0 <= j < new_es.len() && new_es[j].0 == k && lookup(new_es, k) == Some(
                        new_es[j].1,
                    );
                if j < at {
                    lemma_lookup_at(old_es, j);
                } else {
                    assert(new_es[j] == old_es[j + 1]);
                    lemma_lookup_at(old_es, j + 1);
                }
            }
        }
    } else {
        assert forall|k: Seq<char>| #[trigger]
            lookup(pairs(values@), k) == if k == name@ {
                None
            } else {
                lookup(old_es, k)
            } by {
            if k == name@ {
                lemma_lookup_absent(old_es, k);
            }
        }
    }
}

// ───────────────────────── the file ─────────────────────────

/// `${NAME:-value}` unwrapped to its value; anything else as it is.
pub open spec fn unwrap_default(v: Seq<char>) -> Seq<char> {
    if v.len() >= 3 && v[0] == '$' && v[1] == '{' && v.last() == '}' {
        let inner = v.subrange(2, v.len() - 1);
        match find(inner, ":-"@) {
            Some(k) => inner.skip(k + 2),
            None => inner,
        }
    } else {
        v
    }
}

/// An `export NB_NAME=value` line: the setting's name, lower-cased, and its
/// value, quotes, a `${...:-}` default form and a trailing ` #` comment
/// removed.
pub open spec fn parsed_line(line: Seq<char>) -> Option<(Seq<char>, Seq<char>)> {
    let l = trim(line);
    if !"export "@.is_prefix_of(l) {
        None
    } else {
        let r0 = l.skip(7);
        let rest = trim(
            match find(r0, " #"@) {
                Some(k) => r0.take(k),
                None => r0,
            },
        );
        match find_char_from(rest, '=', 0) {
            Some(e) => {
                let key = rest.take(e);
                if "NB_"@.is_prefix_of(key) {
                    Some((lower(key.skip(3)), unwrap_default(trim_matching(trim(rest.skip(e + 1)), '"'))))
                } else {
                    None
                }
            },
            None => None,
        }
    }
}

/// The value the first `n` lines leave under a name: the last line that sets
/// it wins.
pub open spec fn parsed_lookup(ls: Seq<Seq<char>>, n: int, name: Seq<char>) -> Option<Seq<char>>
    decreases n,
{
    if n <= 0 {
        None
    } else {
        match parsed_line(ls[n - 1]) {
            Some((k, v)) => if k == name {
                Some(v)
            } else {
                parsed_lookup(ls, n - 1, name)
            },
            None => parsed_lookup(ls, n - 1, name),
        }
    }
}

fn unwrap_default_exec(v: Vec<char>) -> (r: Vec<char>)
    ensures
        r@ == unwrap_default(v@),
{
    let n = v.len();
    if n >= 3 && v[0] == '$' && v[1] == '{' && v[n - 1] == '}' {
        let inner = slice_vec(&v, 2, n - 1);
        let sep = chars_of(":-");
        proof {
            reveal_strlit(":-");
        }
        match find_chars(&inner, &sep, 0) {
            Some(k) => {
                proof {
                    lemma_find_from_facts(inner@, sep@, 0);
                }
                slice_vec(&inner, k + 2, inner.len())
            },
            None => inner,
        }
    } else {
        v
    }
}

fn parse_line(line: &[char]) -> (r: Option<(Vec<char>, Vec<char>)>)
    ensures
        match parsed_line(line@) {
            Some((k, v)) => r matches Some((a, b)) && a@ == k && b@ == v,
            None => r is None,
        },
{
    let l = trim_chars(line);
    let export = chars_of("export ");
    proof {
        reveal_strlit("export ");
        reveal_strlit(" #");
        reveal_strlit("NB_");
    }
    if !starts_with(&l, &export) {
        return None;
    }
    let r0 = slice_vec(&l, 7, l.len());
    let hash = chars_of(" #");
    let r1 = match find_chars(&r0, &hash, 0) {
        Some(k) => {
            proof {
                lemma_find_from_facts(r0@, hash@, 0);
            }
            slice_vec(&r0, 0, k)
        },
        None => r0,
    };
    let rest = trim_chars(&r1);
    let e = match find_char(&rest, '=', 0) {
        Some(e) => e,
        None => return None,
    };
    proof {
        lemma_find_char_facts(rest@, '=', 0);
    }
    assert(e < rest@.len());
    let key = slice_vec(&rest, 0, e);
    if !starts_with(&key, &chars_of("NB_")) {
        return None;
    }
    let name = to_lower(&slice_vec(&key, 3, key.len()));
    let n = rest.len();
    assert(e < n);
    let raw = slice_vec(&rest, e + 1, n);
    let value = unwrap_default_exec(trim_matching_exec(&trim_chars(&raw), '"'));
    Some((name, value))
}

/// Read `export NB_NAME="${NB_NAME:-value}"` lines into a sorted list; a name
/// set twice keeps its last value.
pub fn parse(raw: &str) -> (r: Vec<(String, String)>)
    ensures
        sorted(pairs(r@)),
        forall|k: Seq<char>|
            #[trigger] lookup(pairs(r@), k) == parsed_lookup(lines(raw@), lines(raw@).len() as int, k),
{
    let t = chars_of(raw);
    let ranges = line_ranges(&t);
    let ghost ls = lines(t@);
    let mut values: Vec<(String, String)> = Vec::new();
    proof {
        assert forall|k: Seq<char>| #[trigger] lookup(pairs(values@), k) == parsed_lookup(ls, 0, k) by {
            assert(pairs(values@).len() == 0);
        }
    }
    for i in 0..ranges.len()
        invariant
            spans(t@, ranges@) == ls,
            ls == lines(raw@),
            ranges_within(ranges@, t@.len() as int),
            sorted(pairs(values@)),
            forall|k: Seq<char>| #[trigger] lookup(pairs(values@), k) == parsed_lookup(ls, i as int, k),
    {
        let (a, b) = ranges[i];
        assert(ranges@[i as int].0 <= ranges@[i as int].1 <= t@.len());
        let line = slice_vec(&t, a, b);
        assert(line@ == ls[i as int]);
        match parse_line(&line) {
            Some((name, value)) => {
                let ghost before = pairs(values@);
                upsert(&mut values, name, value);
                assert forall|k: Seq<char>| #[trigger]
                    lookup(pairs(values@), k) == parsed_lookup(ls, i + 1, k) by {
                    assert(lookup(before, k) == parsed_lookup(ls, i as int, k));
                }
            },
            None => {
                assert forall|k: Seq<char>| #[trigger]
                    lookup(pairs(values@), k) == parsed_lookup(ls, i + 1, k) by {
                    assert(lookup(pairs(values@), k) == parsed_lookup(ls, i as int, k));
                }
            },
        }
    }
    values
}

/// One setting as the file writes it.
pub open spec fn export_line(name: Seq<char>, value: Seq<char>) -> Seq<char> {
    let key = env_key_text(name);
    "\nexport "@ + key + "=\"${"@ + key + ":-"@ + value + "}\"\n"@
}

/// The export lines of the first `n` settings.
pub open spec fn export_lines(es: Seq<(Seq<char>, Seq<char>)>, n: int) -> Seq<char>
    decreases n,
{
    if n <= 0 {
        seq![]
    } else {
        export_lines(es, n - 1) + export_line(es[n - 1].0, es[n - 1].1)
    }
}

/// The settings file: the header, then one export line per setting.
pub open spec fn file_text(es: Seq<(Seq<char>, Seq<char>)>) -> Seq<char> {
    joined_lines(header_lines()) + export_lines(es, es.len() as int)
}

/// An environment variable's value, when it is set and not empty.
pub open spec fn env_override(env_value: Option<&str>) -> Option<Seq<char>> {
    match env_value {
        Some(v) => if v@.len() > 0 {
            Some(v@)
        } else {
            None
        },
        None => None,
    }
}

/// The environment's value for a setting: its `KB_` variable when set and
/// not empty, else its `NB_` variable when set and not empty.
pub open spec fn env_choice(kb_value: Option<&str>, nb_value: Option<&str>) -> Option<Seq<char>> {
    match env_override(kb_value) {
        Some(v) => Some(v),
        None => env_override(nb_value),
    }
}

/// The settings file.
#[derive(Debug, Clone, Default)]
pub struct Settings {
    path: String,
    values: Vec<(String, String)>,
}

impl View for Settings {
    type V = Seq<(Seq<char>, Seq<char>)>;

    closed spec fn view(&self) -> Seq<(Seq<char>, Seq<char>)> {
        pairs(self.values@)
    }
}

impl Settings {
    /// Where the settings live.
    pub closed spec fn path_text(&self) -> Seq<char> {
        self.path@
    }

    /// Names kept in order, none twice.
    pub open spec fn wf(&self) -> bool {
        sorted(self@)
    }

    /// The settings at `path`, given the file's text when it could be read.
    pub fn load(path: &str, raw: Option<&str>) -> (r: Settings)
        ensures
            r.wf(),
            r.path_text() == path@,
            forall|k: Seq<char>|
                #[trigger] lookup(r@, k) == match raw {
                    Some(t) => parsed_lookup(lines(t@), lines(t@).len() as int, k),
                    None => None,
                },
    {
        let values = match raw {
            Some(t) => parse(t),
            None => Vec::new(),
        };
        proof {
            if raw is None {
                assert forall|k: Seq<char>| #[trigger] lookup(pairs(values@), k) is None by {
                    assert(pairs(values@).len() == 0);
                }
            }
        }
        Settings { path: path.to_owned(), values }
    }

    pub fn path(&self) -> (r: &str)
        ensures
            r@ == self.path_text(),
    {
        self.path.as_str()
    }

    /// A setting's value: the environment first, then the file. `kb_value`
    /// and `nb_value` are the variables `kb_env_key` and `env_key` name; the
    /// `KB_` one wins.
    pub fn get(&self, name: &str, kb_value: Option<&str>, nb_value: Option<&str>) -> (r: Option<String>)
        ensures
            match env_choice(kb_value, nb_value) {
                Some(v) => r matches Some(s) && s@ == v,
                None => match lookup(self@, normalised(name@)) {
                    Some(v) => r matches Some(s) && s@ == v,
                    None => r is None,
                },
            },
    {
        match kb_value {
            Some(v) => {
                if !v.is_empty() {
                    return Some(v.to_owned());
                }
            },
            None => {},
        }
        match nb_value {
            Some(v) => {
                if !v.is_empty() {
                    return Some(v.to_owned());
                }
            },
            None => {},
        }
        let key = normalise(name);
        let mut i: usize = 0;
        let ghost es = self@;
        assert(es.skip(0) =~= es);
        while i < self.values.len()
            invariant
                es == pairs(self.values@),
                es == self@,
                i <= es.len(),
                env_choice(kb_value, nb_value) is None,
                key@ == normalised(name@),
                lookup(es, key@) == lookup(es.skip(i as int), key@),
            decreases es.len() - i,
        {
            assert(es.skip(i as int)[0] == es[i as int]);
            assert(es[i as int] == (self.values@[i as int].0@, self.values@[i as int].1@));
            assert(es.skip(i as int).drop_first() =~= es.skip(i + 1));
            if chars_eq(&chars_of(self.values[i].0.as_str()), &key) {
                return Some(copy_chars_string(&self.values[i].1));
            }
            i += 1;
        }
        None
    }

    /// Set a known setting; an unknown name is refused and nothing changes.
    pub fn set(&mut self, name: &str, value: &str) -> (r: Result<(), String>)
        requires
            old(self).wf(),
        ensures
            final(self).wf(),
            final(self).path_text() == old(self).path_text(),
            match validated(name@) {
                Ok(n) => r is Ok && forall|k: Seq<char>|
                    #[trigger] lookup(final(self)@, k) == if k == n {
                        Some(value@)
                    } else {
                        lookup(old(self)@, k)
                    },
                Err(m) => r matches Err(e) && e@ == m && final(self)@ == old(self)@,
            },
    {
        match validate(name) {
            Ok(n) => {
                upsert(&mut self.values, n, chars_of(value));
                Ok(())
            },
            Err(e) => Err(e),
        }
    }

    /// Clear a known setting; an unknown name is refused and nothing changes.
    pub fn unset(&mut self, name: &str) -> (r: Result<(), String>)
        requires
            old(self).wf(),
        ensures
            final(self).wf(),
            final(self).path_text() == old(self).path_text(),
            match validated(name@) {
                Ok(n) => r is Ok && forall|k: Seq<char>|
                    #[trigger] lookup(final(self)@, k) == if k == n {
                        None
                    } else {
                        lookup(old(self)@, k)
                    },
                Err(m) => r matches Err(e) && e@ == m && final(self)@ == old(self)@,
            },
    {
        match validate(name) {
            Ok(n) => {
                remove_name(&mut self.values, &n);
                Ok(())
            },
            Err(e) => Err(e),
        }
    }

    /// Every set value, in name order.
    pub fn entries(&self) -> (r: Vec<(String, String)>)
        ensures
            pairs(r@) == self@,
    {
        let mut out: Vec<(String, String)> = Vec::new();
        for i in 0..self.values.len()
            invariant
                pairs(out@) == pairs(self.values@).take(i as int),
        {
            let name = copy_chars_string(&self.values[i].0);
            let value = copy_chars_string(&self.values[i].1);
            let ghost before = out@;
            out.push((name, value));
            assert(out@ == before.push((name, value)));
            assert(pairs(self.values@)[i as int] == (self.values@[i as int].0@, self.values@[i as int].1@));
            assert(pairs(out@) =~= pairs(before).push((name@, value@)));
            assert(pairs(out@) =~= pairs(self.values@).take(i + 1));
        }
        assert(pairs(self.values@).take(self.values@.len() as int) =~= pairs(self.values@));
        out
    }

    /// The text of the settings file.
    pub fn contents(&self) -> (r: String)
        ensures
            r@ == file_text(self@),
    {
        let mut out: Vec<char> = Vec::new();
        let head = header();
        for j in 0..head.len()
            invariant
                head@.map_values(|s: &str| s@) == header_lines(),
                out@ == joined_lines(header_lines().take(j as int)),
        {
            let ghost before = out@;
            extend_str(&mut out, head[j]);
            out.push('\n');
            assert(header_lines()[j as int] == head@[j as int]@);
            assert(header_lines().take(j + 1).drop_last() =~= header_lines().take(j as int));
            assert(out@ =~= joined_lines(header_lines().take(j + 1)));
        }
        assert(header_lines().take(head.len() as int) =~= header_lines());
        let ghost es = self@;
        for i in 0..self.values.len()
            invariant
                es == pairs(self.values@),
                out@ == joined_lines(header_lines()) + export_lines(es, i as int),
        {
            let key = env_key(self.values[i].0.as_str());
            let ghost before = out@;
            extend_str(&mut out, "\nexport ");
            extend_str(&mut out, key.as_str());
            extend_str(&mut out, "=\"${");
            extend_str(&mut out, key.as_str());
            extend_str(&mut out, ":-");
            extend_str(&mut out, self.values[i].1.as_str());
            extend_str(&mut out, "}\"\n");
            assert(out@ =~= before + export_line(es[i as int].0, es[i as int].1));
        }
        string_of(&out)
    }
}

fn copy_chars_string(s: &String) -> (r: String)
    ensures
        r@ == s@,
{
    s.as_str().to_owned()
}

// ───────────────────────── laws ─────────────────────────

/// A value set is the value read back (`get` with no value in the
/// environment reads `lookup` under the normalised name); every other
/// setting keeps its value. `before` and `after` are the settings around a
/// `set` that succeeded, as its contract relates them.
pub proof fn lemma_set_then_get(
    before: Seq<(Seq<char>, Seq<char>)>,
    after: Seq<(Seq<char>, Seq<char>)>,
    name: Seq<char>,
    value: Seq<char>,
    other: Seq<char>,
)
    requires
        validated(name) is Ok,
        forall|k: Seq<char>|
            #[trigger] lookup(after, k) == if k == validated(name)->Ok_0 {
                Some(value)
            } else {
                lookup(before, k)
            },
    ensures
        lookup(after, normalised(name)) == Some(value),
        normalised(other) != normalised(name) ==> lookup(after, normalised(other)) == lookup(
            before,
            normalised(other),
        ),
{
    assert(lookup(after, normalised(name)) == Some(value));
    assert(lookup(after, normalised(other)) == if normalised(other) == validated(name)->Ok_0 {
        Some(value)
    } else {
        lookup(before, normalised(other))
    });
}

/// A value unset reads back as nothing; every other setting keeps its
/// value. `before` and `after` are the settings around an `unset` that
/// succeeded, as its contract relates them.
pub proof fn lemma_unset_then_get(
    before: Seq<(Seq<char>, Seq<char>)>,
    after: Seq<(Seq<char>, Seq<char>)>,
    name: Seq<char>,
    other: Seq<char>,
)
    requires
        validated(name) is Ok,
        forall|k: Seq<char>|
            #[trigger] lookup(after, k) == if k == validated(name)->Ok_0 {
                None
            } else {
                lookup(before, k)
            },
    ensures
        lookup(after, normalised(name)) is None,
        normalised(other) != normalised(name) ==> lookup(after, normalised(other)) == lookup(
            before,
            normalised(other),
        ),
{
    assert(lookup(after, normalised(name)) is None);
    assert(lookup(after, normalised(other)) == if normalised(other) == validated(name)->Ok_0 {
        None
    } else {
        lookup(before, normalised(other))
    });
}

// ───────────────────────── the file reads back ─────────────────────────

/// A name the settings file writes and reads back unchanged: lower-case
/// ASCII letters, digits and underscores, already in normal form.
pub open spec fn plain_name(n: Seq<char>) -> bool {
    &&& forall|i: int|
        0 <= i < n.len() ==> (('a' <= #[trigger] n[i] && n[i] <= 'z') || ('0' <= n[i] && n[i] <= '9')
            || n[i] == '_')
    &&& normalised(n) == n
}

/// A value the settings file can hold: on one line, with no ` #` that
/// would read as a comment.
pub open spec fn storable_value(v: Seq<char>) -> bool {
    !v.contains('\n') && find(v, " #"@) is None
}

/// The `export` line for one setting, without its surrounding newlines.
pub open spec fn setting_line(n: Seq<char>, v: Seq<char>) -> Seq<char> {
    "export "@ + env_key_text(n) + "=\"${"@ + env_key_text(n) + ":-"@ + v + "}\""@
}

/// A character that can stand in a setting's file key.
pub open spec fn key_char(c: char) -> bool {
    ('A' <= c && c <= 'Z') || ('0' <= c && c <= '9') || c == '_'
}

proof fn lemma_key(n: Seq<char>)
    requires
        plain_name(n),
    ensures
        env_key_text(n).len() == n.len() + 3,
        forall|i: int| 0 <= i < env_key_text(n).len() ==> key_char(#[trigger] env_key_text(n)[i]),
        "NB_"@.is_prefix_of(env_key_text(n)),
        lower(env_key_text(n).skip(3)) == n,
{
    reveal_strlit("NB_");
    let k = env_key_text(n);
    assert(k =~= "NB_"@ + upper(n));
    assert forall|i: int| 0 <= i < k.len() implies key_char(#[trigger] k[i]) by {
        if i >= 3 {
            assert(k[i] == upper(n)[i - 3]);
            assert(upper(n)[i - 3] == upper_char(n[i - 3]));
        }
    }
    assert(k.skip(3) =~= upper(n));
    assert forall|i: int| 0 <= i < n.len() implies #[trigger] lower(upper(n))[i] == n[i] by {
        assert(upper(n)[i] == upper_char(n[i]));
        assert(lower(upper(n))[i] == crate::text::lower_char(upper(n)[i]));
    }
    assert(lower(upper(n)) =~= n);
}

/// A line with no whitespace at either end is its own trim.
proof fn lemma_trim_unchanged(s: Seq<char>)
    requires
        s.len() > 0,
        !crate::text::is_ws(s[0]),
        !crate::text::is_ws(s.last()),
    ensures
        trim(s) == s,
{
    crate::text::lemma_lead_ws_is(s, 0);
    assert(s.skip(0) =~= s);
    crate::text::lemma_trail_ws_is(s, 0);
    assert(s.take(s.len() as int) =~= s);
}

/// The first `c` in `s` is at `k` when nothing before it is `c`.
proof fn lemma_first_char_at(s: Seq<char>, c: char, k: int)
    requires
        0 <= k < s.len(),
        s[k] == c,
        forall|j: int| 0 <= j < k ==> s[j] != c,
    ensures
        find_char_from(s, c, 0) == Some(k),
{
    lemma_find_char_facts(s, c, 0);
}

/// The first occurrence of a two-character pattern is at `k` when it
/// occurs there and its first character appears nowhere before.
proof fn lemma_first_pair_at(s: Seq<char>, pat: Seq<char>, k: int)
    requires
        pat.len() == 2,
        0 <= k,
        k + 2 <= s.len(),
        s[k] == pat[0],
        s[k + 1] == pat[1],
        forall|j: int| 0 <= j < k ==> s[j] != pat[0],
    ensures
        find(s, pat) == Some(k),
{
    lemma_find_from_facts(s, pat, 0);
    assert(crate::text::occurs_at(s, pat, k)) by {
        assert(s.subrange(k, k + 2) =~= pat);
    }
    match find(s, pat) {
        Some(j) => {
            if j < k {
                assert(s.subrange(j, j + 2)[0] == s[j]);
            }
            if j > k {
                assert(!crate::text::occurs_at(s, pat, k));
            }
        },
        None => {},
    }
}

/// Each setting's `export` line reads back as that setting.
#[verifier::spinoff_prover]
#[verifier::rlimit(40)]
pub proof fn lemma_setting_line_reads_back(n: Seq<char>, v: Seq<char>)
    requires
        plain_name(n),
        storable_value(v),
    ensures
        parsed_line(setting_line(n, v)) == Some((n, v)),
{
    reveal_strlit("export ");
    reveal_strlit("=\"${");
    reveal_strlit(":-");
    reveal_strlit("}\"");
    reveal_strlit(" #");
    reveal_strlit("NB_");
    reveal_strlit("\"${");
    reveal_strlit("${");
    reveal_strlit("}");
    lemma_key(n);
    let key = env_key_text(n);
    let kl = key.len() as int;
    let line = setting_line(n, v);
    let r0 = key + "=\"${"@ + key + ":-"@ + v + "}\""@;
    assert(line =~= "export "@ + r0);
    // The line has no blank ends, and opens with `export `.
    lemma_trim_unchanged(line);
    assert("export "@.is_prefix_of(line)) by {
        assert(line.subrange(0, 7) =~= "export "@);
    }
    assert(trim(line).skip(7) =~= r0);
    // No ` #` in the rest: a space stands only inside the value.
    let vs = kl + 4 + kl + 2;
    assert forall|j: int| !crate::text::occurs_at(r0, " #"@, j) by {
        if crate::text::occurs_at(r0, " #"@, j) {
            assert(r0.subrange(j, j + 2)[0] == r0[j]);
            assert(r0.subrange(j, j + 2)[1] == r0[j + 1]);
            assert(r0[j] == ' ');
            assert(r0[j + 1] == '#');
            if j < kl {
                assert(r0[j] == key[j]);
                assert(key_char(key[j]));
            } else if j < kl + 4 {
            } else if j < kl + 4 + kl {
                assert(r0[j] == key[j - kl - 4]);
                assert(key_char(key[j - kl - 4]));
            } else if j < vs {
            } else if j < vs + v.len() {
                if j + 1 < vs + v.len() {
                    assert(r0[j] == v[j - vs]);
                    assert(r0[j + 1] == v[j - vs + 1]);
                    assert(crate::text::occurs_at(v, " #"@, j - vs)) by {
                        assert(v.subrange(j - vs, j - vs + 2) =~= " #"@);
                    }
                    lemma_find_from_facts(v, " #"@, 0);
                } else {
                    assert(r0[j + 1] == '}');
                }
            } else {
            }
        }
    }
    lemma_find_from_facts(r0, " #"@, 0);
    assert(find(r0, " #"@) is None);
    // Its ends are not blank either.
    lemma_trim_unchanged(r0);
    let rest = r0;
    // The first `=` closes the key.
    assert forall|j: int| 0 <= j < kl implies rest[j] != '=' by {
        assert(rest[j] == key[j]);
        assert(key_char(key[j]));
    }
    lemma_first_char_at(rest, '=', kl);
    assert(rest.take(kl) =~= key);
    // The value, quotes and `${…:-…}` form removed.
    assert(rest.skip(kl + 1) =~= "\"${"@ + key + ":-"@ + v + "}\""@);
    lemma_value_reads_back(key, v);
}

/// The quoted `${KEY:-value}` form unwraps to the value.
proof fn lemma_value_reads_back(key: Seq<char>, v: Seq<char>)
    requires
        forall|i: int| 0 <= i < key.len() ==> key_char(#[trigger] key[i]),
    ensures
        unwrap_default(trim_matching(trim("\"${"@ + key + ":-"@ + v + "}\""@), '"')) == v,
{
    reveal_strlit("\"${");
    reveal_strlit(":-");
    reveal_strlit("}\"");
    reveal_strlit("${");
    reveal_strlit("}");
    let kl = key.len() as int;
    let quoted = "\"${"@ + key + ":-"@ + v + "}\""@;
    lemma_trim_unchanged(quoted);
    let a = quoted.skip(1);
    assert(quoted[0] == '"');
    assert(quoted.drop_first() =~= a);
    assert(a[0] == '$');
    assert(crate::text::lead_count(a, '"') == 0);
    assert(crate::text::lead_count(quoted, '"') == 1);
    assert(a.last() == '"');
    assert(a.drop_last().last() == '}');
    assert(crate::text::trail_count(a.drop_last(), '"') == 0);
    assert(crate::text::trail_count(a, '"') == 1);
    let u = a.take(a.len() - 1);
    assert(trim_matching(quoted, '"') =~= u);
    assert(u =~= "${"@ + key + ":-"@ + v + "}"@);
    let inner = u.subrange(2, u.len() - 1);
    assert(inner =~= key + ":-"@ + v);
    assert forall|j: int| 0 <= j < kl implies inner[j] != ':' by {
        assert(inner[j] == key[j]);
        assert(key_char(key[j]));
    }
    lemma_first_pair_at(inner, ":-"@, kl);
    assert(inner.skip(kl + 2) =~= v);
    assert(unwrap_default(u) == v);
}

/// A line that opens with `#` and ends in a visible character.
pub open spec fn comment_line(l: Seq<char>) -> bool {
    &&& l.len() > 0
    &&& l[0] == '#'
    &&& !crate::text::is_ws(l.last())
    &&& !l.contains('\n')
}

/// A comment line sets nothing.
proof fn lemma_comment_sets_nothing(l: Seq<char>)
    requires
        comment_line(l),
    ensures
        parsed_line(l) is None,
{
    reveal_strlit("export ");
    lemma_trim_unchanged(l);
    if "export "@.is_prefix_of(l) {
        assert(l[0] == "export "@[0]);
    }
}

/// Every line of the header is a comment line.
proof fn lemma_header_comments()
    ensures
        header_lines().len() == 11,
        forall|i: int| 0 <= i < header_lines().len() ==> comment_line(#[trigger] header_lines()[i]),
{
    reveal_strlit("#!/usr/bin/env bash");
    reveal_strlit("###############################################################################");
    reveal_strlit("# .nbrc");
    reveal_strlit("#");
    reveal_strlit("# Configuration file for `kb`, a fast Markdown knowledge base.");
    reveal_strlit("# Compatible with `nb`: settings are environment variables, eg:");
    reveal_strlit("#   export NB_ENCRYPTION_TOOL=gpg");
    reveal_strlit("# https://github.com/Koutaro-Hanabusa/kb");
    let h = header_lines();
    assert forall|i: int| 0 <= i < h.len() implies comment_line(#[trigger] h[i]) by {
        let l = h[i];
        assert forall|j: int| 0 <= j < l.len() implies l[j] != '\n' by {}
    }
}


/// When no line of the first `m` sets anything, nothing is set.
proof fn lemma_parsed_lookup_none(ls: Seq<Seq<char>>, m: int, k: Seq<char>)
    requires
        0 <= m <= ls.len(),
        forall|i: int| 0 <= i < m ==> parsed_line(#[trigger] ls[i]) is None,
    ensures
        parsed_lookup(ls, m, k) is None,
    decreases m,
{
    if m > 0 {
        lemma_parsed_lookup_none(ls, m - 1, k);
    }
}

/// Lines past the first `m` do not change what the first `m` set.
proof fn lemma_parsed_lookup_prefix(a: Seq<Seq<char>>, b: Seq<Seq<char>>, m: int, k: Seq<char>)
    requires
        0 <= m <= a.len(),
    ensures
        parsed_lookup(a + b, m, k) == parsed_lookup(a, m, k),
    decreases m,
{
    if m > 0 {
        assert((a + b)[m - 1] == a[m - 1]);
        lemma_parsed_lookup_prefix(a, b, m - 1, k);
    }
}

/// Looking up in a list with one more pair at its end.
proof fn lemma_lookup_push(es: Seq<(Seq<char>, Seq<char>)>, x: (Seq<char>, Seq<char>), k: Seq<char>)
    ensures
        lookup(es, k) is Some ==> lookup(es.push(x), k) == lookup(es, k),
        lookup(es, k) is None ==> lookup(es.push(x), k) == (if x.0 == k {
            Some(x.1)
        } else {
            None
        }),
    decreases es.len(),
{
    let t = es.push(x);
    if es.len() > 0 {
        assert(t[0] == es[0]);
        assert(t.drop_first() =~= es.drop_first().push(x));
        lemma_lookup_push(es.drop_first(), x, k);
    } else {
        assert(t[0] == x);
        assert(t.drop_first() =~= Seq::<(Seq<char>, Seq<char>)>::empty());
        assert(lookup(t.drop_first(), k) is None);
    }
}

/// A setting's export block is an empty line, then its `export` line.
proof fn lemma_export_block(n: Seq<char>, v: Seq<char>)
    requires
        plain_name(n),
        storable_value(v),
    ensures
        export_line(n, v) == seq!['\n'] + setting_line(n, v).push('\n'),
        lines(export_line(n, v)) == seq![Seq::<char>::empty(), setting_line(n, v)],
{
    reveal_strlit("\nexport ");
    reveal_strlit("export ");
    reveal_strlit("=\"${");
    reveal_strlit(":-");
    reveal_strlit("}\"\n");
    reveal_strlit("}\"");
    lemma_key(n);
    let key = env_key_text(n);
    let kl = key.len() as int;
    let sl = setting_line(n, v);
    assert(export_line(n, v) =~= seq!['\n'] + sl.push('\n'));
    assert forall|j: int| 0 <= j < sl.len() implies sl[j] != '\n' by {
        let vs = 7 + kl + 4 + kl + 2;
        if 7 <= j < 7 + kl {
            assert(sl[j] == key[j - 7]);
            assert(key_char(key[j - 7]));
        } else if 7 + kl + 4 <= j < 7 + kl + 4 + kl {
            assert(sl[j] == key[j - 7 - kl - 4]);
            assert(key_char(key[j - 7 - kl - 4]));
        } else if vs <= j < vs + v.len() {
            assert(sl[j] == v[j - vs]);
        }
    }
    assert(sl.last() == '"');
    crate::text::lemma_lines_single(Seq::<char>::empty());
    crate::text::lemma_lines_single(sl);
    assert(seq!['\n'] =~= Seq::<char>::empty().push('\n'));
    crate::text::lemma_lines_append(seq!['\n'], sl.push('\n'));
    assert(crate::text::strip_cr(Seq::<char>::empty()) =~= Seq::<char>::empty());
    assert(crate::text::strip_cr(sl) == sl);
}

/// Settings the file writes and reads back unchanged.
pub open spec fn storable_settings(es: Seq<(Seq<char>, Seq<char>)>) -> bool {
    forall|i: int| 0 <= i < es.len() ==> plain_name(#[trigger] es[i].0) && storable_value(es[i].1)
}

/// The file text after the header and the first `m` settings.
spec fn file_prefix(es: Seq<(Seq<char>, Seq<char>)>, m: int) -> Seq<char> {
    joined_lines(header_lines()) + export_lines(es, m)
}

proof fn lemma_file_prefix_reads_back(es: Seq<(Seq<char>, Seq<char>)>, m: int, k: Seq<char>)
    requires
        sorted(es),
        storable_settings(es),
        0 <= m <= es.len(),
    ensures
        file_prefix(es, m).len() > 0,
        file_prefix(es, m).last() == '\n',
        parsed_lookup(lines(file_prefix(es, m)), lines(file_prefix(es, m)).len() as int, k)
            == lookup(es.take(m), k),
    decreases m,
{
    lemma_header_comments();
    let h = header_lines();
    if m == 0 {
        assert forall|i: int| 0 <= i < h.len() implies !(#[trigger] h[i]).contains('\n') by {
            assert(comment_line(h[i]));
        }
        assert forall|i: int| 0 <= i < h.len() implies (#[trigger] h[i]).len() == 0 || h[i].last() != '\r' by {
            assert(comment_line(h[i]));
        }
        lemma_lines_joined(h);
        assert(file_prefix(es, 0) =~= joined_lines(h));
        assert forall|i: int| 0 <= i < h.len() implies parsed_line(#[trigger] h[i]) is None by {
            lemma_comment_sets_nothing(h[i]);
        }
        lemma_parsed_lookup_none(h, h.len() as int, k);
        assert(es.take(0) =~= Seq::<(Seq<char>, Seq<char>)>::empty());
        assert(lookup(es.take(0), k) is None);
        assert(joined_lines(h).last() == '\n');
    } else {
        lemma_file_prefix_reads_back(es, m - 1, k);
        let a = file_prefix(es, m - 1);
        let (n, v) = es[m - 1];
        assert(plain_name(es[m - 1].0) && storable_value(es[m - 1].1));
        lemma_export_block(n, v);
        let sl = setting_line(n, v);
        assert(file_prefix(es, m) =~= a + export_line(n, v));
        crate::text::lemma_lines_append(a, export_line(n, v));
        let la = lines(a);
        let lm = lines(file_prefix(es, m));
        assert(lm =~= la + seq![Seq::<char>::empty(), sl]);
        let len = la.len() as int;
        // The last line sets the newest setting; the empty line before it sets nothing.
        lemma_setting_line_reads_back(n, v);
        assert(lm[len + 1] == sl);
        assert(lm[len] == Seq::<char>::empty());
        reveal_strlit("export ");
        assert(trim(Seq::<char>::empty()) =~= Seq::<char>::empty()) by {
            crate::text::lemma_lead_ws_bound(Seq::<char>::empty());
            crate::text::lemma_trail_ws_bound(crate::text::trim_start(Seq::<char>::empty()));
        }
        assert(parsed_line(lm[len]) is None);
        lemma_parsed_lookup_prefix(la, seq![Seq::<char>::empty(), sl], len, k);
        assert(parsed_lookup(lm, len + 1, k) == parsed_lookup(la, len, k));
        assert(parsed_lookup(lm, len + 2, k) == if k == n {
            Some(v)
        } else {
            parsed_lookup(lm, len + 1, k)
        });
        assert(es.take(m) =~= es.take(m - 1).push(es[m - 1]));
        lemma_lookup_push(es.take(m - 1), es[m - 1], k);
        if k == n {
            assert forall|i: int| 0 <= i < es.take(m - 1).len() implies (#[trigger] es.take(m - 1)[i]).0 != k by {
                assert(es.take(m - 1)[i] == es[i]);
                assert(name_less(es[i].0, es[m - 1].0));
                lemma_name_less_irreflexive(es[i].0);
            }
            lemma_lookup_absent(es.take(m - 1), k);
        }
        let ex = export_line(n, v);
        assert(ex.last() == '\n');
        assert(file_prefix(es, m).last() == ex.last());
    }
}

/// The settings file reads back as what was written: parsing the text
/// `contents` writes gives each setting its value and no other name a
/// value, for names of the plain form the file keeps and values it can
/// hold.
pub proof fn lemma_file_reads_back(es: Seq<(Seq<char>, Seq<char>)>, k: Seq<char>)
    requires
        sorted(es),
        storable_settings(es),
    ensures
        parsed_lookup(lines(file_text(es)), lines(file_text(es)).len() as int, k) == lookup(es, k),
{
    lemma_file_prefix_reads_back(es, es.len() as int, k);
    assert(es.take(es.len() as int) =~= es);
    assert(file_text(es) == file_prefix(es, es.len() as int));
}

} // verus!
