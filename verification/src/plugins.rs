//! Plugins: executables that add subcommands.
//!
//! A plugin is a file in the plugins directory named `<name>.kb-plugin` (or
//! `.nb-plugin`, so `nb`'s plugins work unchanged). When `kb` is given a
//! subcommand it does not recognise, it looks for a plugin of that name and
//! executes it with the remaining arguments.
//!
//! Reading the directory, copying files and running plugins is the caller's
//! part; this module decides names, places and refusals.

use vstd::prelude::*;

use crate::paths::{extension, extension_of, file_name, file_name_of, join, join_str};
use crate::text::{
    chars_eq, chars_of, ends_with, extend_str, find_char_from, lemma_find_char_facts,
    lemma_name_less_total, lemma_name_less_transitive, lemma_rfind_char_facts, name_less,
    name_less_exec, pieces, piece_ranges, ranges_within, rfind_char, rsplit_once, slice_vec, spans,
    str_eq, string_of,
};
use vstd::seq_lib::{to_multiset_build, to_multiset_insert};

verus! {

/// An installed plugin.
#[derive(Debug, Clone, PartialEq, Eq)]
pub struct Plugin {
    pub name: String,
    pub path: String,
}

/// The extensions that mark a file as a plugin.
pub open spec fn plugin_ext(e: Seq<char>) -> bool {
    e == "kb-plugin"@ || e == "nb-plugin"@ || e == "kb-theme"@ || e == "nb-theme"@
}

/// The list of plugin extensions as messages show it.
pub open spec fn ext_list() -> Seq<char> {
    ".kb-plugin, .nb-plugin, .kb-theme, .nb-theme"@
}

fn is_plugin_ext(e: &[char]) -> (r: bool)
    ensures
        r == plugin_ext(e@),
{
    chars_eq(e, &chars_of("kb-plugin")) || chars_eq(e, &chars_of("nb-plugin")) || chars_eq(
        e,
        &chars_of("kb-theme"),
    ) || chars_eq(e, &chars_of("nb-theme"))
}

/// Whether a plugin file defines a colour theme rather than a subcommand.
pub open spec fn theme_path(path: Seq<char>) -> bool {
    match extension(path) {
        Some(e) => "theme"@.is_suffix_of(e),
        None => false,
    }
}

impl Plugin {
    /// Whether this plugin defines a colour theme rather than a subcommand.
    pub fn is_theme(&self) -> (r: bool)
        ensures
            r == theme_path(self.path@),
    {
        match extension_of(&chars_of(self.path.as_str())) {
            Some(e) => ends_with(&e, &chars_of("theme")),
            None => false,
        }
    }
}

/// Where plugins live: `<root>/.plugins`.
pub fn directory(root: &str) -> (r: String)
    ensures
        r@ == join(root@, ".plugins"@),
{
    join_str(root, ".plugins")
}

/// The subcommand a plugin file provides: the file name before its last dot,
/// when what follows the dot is a plugin extension.
pub open spec fn plugin_name_of(path: Seq<char>) -> Option<Seq<char>> {
    match file_name(path) {
        Some(f) => match rsplit_once(f, '.') {
            Some((stem, ext)) => if plugin_ext(ext) {
                Some(stem)
            } else {
                None
            },
            None => None,
        },
        None => None,
    }
}

/// The subcommand name a plugin file provides.
pub fn plugin_name(path: &str) -> (r: Option<String>)
    ensures
        match r {
            Some(n) => plugin_name_of(path@) == Some(n@),
            None => plugin_name_of(path@) is None,
        },
{
    let f = match file_name_of(path) {
        Some(f) => chars_of(f.as_str()),
        None => return None,
    };
    let n = f.len();
    match rfind_char(&f, '.', n) {
        Some(k) => {
            proof {
                lemma_rfind_char_facts(f@, '.', n as int);
            }
            let stem = slice_vec(&f, 0, k);
            let ext = slice_vec(&f, k + 1, n);
            assert(rsplit_once(f@, '.') == Some((stem@, ext@)));
            if is_plugin_ext(&ext) {
                Some(string_of(&stem))
            } else {
                None
            }
        },
        None => {
            assert(rsplit_once(f@, '.') is None);
            None
        },
    }
}

/// The plain values of a plugin list.
pub open spec fn plugins_view(v: Seq<Plugin>) -> Seq<(Seq<char>, Seq<char>)> {
    v.map_values(|p: Plugin| (p.name@, p.path@))
}

/// The plugins among the files `paths`, in the order given.
pub open spec fn plugins_among(paths: Seq<Seq<char>>) -> Seq<(Seq<char>, Seq<char>)>
    decreases paths.len(),
{
    if paths.len() == 0 {
        seq![]
    } else {
        let rest = plugins_among(paths.drop_last());
        match plugin_name_of(paths.last()) {
            Some(n) => rest.push((n, paths.last())),
            None => rest,
        }
    }
}

/// Names in order: no name is followed by a smaller one.
pub open spec fn by_name(v: Seq<(Seq<char>, Seq<char>)>) -> bool {
    forall|a: int, b: int| 0 <= a < b < v.len() ==> !name_less(#[trigger] v[b].0, #[trigger] v[a].0)
}

/// Every installed plugin among the files of the plugins directory, by
/// name.
pub fn catalogue(files: &Vec<String>) -> (r: Vec<Plugin>)
    ensures
        plugins_view(r@).to_multiset() == plugins_among(files@.map_values(|s: String| s@)).to_multiset(),
        by_name(plugins_view(r@)),
{
    let ghost fs = files@.map_values(|s: String| s@);
    let mut out: Vec<Plugin> = Vec::new();
    assert(fs.take(0) =~= Seq::<Seq<char>>::empty());
    assert(plugins_view(out@) =~= Seq::<(Seq<char>, Seq<char>)>::empty());
    assert(plugins_among(fs.take(0)) =~= Seq::<(Seq<char>, Seq<char>)>::empty());
    for i in 0..files.len()
        invariant
            fs == files@.map_values(|s: String| s@),
            plugins_view(out@).to_multiset() == plugins_among(fs.take(i as int)).to_multiset(),
            by_name(plugins_view(out@)),
    {
        assert(fs.take(i + 1).drop_last() =~= fs.take(i as int));
        assert(fs.take(i + 1).last() == files@[i as int]@);
        match plugin_name(files[i].as_str()) {
            Some(name) => {
                let ghost before = plugins_view(out@);
                let nc = chars_of(name.as_str());
                let mut pos: usize = 0;
                while pos < out.len() && !name_less_exec(&nc, &chars_of(out[pos].name.as_str()))
                    invariant
                        pos <= out@.len(),
                        before == plugins_view(out@),
                        nc@ == name@,
                        forall|k: int| 0 <= k < pos ==> !name_less(name@, #[trigger] before[k].0),
                    decreases out@.len() - pos,
                {
                    assert(before[pos as int].0 == out@[pos as int].name@);
                    pos += 1;
                }
                proof {
                    if pos < before.len() {
                        assert(before[pos as int].0 == out@[pos as int].name@);
                    }
                }
                let p = Plugin { name, path: crate::text::copy_string(&files[i]) };
                let ghost item = (p.name@, p.path@);
                out.insert(pos, p);
                proof {
                    let after = plugins_view(out@);
                    assert(after =~= before.insert(pos as int, item));
                    to_multiset_insert(before, pos as int, item);
                    to_multiset_build(plugins_among(fs.take(i as int)), item);
                    assert(plugins_among(fs.take(i + 1)) == plugins_among(fs.take(i as int)).push(item));
                    assert forall|a: int, b: int| 0 <= a < b < after.len() implies !name_less(
                        #[trigger] after[b].0,
                        #[trigger] after[a].0,
                    ) by {
                        if b < pos {
                            assert(after[a] == before[a] && after[b] == before[b]);
                        } else if b == pos {
                            assert(after[a] == before[a]);
                            lemma_name_less_total(before[a].0, item.0);
                            if name_less(before[a].0, item.0) {
                                lemma_name_less_asymmetric(before[a].0, item.0);
                            }
                        } else if a == pos {
                            assert(after[b] == before[b - 1]);
                            if b - 1 > pos {
                                assert(!name_less(before[b - 1].0, before[pos as int].0));
                                lemma_name_less_total(before[b - 1].0, before[pos as int].0);
                                if before[b - 1].0 != before[pos as int].0 {
                                    lemma_name_less_transitive(
                                        item.0,
                                        before[pos as int].0,
                                        before[b - 1].0,
                                    );
                                }
                            }
                            lemma_name_less_asymmetric(item.0, before[b - 1].0);
                        } else if a < pos {
                            assert(after[a] == before[a] && after[b] == before[b - 1]);
                        } else {
                            assert(after[a] == before[a - 1] && after[b] == before[b - 1]);
                        }
                    }
                }
            },
            None => {
                assert(plugins_among(fs.take(i + 1)) == plugins_among(fs.take(i as int)));
            },
        }
    }
    assert(fs.take(files@.len() as int) =~= fs);
    out
}

proof fn lemma_name_less_asymmetric(a: Seq<char>, b: Seq<char>)
    requires
        name_less(a, b),
    ensures
        !name_less(b, a),
{
    if name_less(b, a) {
        lemma_name_less_transitive(a, b, a);
        crate::text::lemma_name_less_irreflexive(a);
    }
}

/// The first plugin named `name` that provides a subcommand.
pub open spec fn first_command(v: Seq<Plugin>, name: Seq<char>, i: int) -> Option<int>
    decreases v.len() - i,
{
    if i < 0 || i >= v.len() {
        None
    } else if v[i].name@ == name && !theme_path(v[i].path@) {
        Some(i)
    } else {
        first_command(v, name, i + 1)
    }
}

/// Find the plugin providing subcommand `name` among the installed ones.
pub fn find(plugins: &Vec<Plugin>, name: &str) -> (r: Option<Plugin>)
    ensures
        match first_command(plugins@, name@, 0) {
            Some(k) => r matches Some(p) && p.name@ == plugins@[k].name@ && p.path@
                == plugins@[k].path@,
            None => r is None,
        },
{
    let mut i: usize = 0;
    while i < plugins.len()
        invariant
            i <= plugins@.len(),
            first_command(plugins@, name@, 0) == first_command(plugins@, name@, i as int),
        decreases plugins@.len() - i,
    {
        if str_eq(plugins[i].name.as_str(), name) && !plugins[i].is_theme() {
            return Some(
                Plugin {
                    name: crate::text::copy_string(&plugins[i].name),
                    path: crate::text::copy_string(&plugins[i].path),
                },
            );
        }
        i += 1;
    }
    None
}

/// The first plugin named `name`, theme or not.
pub open spec fn first_named(v: Seq<Plugin>, name: Seq<char>, i: int) -> Option<int>
    decreases v.len() - i,
{
    if i < 0 || i >= v.len() {
        None
    } else if v[i].name@ == name {
        Some(i)
    } else {
        first_named(v, name, i + 1)
    }
}

/// The plugin an uninstall removes, or the refusal when none is named so.
pub fn uninstall_target(plugins: &Vec<Plugin>, name: &str) -> (r: Result<Plugin, String>)
    ensures
        match first_named(plugins@, name@, 0) {
            Some(k) => r matches Ok(p) && p.name@ == plugins@[k].name@ && p.path@
                == plugins@[k].path@,
            None => r matches Err(e) && e@ == "no plugin named `"@ + name@ + "`"@,
        },
{
    let mut i: usize = 0;
    while i < plugins.len()
        invariant
            i <= plugins@.len(),
            first_named(plugins@, name@, 0) == first_named(plugins@, name@, i as int),
        decreases plugins@.len() - i,
    {
        if str_eq(plugins[i].name.as_str(), name) {
            return Ok(
                Plugin {
                    name: crate::text::copy_string(&plugins[i].name),
                    path: crate::text::copy_string(&plugins[i].path),
                },
            );
        }
        i += 1;
    }
    let mut m = chars_of("no plugin named `");
    extend_str(&mut m, name);
    extend_str(&mut m, "`");
    Err(string_of(&m))
}

/// Where installing `source` puts it, and the plugin it becomes; refused
/// when `source` is not a plugin file, or when something is already there
/// (`exists`) and `force` was not given.
pub fn install_target(root: &str, source: &str, exists: bool, force: bool) -> (r: Result<
    Plugin,
    String,
>)
    ensures
        match plugin_name_of(source@) {
            None => r matches Err(e) && e@ == source@ + " is not a plugin (expected one of: "@
                + ext_list() + ")"@,
            Some(n) => {
                let dest = join(join(root@, ".plugins"@), file_name(source@).unwrap());
                if exists && !force {
                    r matches Err(e) && e@ == "already installed: "@ + dest
                        + " (pass --force to replace)"@
                } else {
                    r matches Ok(p) && p.name@ == n && p.path@ == dest
                }
            },
        },
{
    let name = match plugin_name(source) {
        Some(n) => n,
        None => {
            let mut m = chars_of(source);
            extend_str(&mut m, " is not a plugin (expected one of: ");
            extend_str(&mut m, ".kb-plugin, .nb-plugin, .kb-theme, .nb-theme");
            extend_str(&mut m, ")");
            return Err(string_of(&m));
        },
    };
    let f = match file_name_of(source) {
        Some(f) => f,
        None => {
            assert(false);
            return Err(String::new());
        },
    };
    let dir = directory(root);
    let dest = join_str(dir.as_str(), f.as_str());
    if exists && !force {
        let mut m = chars_of("already installed: ");
        extend_str(&mut m, dest.as_str());
        extend_str(&mut m, " (pass --force to replace)");
        return Err(string_of(&m));
    }
    Ok(Plugin { name, path: dest })
}

/// Where a query or fragment starts in a URL segment.
pub open spec fn query_start(s: Seq<char>, i: int) -> int
    decreases s.len() - i,
{
    if i < 0 || i >= s.len() {
        s.len() as int
    } else if s[i] == '?' || s[i] == '#' {
        i
    } else {
        query_start(s, i + 1)
    }
}

/// The file a URL names: its last non-empty path segment, up to any query
/// or fragment.
pub open spec fn url_file(url: Seq<char>) -> Option<Seq<char>> {
    let ps = pieces(url, '/');
    if ps.len() > 0 {
        Some(ps.last().take(query_start(ps.last(), 0)))
    } else {
        None
    }
}

proof fn lemma_query_start(s: Seq<char>, i: int)
    requires
        0 <= i <= s.len(),
    ensures
        i <= query_start(s, i) <= s.len(),
    decreases s.len() - i,
{
    if i < s.len() && !(s[i] == '?' || s[i] == '#') {
        lemma_query_start(s, i + 1);
    }
}

/// The filename a plugin URL carries, which has to be a plugin filename:
/// it is the subcommand the download will provide.
pub fn url_plugin_file(url: &str) -> (r: Result<String, String>)
    ensures
        match url_file(url@) {
            None => r matches Err(e) && e@ == "cannot tell the filename from that URL"@,
            Some(f) => if plugin_name_of(f) is Some {
                r matches Ok(n) && n@ == f
            } else {
                r matches Err(e) && e@ == f + " is not a plugin filename (expected one of: "@
                    + ext_list() + ")"@
            },
        },
{
    let t = chars_of(url);
    let ranges = piece_ranges(&t, '/');
    let ghost ps = pieces(t@, '/');
    if ranges.len() == 0 {
        return Err("cannot tell the filename from that URL".to_owned());
    }
    let (a, b) = ranges[ranges.len() - 1];
    assert(ranges@[ranges@.len() - 1].0 <= ranges@[ranges@.len() - 1].1 <= t@.len());
    let s = slice_vec(&t, a, b);
    assert(s@ == ps.last());
    let mut q: usize = 0;
    while q < s.len() && s[q] != '?' && s[q] != '#'
        invariant
            q <= s@.len(),
            query_start(s@, 0) == query_start(s@, q as int),
        decreases s@.len() - q,
    {
        q += 1;
    }
    let f = string_of(&slice_vec(&s, 0, q));
    assert(f@ =~= s@.take(query_start(s@, 0)));
    match plugin_name(f.as_str()) {
        Some(_) => Ok(f),
        None => {
            let mut m = chars_of(f.as_str());
            extend_str(&mut m, " is not a plugin filename (expected one of: ");
            extend_str(&mut m, ".kb-plugin, .nb-plugin, .kb-theme, .nb-theme");
            extend_str(&mut m, ")");
            Err(string_of(&m))
        },
    }
}

} // verus!
