//! Notebooks and the knowledge base that holds them.
//!
//! Finding directories and reading files is the caller's part; this module
//! decides which directories are notebooks, in what order they list, which
//! one a command acts on, and how a note's path reads relative to its
//! notebook.

use vstd::prelude::*;

use crate::text::texts;
use vstd::seq_lib::{to_multiset_build, to_multiset_insert};

use crate::paths::{extension, extension_of, join, join_str};
use crate::text::{
    chars_eq, chars_of, eq_ignore_case, eq_ignore_case_exec, extend_chars, extend_str,
    join_with, lemma_join_with_push, lemma_name_less_irreflexive, lemma_name_less_total,
    lemma_name_less_transitive, name_less, name_less_exec, slice_vec, starts_with, string_of, trim,
    trim_chars,
};

verus! {

/// Environment variable that overrides the knowledge base location.
pub const ROOT_ENV: &'static str = "KB_ROOT";

/// Environment variable that overrides which notebook new notes go to.
pub const NOTEBOOK_ENV: &'static str = "KB_NOTEBOOK";

/// Marker file in the home directory that identifies a work machine.
pub const WORK_MARKER: &'static str = ".is_work_pc";

/// File at the knowledge base root naming the selected notebook.
pub const CURRENT_FILE: &'static str = ".current";

/// A single notebook — one directory of Markdown, normally one git repository.
#[derive(Debug, Clone)]
pub struct Notebook {
    pub name: String,
    pub root: String,
}

/// A path relative to a root: what follows the root and its separators when
/// the path lies under it, the path itself otherwise.
pub open spec fn relative_text(root: Seq<char>, path: Seq<char>) -> Seq<char> {
    let r = if root.len() > 0 && root.last() == '/' {
        root.drop_last()
    } else {
        root
    };
    if path == r {
        seq![]
    } else if r.len() < path.len() && path.take(r.len() as int) == r && path[r.len() as int]
        == '/' {
        strip_slashes(path.skip(r.len() as int + 1))
    } else {
        path
    }
}

/// Leading separators removed.
pub open spec fn strip_slashes(s: Seq<char>) -> Seq<char>
    decreases s.len(),
{
    if s.len() > 0 && s[0] == '/' {
        strip_slashes(s.drop_first())
    } else {
        s
    }
}

fn strip_slashes_exec(s: &[char], from: usize) -> (r: Vec<char>)
    requires
        from <= s@.len(),
    ensures
        r@ == strip_slashes(s@.skip(from as int)),
{
    let mut i = from;
    while i < s.len() && s[i] == '/'
        invariant
            from <= i <= s@.len(),
            strip_slashes(s@.skip(from as int)) == strip_slashes(s@.skip(i as int)),
        decreases s@.len() - i,
    {
        assert(s@.skip(i as int).drop_first() =~= s@.skip(i + 1));
        i += 1;
    }
    let r = slice_vec(s, i, s.len());
    assert(r@ =~= s@.skip(i as int));
    r
}

impl Notebook {
    /// A note's path relative to this notebook's root.
    pub fn relative(&self, path: &str) -> (r: String)
        ensures
            r@ == relative_text(self.root@, path@),
    {
        let root = chars_of(self.root.as_str());
        let p = chars_of(path);
        let n = root.len();
        let r = if n > 0 && root[n - 1] == '/' {
            slice_vec(&root, 0, n - 1)
        } else {
            slice_vec(&root, 0, n)
        };
        assert(root@.subrange(0, n as int) =~= root@);
        assert(root@.drop_last() =~= root@.subrange(0, n - 1));
        if chars_eq(&p, &r) {
            return String::new();
        }
        if r.len() < p.len() && starts_with(&p, &r) && p[r.len()] == '/' {
            let rest = strip_slashes_exec(&p, r.len() + 1);
            return string_of(&rest);
        }
        proof {
            if r@.len() < p@.len() && p@.take(r@.len() as int) == r@ {
                assert(r@.is_prefix_of(p@));
            }
        }
        path.to_owned()
    }
}

/// A directory name that is not hidden.
pub open spec fn visible_name(name: Seq<char>) -> bool {
    !(name.len() > 0 && name[0] == '.')
}

/// The names that are not hidden, in their order.
pub open spec fn visible(names: Seq<Seq<char>>) -> Seq<Seq<char>>
    decreases names.len(),
{
    if names.len() == 0 {
        seq![]
    } else if visible_name(names.last()) {
        visible(names.drop_last()).push(names.last())
    } else {
        visible(names.drop_last())
    }
}

/// Names in order: none after a name it sorts before.
pub open spec fn in_name_order(names: Seq<Seq<char>>) -> bool {
    forall|i: int, j: int| 0 <= i < j < names.len() ==> !name_less(#[trigger] names[j], #[trigger] names[i])
}

pub open spec fn notebook_names(notebooks: Seq<Notebook>) -> Seq<Seq<char>> {
    notebooks.map_values(|nb: Notebook| nb.name@)
}


/// The knowledge base: every notebook under one root.
#[derive(Debug, Clone)]
pub struct Workspace {
    pub root: String,
    pub notebooks: Vec<Notebook>,
}

/// The message for a root with no notebooks in it.
pub open spec fn no_notebooks_message(root: Seq<char>) -> Seq<char> {
    "no notebooks found under "@ + root
}

proof fn lemma_name_less_asymmetric(a: Seq<char>, b: Seq<char>)
    requires
        name_less(a, b),
    ensures
        !name_less(b, a),
{
    if name_less(b, a) {
        lemma_name_less_transitive(a, b, a);
        lemma_name_less_irreflexive(a);
    }
}

impl Workspace {
    /// The notebooks are the visible directories under `root` (`dirs` names
    /// the directories found there), listed in name order.
    pub fn open(root: &str, dirs: &Vec<String>) -> (r: Result<Workspace, String>)
        ensures
            match r {
                Ok(ws) => {
                    &&& visible(texts(dirs@)).len() > 0
                    &&& ws.root@ == root@
                    &&& notebook_names(ws.notebooks@).to_multiset() == visible(
                        texts(dirs@),
                    ).to_multiset()
                    &&& in_name_order(notebook_names(ws.notebooks@))
                    &&& forall|i: int|
                        0 <= i < ws.notebooks@.len() ==> (#[trigger] ws.notebooks@[i]).root@
                            == join(root@, ws.notebooks@[i].name@)
                },
                Err(e) => visible(texts(dirs@)).len() == 0 && e@ == no_notebooks_message(root@),
            },
    {
        let mut notebooks: Vec<Notebook> = Vec::new();
        assert(texts(dirs@).take(0) =~= Seq::<Seq<char>>::empty());
        assert(notebook_names(notebooks@) =~= visible(texts(dirs@).take(0)));
        for i in 0..dirs.len()
            invariant
                notebook_names(notebooks@).to_multiset() == visible(
                    texts(dirs@).take(i as int),
                ).to_multiset(),
                notebook_names(notebooks@).len() == visible(texts(dirs@).take(i as int)).len(),
                in_name_order(notebook_names(notebooks@)),
                forall|k: int|
                    0 <= k < notebooks@.len() ==> (#[trigger] notebooks@[k]).root@ == join(
                        root@,
                        notebooks@[k].name@,
                    ),
        {
            let ghost before = notebook_names(notebooks@);
            let name = chars_of(dirs[i].as_str());
            assert(texts(dirs@).take(i + 1).drop_last() =~= texts(dirs@).take(i as int));
            assert(texts(dirs@).take(i + 1).last() == name@);
            if !(name.len() > 0 && name[0] == '.') {
                let mut pos: usize = 0;
                while pos < notebooks.len() && !name_less_exec(
                    &name,
                    &chars_of(notebooks[pos].name.as_str()),
                )
                    invariant
                        pos <= notebooks@.len(),
                        before == notebook_names(notebooks@),
                        forall|k: int| 0 <= k < pos ==> !name_less(name@, #[trigger] before[k]),
                    decreases notebooks@.len() - pos,
                {
                    assert(before[pos as int] == notebooks@[pos as int].name@);
                    pos += 1;
                }
                proof {
                    if pos < before.len() {
                        assert(before[pos as int] == notebooks@[pos as int].name@);
                        assert(name_less(name@, before[pos as int]));
                    }
                }
                let nb = Notebook { name: string_of(&name), root: join_str(root, dirs[i].as_str()) };
                notebooks.insert(pos, nb);
                proof {
                    let after = notebook_names(notebooks@);
                    assert(after =~= before.insert(pos as int, name@));
                    to_multiset_insert(before, pos as int, name@);
                    to_multiset_build(visible(texts(dirs@).take(i as int)), name@);
                    assert forall|a: int, b: int| 0 <= a < b < after.len() implies !name_less(
                        #[trigger] after[b],
                        #[trigger] after[a],
                    ) by {
                        if b < pos {
                            assert(after[a] == before[a] && after[b] == before[b]);
                        } else if b == pos {
                            assert(after[a] == before[a]);
                            lemma_name_less_total(before[a], name@);
                            if name_less(name@, before[a]) {
                            }
                            if name_less(before[a], name@) {
                                lemma_name_less_asymmetric(before[a], name@);
                            }
                        } else if a == pos {
                            assert(after[b] == before[b - 1]);
                            assert(name_less(name@, before[pos as int]));
                            if b - 1 > pos {
                                assert(!name_less(before[b - 1], before[pos as int]));
                                lemma_name_less_total(before[b - 1], before[pos as int]);
                                if before[b - 1] != before[pos as int] {
                                    lemma_name_less_transitive(name@, before[pos as int], before[b - 1]);
                                }
                            }
                            lemma_name_less_asymmetric(name@, before[b - 1]);
                        } else if a < pos {
                            assert(after[a] == before[a] && after[b] == before[b - 1]);
                        } else {
                            assert(after[a] == before[a - 1] && after[b] == before[b - 1]);
                        }
                    }
                }
            }
        }
        assert(texts(dirs@).take(dirs@.len() as int) =~= texts(dirs@));
        if notebooks.len() == 0 {
            let mut msg: Vec<char> = Vec::new();
            extend_str(&mut msg, "no notebooks found under ");
            extend_str(&mut msg, root);
            return Err(string_of(&msg));
        }
        Ok(Workspace { root: root.to_owned(), notebooks })
    }

    /// The notebook with a name, if there is one.
    pub fn notebook(&self, name: &str) -> (r: Option<&Notebook>)
        ensures
            match r {
                Some(nb) => exists|i: int|
                    0 <= i < self.notebooks@.len() && self.notebooks@[i] == *nb && nb.name@
                        == name@ && forall|j: int|
                        0 <= j < i ==> (#[trigger] self.notebooks@[j]).name@ != name@,
                None => forall|i: int|
                    0 <= i < self.notebooks@.len() ==> (#[trigger] self.notebooks@[i]).name@
                        != name@,
            },
    {
        let key = chars_of(name);
        for i in 0..self.notebooks.len()
            invariant
                key@ == name@,
                forall|j: int| 0 <= j < i ==> (#[trigger] self.notebooks@[j]).name@ != name@,
        {
            if chars_eq(&chars_of(self.notebooks[i].name.as_str()), &key) {
                return Some(&self.notebooks[i]);
            }
        }
        None
    }

    /// The notebooks to operate on: one by name, or all of them.
    pub fn select(&self, name: Option<&str>) -> (r: Result<Vec<&Notebook>, String>)
        ensures
            match name {
                None => r matches Ok(v) && v@.len() == self.notebooks@.len() && forall|i: int|
                    0 <= i < v@.len() ==> *v@[i] == self.notebooks@[i],
                Some(n) => if exists|i: int|
                    0 <= i < self.notebooks@.len() && (#[trigger] self.notebooks@[i]).name@ == n@ {
                    r matches Ok(v) && v@.len() == 1 && v@[0].name@ == n@ && exists|i: int|
                        0 <= i < self.notebooks@.len() && self.notebooks@[i] == *v@[0]
                } else {
                    r matches Err(e) && e@ == unknown_notebook_message(
                        n@,
                        notebook_names(self.notebooks@),
                    )
                },
            },
    {
        match name {
            Some(n) => match self.notebook(n) {
                Some(nb) => {
                    let mut v: Vec<&Notebook> = Vec::new();
                    v.push(nb);
                    Ok(v)
                },
                None => {
                    let mut msg: Vec<char> = Vec::new();
                    extend_str(&mut msg, "unknown notebook `");
                    extend_str(&mut msg, n);
                    extend_str(&mut msg, "` (have: ");
                    let ghost names = notebook_names(self.notebooks@);
                    let ghost start = msg@;
                    for i in 0..self.notebooks.len()
                        invariant
                            names == notebook_names(self.notebooks@),
                            msg@ == start + join_with(names.take(i as int), ", "@),
                    {
                        proof {
                            lemma_join_with_push(names.take(i as int), ", "@, names[i as int]);
                            assert(names.take(i + 1) =~= names.take(i as int).push(names[i as int]));
                        }
                        if i > 0 {
                            extend_str(&mut msg, ", ");
                        }
                        extend_str(&mut msg, self.notebooks[i].name.as_str());
                        assert(msg@ =~= start + join_with(names.take(i + 1), ", "@));
                    }
                    assert(names.take(self.notebooks@.len() as int) =~= names);
                    extend_str(&mut msg, ")");
                    Err(string_of(&msg))
                },
            },
            None => {
                let mut v: Vec<&Notebook> = Vec::new();
                for i in 0..self.notebooks.len()
                    invariant
                        v@.len() == i,
                        forall|k: int| 0 <= k < i ==> *v@[k] == self.notebooks@[k],
                {
                    v.push(&self.notebooks[i]);
                }
                Ok(v)
            },
        }
    }

    /// What `default_notebook` answers: see there.
    pub open spec fn defaults_to(
        &self,
        env_notebook: Option<&str>,
        current: Option<&str>,
        work_machine: bool,
        r: Result<&Notebook, String>,
    ) -> bool {
        &&& match r {
            Ok(nb) => exists|i: int|
                0 <= i < self.notebooks@.len() && self.notebooks@[i] == *nb,
            Err(_) => true,
        }
        &&& match env_notebook {
            Some(n) => match r {
                Ok(nb) => nb.name@ == n@,
                Err(e) => e@ == "$KB_NOTEBOOK names an unknown notebook `"@ + n@ + "`"@
                    && forall|i: int|
                    0 <= i < self.notebooks@.len() ==> (#[trigger] self.notebooks@[i]).name@
                        != n@,
            },
            None => {
                let preferred = if work_machine {
                    "work"@
                } else {
                    "home"@
                };
                let has = |s: Seq<char>|
                    exists|i: int|
                        0 <= i < self.notebooks@.len() && (#[trigger] self.notebooks@[i]).name@
                            == s;
                match r {
                    Ok(nb) => if current is Some && has(current.unwrap()@) {
                        nb.name@ == current.unwrap()@
                    } else if has(preferred) {
                        nb.name@ == preferred
                    } else {
                        nb == self.notebooks@[0]
                    },
                    Err(e) => self.notebooks@.len() == 0 && e@ == "no notebooks available"@,
                }
            },
        }
    }

    /// The notebook commands act on when none is named.
    ///
    /// `$KB_NOTEBOOK` (`env_notebook`) wins, then the notebook `kb use`
    /// selected (`current`), then the machine's own default — `work` on a
    /// work machine, `home` elsewhere — then the first notebook.
    pub fn default_notebook(&self, env_notebook: Option<&str>, current: Option<&str>, work_machine: bool) -> (r: Result<&Notebook, String>)
        ensures
            self.defaults_to(env_notebook, current, work_machine, r),
    {
        match env_notebook {
            Some(n) => match self.notebook(n) {
                Some(nb) => return Ok(nb),
                None => {
                    let mut msg: Vec<char> = Vec::new();
                    extend_str(&mut msg, "$KB_NOTEBOOK names an unknown notebook `");
                    extend_str(&mut msg, n);
                    extend_str(&mut msg, "`");
                    return Err(string_of(&msg));
                },
            },
            None => {},
        }
        match current {
            Some(c) => match self.notebook(c) {
                Some(nb) => return Ok(nb),
                None => {},
            },
            None => {},
        }
        let preferred = if work_machine {
            "work"
        } else {
            "home"
        };
        match self.notebook(preferred) {
            Some(nb) => Ok(nb),
            None => if self.notebooks.len() > 0 {
                Ok(&self.notebooks[0])
            } else {
                Err("no notebooks available".to_owned())
            },
        }
    }

    /// What `set_current` writes to the `.current` file: the name and a
    /// newline, for a notebook that exists.
    pub fn set_current(&self, name: &str) -> (r: Result<String, String>)
        ensures
            match r {
                Ok(text) => text@ == name@ + seq!['\n'] && exists|i: int|
                    0 <= i < self.notebooks@.len() && (#[trigger] self.notebooks@[i]).name@
                        == name@,
                Err(e) => e@ == "unknown notebook `"@ + name@ + "`"@ && forall|i: int|
                    0 <= i < self.notebooks@.len() ==> (#[trigger] self.notebooks@[i]).name@
                        != name@,
            },
    {
        match self.notebook(name) {
            Some(_) => {
                let mut t = chars_of(name);
                t.push('\n');
                Ok(string_of(&t))
            },
            None => {
                let mut msg: Vec<char> = Vec::new();
                extend_str(&mut msg, "unknown notebook `");
                extend_str(&mut msg, name);
                extend_str(&mut msg, "`");
                Err(string_of(&msg))
            },
        }
    }
}

/// The message for a notebook name that names none.
pub open spec fn unknown_notebook_message(name: Seq<char>, have: Seq<Seq<char>>) -> Seq<char> {
    "unknown notebook `"@ + name + "` (have: "@ + join_with(have, ", "@) + ")"@
}

/// Some notebook of the workspace carries the name.
pub open spec fn names_notebook(notebooks: Seq<Notebook>, name: Seq<char>) -> bool {
    exists|i: int| 0 <= i < notebooks.len() && (#[trigger] notebooks[i]).name@ == name
}

impl Workspace {
    /// The notebook `kb use` recorded, given the `.current` file's text: its
    /// trimmed text, when it is not blank and a notebook of that name still
    /// exists.
    pub fn current(&self, raw: Option<&str>) -> (r: Option<String>)
        ensures
            match raw {
                Some(t) => if trim(t@).len() > 0 && names_notebook(self.notebooks@, trim(t@)) {
                    r matches Some(s) && s@ == trim(t@)
                } else {
                    r is None
                },
                None => r is None,
            },
    {
        match raw {
            Some(t) => {
                let name = trim_chars(&chars_of(t));
                if name.len() == 0 {
                    return None;
                }
                let text = string_of(&name);
                match self.notebook(text.as_str()) {
                    Some(_) => Some(text),
                    None => None,
                }
            },
            None => None,
        }
    }
}

/// A Markdown file: extension `md` or `markdown`, in any case.
pub open spec fn markdown_path(path: Seq<char>) -> bool {
    match extension(path) {
        Some(e) => eq_ignore_case(e, "md"@) || eq_ignore_case(e, "markdown"@),
        None => false,
    }
}

pub fn is_markdown(path: &str) -> (r: bool)
    ensures
        r == markdown_path(path@),
{
    match extension_of(&chars_of(path)) {
        Some(e) => eq_ignore_case_exec(&e, &chars_of("md")) || eq_ignore_case_exec(
            &e,
            &chars_of("markdown"),
        ),
        None => false,
    }
}

} // verus!
