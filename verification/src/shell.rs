//! Handing control to other programs: editors, pagers, fzf.
//!
//! Running them, and looking them up on `PATH`, is the caller's part; this
//! module decides which program runs, with which command line, and reads
//! back what the user answered.

use vstd::prelude::*;

use crate::note::Note;
use crate::output::{qualified, qualified_path};
use crate::text::{
    chars_of, extend_str, find_char, find_char_from, join_with, lemma_find_char_facts,
    lemma_join_with_push, lower, slice_vec, str_eq, string_of, to_lower, trim, trim_chars,
};

verus! {

/// A value that is set and not blank.
pub open spec fn present(v: Option<Seq<char>>) -> bool {
    v matches Some(t) && trim(t).len() > 0
}

pub open spec fn opt_view(v: Option<&str>) -> Option<Seq<char>> {
    match v {
        Some(t) => Some(t@),
        None => None,
    }
}

fn is_present(v: Option<&str>) -> (r: bool)
    ensures
        r == present(opt_view(v)),
{
    match v {
        Some(t) => trim_chars(&chars_of(t)).len() > 0,
        None => false,
    }
}

/// The editor `editor` picks: an explicit `--editor` wins, then
/// `$KB_EDITOR`, `$NB_EDITOR`, the `editor` setting, `$EDITOR` and `$VISUAL`
/// — each only when set and not blank — then `vi`.
pub open spec fn chosen_editor(
    override_with: Option<Seq<char>>,
    kb_editor: Option<Seq<char>>,
    nb_editor: Option<Seq<char>>,
    configured: Option<Seq<char>>,
    editor: Option<Seq<char>>,
    visual: Option<Seq<char>>,
) -> Seq<char> {
    if override_with is Some {
        override_with.unwrap()
    } else if present(kb_editor) {
        kb_editor.unwrap()
    } else if present(nb_editor) {
        nb_editor.unwrap()
    } else if present(configured) {
        configured.unwrap()
    } else if present(editor) {
        editor.unwrap()
    } else if present(visual) {
        visual.unwrap()
    } else {
        "vi"@
    }
}

/// The editor to use, given the environment's `$KB_EDITOR`, `$NB_EDITOR`,
/// `$EDITOR` and `$VISUAL`.
pub fn editor(
    override_with: Option<&str>,
    kb_editor: Option<&str>,
    nb_editor: Option<&str>,
    configured: Option<&str>,
    editor_var: Option<&str>,
    visual: Option<&str>,
) -> (r: String)
    ensures
        r@ == chosen_editor(
            opt_view(override_with),
            opt_view(kb_editor),
            opt_view(nb_editor),
            opt_view(configured),
            opt_view(editor_var),
            opt_view(visual),
        ),
{
    match override_with {
        Some(e) => return e.to_owned(),
        None => {},
    }
    if is_present(kb_editor) {
        return kb_editor.unwrap().to_owned();
    }
    if is_present(nb_editor) {
        return nb_editor.unwrap().to_owned();
    }
    if is_present(configured) {
        return configured.unwrap().to_owned();
    }
    if is_present(editor_var) {
        return editor_var.unwrap().to_owned();
    }
    if is_present(visual) {
        return visual.unwrap().to_owned();
    }
    "vi".to_owned()
}

/// The words of a command line.
pub open spec fn words_of(args: Seq<String>) -> Seq<Seq<char>> {
    args.map_values(|a: String| a@)
}

/// The shell script that runs `program` with `args` on the path passed as
/// `$1`; the shell splits `program`, which may be a command line of its own
/// (`code -w`).
pub open spec fn launch_script(program: Seq<char>, args: Seq<Seq<char>>) -> Seq<char> {
    program + " "@ + join_with(args, " "@) + " \"$1\""@
}

/// The command line that runs an interactive program against `path`.
pub fn launch_with_args(program: &str, args: &Vec<String>, path: &str) -> (r: Vec<String>)
    ensures
        words_of(r@) == seq!["sh"@, "-c"@, launch_script(program@, words_of(args@)), "sh"@, path@],
{
    let ghost ws = words_of(args@);
    let mut script = chars_of(program);
    extend_str(&mut script, " ");
    let ghost start = script@;
    for i in 0..args.len()
        invariant
            ws == words_of(args@),
            script@ == start + join_with(ws.take(i as int), " "@),
    {
        proof {
            lemma_join_with_push(ws.take(i as int), " "@, ws[i as int]);
            assert(ws.take(i + 1) =~= ws.take(i as int).push(ws[i as int]));
        }
        if i > 0 {
            extend_str(&mut script, " ");
        }
        extend_str(&mut script, args[i].as_str());
        assert(script@ =~= start + join_with(ws.take(i + 1), " "@));
    }
    assert(ws.take(args@.len() as int) =~= ws);
    extend_str(&mut script, " \"$1\"");
    let mut out: Vec<String> = Vec::new();
    out.push("sh".to_owned());
    out.push("-c".to_owned());
    out.push(string_of(&script));
    out.push("sh".to_owned());
    out.push(path.to_owned());
    assert(words_of(out@) =~= seq!["sh"@, "-c"@, launch_script(program@, ws), "sh"@, path@]);
    out
}

/// The command line that runs `program` against `path`.
pub fn launch(program: &str, path: &str) -> (r: Vec<String>)
    ensures
        words_of(r@) == seq![
            "sh"@,
            "-c"@,
            launch_script(program@, Seq::<Seq<char>>::empty()),
            "sh"@,
            path@,
        ],
{
    let none: Vec<String> = Vec::new();
    assert(words_of(none@) =~= Seq::<Seq<char>>::empty());
    launch_with_args(program, &none, path)
}

/// Whether a path names Markdown by its extension, in any case.
pub open spec fn markdown_path(path: Seq<char>) -> bool {
    crate::workspace::markdown_path(path)
}

/// The program `page` shows a file with: glow for Markdown when it is
/// installed, else bat, else `$PAGER`, else `less`.
pub open spec fn pager_for(path: Seq<char>, has_glow: bool, has_bat: bool, pager: Option<Seq<char>>) -> (Seq<char>, Seq<Seq<char>>) {
    if markdown_path(path) && has_glow {
        ("glow"@, seq!["-p"@])
    } else if has_bat {
        ("bat"@, seq!["--style=plain"@])
    } else {
        (
            match pager {
                Some(p) => p,
                None => "less"@,
            },
            seq![],
        )
    }
}

/// Display a file, rendering Markdown when a renderer is available.
pub fn page(path: &str, has_glow: bool, has_bat: bool, pager: Option<&str>) -> (r: Vec<String>)
    ensures
        ({
            let (p, a) = pager_for(path@, has_glow, has_bat, opt_view(pager));
            words_of(r@) == seq!["sh"@, "-c"@, launch_script(p, a), "sh"@, path@]
        }),
{
    let mut args: Vec<String> = Vec::new();
    if crate::workspace::is_markdown(path) && has_glow {
        args.push("-p".to_owned());
        assert(words_of(args@) =~= seq!["-p"@]);
        return launch_with_args("glow", &args, path);
    }
    if has_bat {
        args.push("--style=plain".to_owned());
        assert(words_of(args@) =~= seq!["--style=plain"@]);
        return launch_with_args("bat", &args, path);
    }
    assert(words_of(args@) =~= Seq::<Seq<char>>::empty());
    match pager {
        Some(p) => launch_with_args(p, &args, path),
        None => launch_with_args("less", &args, path),
    }
}

/// The terminal file browsers tried, in `nb`'s order.
pub open spec fn browsers() -> Seq<Seq<char>> {
    seq!["ranger"@, "mc"@, "vifm"@, "joshuto"@, "lsd"@, "eza"@]
}

/// The first browser found, given which of `browsers()` are installed;
/// `ls` when none is.
pub open spec fn first_browser(installed: Seq<bool>, i: int) -> Seq<char>
    decreases 6 - i,
{
    if i < 0 || i >= 6 {
        "ls"@
    } else if i < installed.len() && installed[i] {
        browsers()[i]
    } else {
        first_browser(installed, i + 1)
    }
}

/// Show a directory in a terminal file browser. `installed` says, for each
/// of `browsers()` in order, whether it is on `PATH`.
pub fn browse_directory(dir: &str, installed: &Vec<bool>) -> (r: Vec<String>)
    ensures
        words_of(r@) == seq![
            "sh"@,
            "-c"@,
            launch_script(first_browser(installed@, 0), Seq::<Seq<char>>::empty()),
            "sh"@,
            dir@,
        ],
{
    let mut names: Vec<&str> = Vec::new();
    names.push("ranger");
    names.push("mc");
    names.push("vifm");
    names.push("joshuto");
    names.push("lsd");
    names.push("eza");
    assert(names@.map_values(|s: &str| s@) =~= browsers());
    let mut i: usize = 0;
    while i < 6
        invariant
            i <= 6,
            names@.len() == 6,
            names@.map_values(|s: &str| s@) == browsers(),
            first_browser(installed@, 0) == first_browser(installed@, i as int),
        decreases 6 - i,
    {
        if i < installed.len() && installed[i] {
            assert(names@[i as int]@ == browsers()[i as int]);
            return launch(names[i], dir);
        }
        i += 1;
    }
    launch("ls", dir)
}

/// The opener a desktop provides.
pub open spec fn opener(macos: bool) -> Seq<char> {
    if macos {
        "open"@
    } else {
        "xdg-open"@
    }
}

/// Hand a file to the system's preferred application; without a desktop
/// opener, show it instead.
pub fn open_externally(
    path: &str,
    macos: bool,
    has_opener: bool,
    has_glow: bool,
    has_bat: bool,
    pager: Option<&str>,
) -> (r: Vec<String>)
    ensures
        has_opener ==> words_of(r@) == seq![
            "sh"@,
            "-c"@,
            launch_script(opener(macos), Seq::<Seq<char>>::empty()),
            "sh"@,
            path@,
        ],
        !has_opener ==> ({
            let (p, a) = pager_for(path@, has_glow, has_bat, opt_view(pager));
            words_of(r@) == seq!["sh"@, "-c"@, launch_script(p, a), "sh"@, path@]
        }),
{
    if !has_opener {
        return page(path, has_glow, has_bat, pager);
    }
    if macos {
        launch("open", path)
    } else {
        launch("xdg-open", path)
    }
}

/// Whether an answer to a yes/no question is yes.
pub open spec fn yes(answer: Seq<char>) -> bool {
    lower(trim(answer)) == "y"@ || lower(trim(answer)) == "yes"@
}

pub fn confirmed(answer: &str) -> (r: bool)
    ensures
        r == yes(answer@),
{
    let a = string_of(&to_lower(&trim_chars(&chars_of(answer))));
    str_eq(a.as_str(), "y") || str_eq(a.as_str(), "yes")
}

/// A password typed once, or twice when it must be confirmed: refused when
/// the two differ, or when it is empty.
pub fn password_check(first: &str, again: Option<&str>) -> (r: Result<String, String>)
    ensures
        match again {
            Some(a) => if a@ != first@ {
                r matches Err(e) && e@ == "passwords did not match"@
            } else if first@.len() == 0 {
                r matches Err(e) && e@ == "empty password"@
            } else {
                r matches Ok(p) && p@ == first@
            },
            None => if first@.len() == 0 {
                r matches Err(e) && e@ == "empty password"@
            } else {
                r matches Ok(p) && p@ == first@
            },
        },
{
    match again {
        Some(a) => {
            if !str_eq(first, a) {
                return Err("passwords did not match".to_owned());
            }
        },
        None => {},
    }
    if first.is_empty() {
        return Err("empty password".to_owned());
    }
    Ok(first.to_owned())
}

/// One line offered to fzf: the path, a tab, then the label shown.
pub open spec fn pick_line(note: Note) -> Seq<char> {
    note.path@ + "\t"@ + qualified(note) + "  "@ + note.title@ + "\n"@
}

pub open spec fn pick_lines(notes: Seq<Note>, n: int) -> Seq<char>
    decreases n,
{
    if n <= 0 {
        seq![]
    } else {
        pick_lines(notes, n - 1) + pick_line(notes[n - 1])
    }
}

/// What fzf is given to choose from: one line per note.
pub fn pick_input(notes: &Vec<Note>) -> (r: String)
    ensures
        r@ == pick_lines(notes@, notes@.len() as int),
{
    let mut out: Vec<char> = Vec::new();
    for i in 0..notes.len()
        invariant
            out@ == pick_lines(notes@, i as int),
    {
        let ghost before = out@;
        extend_str(&mut out, notes[i].path.as_str());
        extend_str(&mut out, "\t");
        extend_str(&mut out, qualified_path(&notes[i]).as_str());
        extend_str(&mut out, "  ");
        extend_str(&mut out, notes[i].title.as_str());
        extend_str(&mut out, "\n");
        assert(out@ =~= before + pick_line(notes@[i as int]));
    }
    string_of(&out)
}

/// The path fzf printed back: the text before the first tab, unless blank.
pub open spec fn picked_path(selection: Seq<char>) -> Option<Seq<char>> {
    let head = match find_char_from(selection, '\t', 0) {
        Some(k) => selection.take(k),
        None => selection,
    };
    if trim(head).len() > 0 {
        Some(head)
    } else {
        None
    }
}

pub fn picked(selection: &str) -> (r: Option<String>)
    ensures
        match picked_path(selection@) {
            Some(p) => r matches Some(s) && s@ == p,
            None => r is None,
        },
{
    let t = chars_of(selection);
    let head = match find_char(&t, '\t', 0) {
        Some(k) => {
            proof {
                lemma_find_char_facts(t@, '\t', 0);
            }
            slice_vec(&t, 0, k)
        },
        None => t,
    };
    if trim_chars(&head).len() > 0 {
        Some(string_of(&head))
    } else {
        None
    }
}

/// The fzf arguments: show the label, preview the file, start from `query`.
pub fn fzf_args(has_glow: bool, query: Option<&str>) -> (r: Vec<String>)
    ensures
        words_of(r@) == seq![
            "--delimiter"@,
            "\t"@,
            "--with-nth"@,
            "2.."@,
            "--preview"@,
            if has_glow {
                "glow -s dark {1}"@
            } else {
                "cat {1}"@
            },
            "--preview-window"@,
            "right:60%"@,
        ] + match query {
            Some(q) => seq!["--query"@, q@],
            None => Seq::<Seq<char>>::empty(),
        },
{
    let mut out: Vec<String> = Vec::new();
    out.push("--delimiter".to_owned());
    out.push("\t".to_owned());
    out.push("--with-nth".to_owned());
    out.push("2..".to_owned());
    out.push("--preview".to_owned());
    out.push(
        if has_glow {
            "glow -s dark {1}"
        } else {
            "cat {1}"
        }.to_owned(),
    );
    out.push("--preview-window".to_owned());
    out.push("right:60%".to_owned());
    match query {
        Some(q) => {
            out.push("--query".to_owned());
            out.push(q.to_owned());
        },
        None => {},
    }
    assert(words_of(out@) =~= seq![
        "--delimiter"@,
        "\t"@,
        "--with-nth"@,
        "2.."@,
        "--preview"@,
        if has_glow {
            "glow -s dark {1}"@
        } else {
            "cat {1}"@
        },
        "--preview-window"@,
        "right:60%"@,
    ] + match query {
        Some(q) => seq!["--query"@, q@],
        None => Seq::<Seq<char>>::empty(),
    });
    out
}

} // verus!
