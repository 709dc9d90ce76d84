//! The `browse` web application's pages.
//!
//! Serving HTTP is the caller's part. This module reads request URLs and form
//! bodies, decides which page a request asks for, and renders each page:
//! notes, listings, search results, and the add / edit / delete forms.

use vstd::prelude::*;

use crate::text::texts;
use vstd::utf8::*;

use crate::note::{note_title, Note};
use crate::render::{
    escape, escaped, linked, markdown_html, to_html,
    url_decode, url_decoded, url_encode, url_encoded, utf8_lossy, LinkBase, MARKDOWN_EXTENSIONS,
};
use crate::text::{
    chars_eq, chars_of, extend_chars, extend_str, find_char, find_char_from, lemma_find_char_facts,
    piece_ranges, pieces, ranges_within, slice_vec, spans, split_once, string_of, trim,
    trim_chars,
};

verus! {

/// The port `nb browse` listens on.
pub const DEFAULT_PORT: u16 = 6789;

/// A parsed request: the selector from the path, plus query parameters.
#[derive(Debug, Default, PartialEq, Eq)]
pub struct Request {
    pub selector: String,
    pub query: Option<String>,
    pub edit: bool,
    pub add: bool,
    pub delete: bool,
    pub original: bool,
    pub notebooks: bool,
}

/// Text decoded the way `url_decode` does it.
pub open spec fn decoded(s: Seq<char>) -> Seq<char> {
    utf8_lossy(url_decoded(encode_utf8(s)))
}

/// Leading `/` removed.
pub open spec fn strip_leading_slashes(s: Seq<char>) -> Seq<char>
    decreases s.len(),
{
    if s.len() > 0 && s[0] == '/' {
        strip_leading_slashes(s.drop_first())
    } else {
        s
    }
}

/// Every leading `--original/` removed.
pub open spec fn strip_original(s: Seq<char>) -> Seq<char>
    decreases s.len(),
{
    if s.len() >= 11 && s.take(11) == "--original/"@ {
        strip_original(s.skip(11))
    } else {
        s
    }
}

/// A URL's path and query string, split at the first `?`.
pub open spec fn url_parts(url: Seq<char>) -> (Seq<char>, Seq<char>) {
    match split_once(url, '?') {
        Some((p, q)) => (p, q),
        None => (url, seq![]),
    }
}

/// The path of a request URL, without its leading slashes.
pub open spec fn request_path(url: Seq<char>) -> Seq<char> {
    strip_leading_slashes(url_parts(url).0)
}

/// A query parameter: its key, and its value (empty without `=`).
pub open spec fn pair_parts(pair: Seq<char>) -> (Seq<char>, Seq<char>) {
    match split_once(pair, '=') {
        Some((k, v)) => (k, v),
        None => (pair, seq![]),
    }
}

pub open spec fn is_query_key(key: Seq<char>) -> bool {
    key == "--query"@ || key == "-q"@
}

/// The request the first `n` query parameters describe, starting from `r`.
pub open spec fn apply_pairs(pairs: Seq<Seq<char>>, n: int, base: RequestView) -> RequestView
    decreases n,
{
    if n <= 0 {
        base
    } else {
        let r = apply_pairs(pairs, n - 1, base);
        let (key, value) = pair_parts(pairs[n - 1]);
        if is_query_key(key) {
            RequestView { query: Some(decoded(value)), ..r }
        } else if key == "--edit"@ {
            RequestView { edit: true, ..r }
        } else if key == "--add"@ {
            RequestView { add: true, ..r }
        } else if key == "--delete"@ {
            RequestView { delete: true, ..r }
        } else if key == "--notebooks"@ {
            RequestView { notebooks: true, ..r }
        } else {
            r
        }
    }
}

/// A request as values.
pub struct RequestView {
    pub selector: Seq<char>,
    pub query: Option<Seq<char>>,
    pub edit: bool,
    pub add: bool,
    pub delete: bool,
    pub original: bool,
    pub notebooks: bool,
}

/// The request a URL like `/home:2?--edit` makes.
pub open spec fn request_of(url: Seq<char>) -> RequestView {
    let path = request_path(url);
    let base = RequestView {
        selector: decoded(strip_original(path)),
        query: None,
        edit: false,
        add: false,
        delete: false,
        original: "--original/"@.is_prefix_of(path),
        notebooks: false,
    };
    let pairs = pieces(url_parts(url).1, '&');
    apply_pairs(pairs, pairs.len() as int, base)
}

impl Request {
    pub open spec fn view_fields(&self) -> RequestView {
        RequestView {
            selector: self.selector@,
            query: match self.query {
                Some(q) => Some(q@),
                None => None,
            },
            edit: self.edit,
            add: self.add,
            delete: self.delete,
            original: self.original,
            notebooks: self.notebooks,
        }
    }
}

fn strip_leading_slashes_exec(s: &[char]) -> (r: Vec<char>)
    ensures
        r@ == strip_leading_slashes(s@),
{
    let mut i: usize = 0;
    assert(s@.skip(0) =~= s@);
    while i < s.len() && s[i] == '/'
        invariant
            i <= s@.len(),
            strip_leading_slashes(s@) == strip_leading_slashes(s@.skip(i as int)),
        decreases s@.len() - i,
    {
        assert(s@.skip(i as int).drop_first() =~= s@.skip(i + 1));
        i += 1;
    }
    let r = slice_vec(s, i, s.len());
    assert(r@ =~= s@.skip(i as int));
    r
}

fn strip_original_exec(s: &[char]) -> (r: Vec<char>)
    ensures
        r@ == strip_original(s@),
    decreases s@.len(),
{
    let prefix = chars_of("--original/");
    proof {
        reveal_strlit("--original/");
    }
    if s.len() >= 11 && crate::text::starts_with(s, &prefix) {
        assert(s@.take(11) =~= "--original/"@);
        strip_original_exec(&slice_vec(s, 11, s.len()))
    } else {
        proof {
            if s@.len() >= 11 && s@.take(11) == "--original/"@ {
                assert("--original/"@.is_prefix_of(s@));
            }
        }
        slice_vec(s, 0, s.len())
    }
}

fn split_at_char(s: &[char], c: char) -> (r: (Vec<char>, Vec<char>))
    ensures
        (r.0@, r.1@) == match split_once(s@, c) {
            Some((a, b)) => (a, b),
            None => (s@, Seq::<char>::empty()),
        },
{
    match find_char(s, c, 0) {
        Some(k) => {
            proof {
                lemma_find_char_facts(s@, c, 0);
            }
            let n = s.len();
            assert(k < n);
            (slice_vec(s, 0, k), slice_vec(s, k + 1, n))
        },
        None => {
            assert(s@.subrange(0, s@.len() as int) =~= s@);
            (slice_vec(s, 0, s.len()), Vec::new())
        },
    }
}

impl Request {
    /// Parse a request URL like `/home:2?--edit`.
    pub fn parse(url: &str) -> (r: Request)
        ensures
            r.view_fields() == request_of(url@),
    {
        let u = chars_of(url);
        let (path0, query) = split_at_char(&u, '?');
        let path = strip_leading_slashes_exec(&path0);
        let sel = string_of(&strip_original_exec(&path));
        let original = crate::text::starts_with(&path, &chars_of("--original/"));
        let mut request = Request {
            selector: url_decode(sel.as_str()),
            query: None,
            edit: false,
            add: false,
            delete: false,
            original,
            notebooks: false,
        };
        let ranges = piece_ranges(&query, '&');
        let ghost ps = pieces(query@, '&');
        let ghost base = request.view_fields();
        for i in 0..ranges.len()
            invariant
                spans(query@, ranges@) == ps,
                ps == pieces(url_parts(url@).1, '&'),
                ranges_within(ranges@, query@.len() as int),
                request.view_fields() == apply_pairs(ps, i as int, base),
        {
            let (a, b) = ranges[i];
            assert(ranges@[i as int].0 <= ranges@[i as int].1 <= query@.len());
            let pair = slice_vec(&query, a, b);
            assert(pair@ == ps[i as int]);
            let (key, value) = split_at_char(&pair, '=');
            if chars_eq(&key, &chars_of("--query")) || chars_eq(&key, &chars_of("-q")) {
                let v = string_of(&value);
                request.query = Some(url_decode(v.as_str()));
            } else if chars_eq(&key, &chars_of("--edit")) {
                request.edit = true;
            } else if chars_eq(&key, &chars_of("--add")) {
                request.add = true;
            } else if chars_eq(&key, &chars_of("--delete")) {
                request.delete = true;
            } else if chars_eq(&key, &chars_of("--notebooks")) {
                request.notebooks = true;
            }
        }
        request
    }
}

/// The fields of a form body, each key and value decoded, in order.
pub open spec fn form_fields(body: Seq<char>) -> Seq<(Seq<char>, Seq<char>)> {
    pieces(body, '&').map_values(
        |p: Seq<char>| (decoded(pair_parts(p).0), decoded(pair_parts(p).1)),
    )
}

pub open spec fn string_pairs(v: Seq<(String, String)>) -> Seq<(Seq<char>, Seq<char>)> {
    v.map_values(|p: (String, String)| (p.0@, p.1@))
}

/// The fields of a form body, decoded, in order.
pub fn parse_form(body: &str) -> (r: Vec<(String, String)>)
    ensures
        string_pairs(r@) == form_fields(body@),
{
    let t = chars_of(body);
    let ranges = piece_ranges(&t, '&');
    let ghost ps = pieces(t@, '&');
    let mut out: Vec<(String, String)> = Vec::new();
    for i in 0..ranges.len()
        invariant
            spans(t@, ranges@) == ps,
            ps == pieces(body@, '&'),
            t@ == body@,
            ranges_within(ranges@, t@.len() as int),
            string_pairs(out@) == form_fields(body@).take(i as int),
    {
        let (a, b) = ranges[i];
        assert(ranges@[i as int].0 <= ranges@[i as int].1 <= t@.len());
        let pair = slice_vec(&t, a, b);
        assert(pair@ == ps[i as int]);
        let (key, value) = split_at_char(&pair, '=');
        let k = string_of(&key);
        let v = string_of(&value);
        assert(pieces(body@, '&')[i as int] == pair@);
        let dk = url_decode(k.as_str());
        let dv = url_decode(v.as_str());
        let ghost before = out@;
        out.push((dk, dv));
        assert(string_pairs(out@) =~= string_pairs(before).push((dk@, dv@)));
        assert(string_pairs(out@) =~= form_fields(body@).take(i + 1));
    }
    assert(form_fields(body@).take(ranges@.len() as int) =~= form_fields(body@));
    out
}

// ───────────────────────── pages ─────────────────────────

/// Percent-encoded text.
pub open spec fn enc(s: Seq<char>) -> Seq<char> {
    url_encoded(encode_utf8(s))
}

fn push_enc(out: &mut Vec<char>, s: &str)
    ensures
        final(out)@ == old(out)@ + enc(s@),
{
    extend_str(out, url_encode(s).as_str());
}

fn push_esc(out: &mut Vec<char>, s: &str)
    ensures
        final(out)@ == old(out)@ + escaped(s@),
{
    extend_str(out, escape(s).as_str());
}

/// Dark, monospaced, and self-contained — the same shape `nb browse`
/// presents.
pub const STYLE: &'static str = "html { background:#141418; color:#c5c4cc; font-size:16px; line-height:1.5; }
html, input, textarea, button { font-family: Menlo, Consolas, Monaco, monospace; }
body { margin:0; padding:1rem 1.25rem; word-wrap:break-word; }
a { color:#8fb8ff; text-decoration:none; }
a:hover { text-decoration:underline; }
.muted { color:#6b6a75; }
.error { color:#ff9494; }
.crumbs { padding-bottom:.5rem; border-bottom:1px solid #2a2a32; }
.search { margin:.75rem 0 1.25rem; }
.search input { width:100%; box-sizing:border-box; background:#1c1c22; color:inherit;
  border:1px solid #2a2a32; border-radius:3px; padding:.4rem .6rem; }
main { max-width:52rem; }
.listing { list-style:none; padding:0; }
.listing li { padding:.15rem 0; }
.id { color:#6b6a75; }
article h1, article h2, article h3 { line-height:1.25; }
article code { background:#1c1c22; padding:.1rem .3rem; border-radius:3px; }
article pre { background:#1c1c22; padding:.75rem; border-radius:4px; overflow-x:auto; }
article pre code { background:none; padding:0; }
article blockquote { margin:0; padding-left:.9rem; border-left:3px solid #2a2a32; color:#a3a2ad; }
article table { border-collapse:collapse; }
article th, article td { border:1px solid #2a2a32; padding:.3rem .6rem; }
textarea { width:100%; box-sizing:border-box; background:#1c1c22; color:inherit;
  border:1px solid #2a2a32; border-radius:3px; padding:.6rem; }
input { background:#1c1c22; color:inherit; border:1px solid #2a2a32;
  border-radius:3px; padding:.4rem .6rem; }
button, .button { display:inline-block; background:#242430; color:#c5c4cc;
  border:1px solid #2a2a32; border-radius:3px; padding:.35rem .8rem; cursor:pointer; }
button:hover, .button:hover { background:#2e2e3c; text-decoration:none; }
";

/// A selector for an entry of the folder a selector names.
pub open spec fn joined_selector(selector: Seq<char>, name: Seq<char>) -> Seq<char> {
    let rest0 = match split_once(selector, ':') {
        Some((_, r)) => r,
        None => selector,
    };
    let rest = rest0.take(rest0.len() - crate::text::trail_count(rest0, '/'));
    if rest.len() == 0 {
        name
    } else {
        rest + seq!['/'] + name
    }
}

pub fn join_selector(selector: &str, name: &str) -> (r: String)
    ensures
        r@ == joined_selector(selector@, name@),
{
    let s = chars_of(selector);
    let (_, after) = split_at_char(&s, ':');
    let rest0 = match find_char(&s, ':', 0) {
        Some(_) => after,
        None => s,
    };
    proof {
        crate::text::lemma_counts(rest0@, '/');
    }
    let mut b = rest0.len();
    assert(rest0@.take(b as int) =~= rest0@);
    while b > 0 && rest0[b - 1] == '/'
        invariant
            b <= rest0@.len(),
            crate::text::trail_count(rest0@, '/') == (rest0@.len() - b) + crate::text::trail_count(
                rest0@.take(b as int),
                '/',
            ),
        decreases b,
    {
        assert(rest0@.take(b as int).drop_last() =~= rest0@.take(b - 1));
        b -= 1;
    }
    if b == 0 {
        return name.to_owned();
    }
    let mut out = slice_vec(&rest0, 0, b);
    out.push('/');
    extend_str(&mut out, name);
    string_of(&out)
}

/// The breadcrumb trail: home, the notebook, the item with its edit and
/// delete links.
pub open spec fn crumbs_text(selector: Seq<char>) -> Seq<char> {
    let (notebook, rest) = match split_once(selector, ':') {
        Some((n, r)) => (n, r),
        None => (seq![], selector),
    };
    "<a href=\"/\">❯ kb</a>"@ + (if notebook.len() > 0 {
        " <span class=\"muted\">·</span> <a href=\"/"@ + enc(notebook) + ":\">"@ + escaped(notebook)
            + "</a>"@
    } else {
        seq![]
    }) + if rest.len() > 0 {
        " <span class=\"muted\">·</span> <span class=\"muted\">"@ + escaped(rest) + "</span>"@
            + " <span class=\"muted\">·</span> <a href=\"/"@ + enc(selector) + "?--edit\">edit</a>"@
            + " <span class=\"muted\">|</span> <a href=\"/"@ + enc(selector)
            + "?--delete\">delete</a>"@
    } else {
        seq![]
    }
}

pub fn crumbs(selector: &str) -> (r: String)
    ensures
        r@ == crumbs_text(selector@),
{
    let s = chars_of(selector);
    let (notebook, rest) = match find_char(&s, ':', 0) {
        Some(_) => split_at_char(&s, ':'),
        None => (Vec::new(), slice_vec(&s, 0, s.len())),
    };
    assert(s@.subrange(0, s@.len() as int) =~= s@);
    let nb = string_of(&notebook);
    let rs = string_of(&rest);
    let mut out: Vec<char> = Vec::new();
    extend_str(&mut out, "<a href=\"/\">❯ kb</a>");
    let ghost a = out@;
    if notebook.len() > 0 {
        extend_str(&mut out, " <span class=\"muted\">·</span> <a href=\"/");
        push_enc(&mut out, nb.as_str());
        extend_str(&mut out, ":\">");
        push_esc(&mut out, nb.as_str());
        extend_str(&mut out, "</a>");
    }
    let ghost b = out@;
    if rest.len() > 0 {
        extend_str(&mut out, " <span class=\"muted\">·</span> <span class=\"muted\">");
        push_esc(&mut out, rs.as_str());
        extend_str(&mut out, "</span>");
        extend_str(&mut out, " <span class=\"muted\">·</span> <a href=\"/");
        push_enc(&mut out, selector);
        extend_str(&mut out, "?--edit\">edit</a>");
        extend_str(&mut out, " <span class=\"muted\">|</span> <a href=\"/");
        push_enc(&mut out, selector);
        extend_str(&mut out, "?--delete\">delete</a>");
    }
    assert(out@ =~= crumbs_text(selector@));
    string_of(&out)
}

/// A fragment wrapped in the full page, with the search box (searching
/// `notebook`) and the styles.
pub open spec fn page_text(title: Seq<char>, body: Seq<char>, notebook: Seq<char>, crumbs: Seq<char>) -> Seq<char> {
    "<!DOCTYPE html>\n<html lang=\"en\">\n<head>\n<meta charset=\"UTF-8\">\n<meta name=\"viewport\" content=\"width=device-width, initial-scale=1.0\">\n<title>kb browse "@
        + escaped(title) + "</title>\n<style>"@ + STYLE@
        + "</style>\n</head>\n<body>\n<nav class=\"crumbs\">"@ + crumbs
        + "</nav>\n<form class=\"search\" method=\"get\" action=\"/"@ + enc(notebook)
        + ":\"><input name=\"--query\" placeholder=\"search\" value=\"\"></form>\n<main>"@ + body
        + "</main>\n</body>\n</html>\n"@
}

/// Wrap a fragment in the full page.
pub fn page(title: &str, body: &str, notebook: &str, crumbs: &str) -> (r: String)
    ensures
        r@ == page_text(title@, body@, notebook@, crumbs@),
{
    let mut out: Vec<char> = Vec::new();
    extend_str(&mut out, "<!DOCTYPE html>\n<html lang=\"en\">\n<head>\n<meta charset=\"UTF-8\">\n<meta name=\"viewport\" content=\"width=device-width, initial-scale=1.0\">\n<title>kb browse ");
    push_esc(&mut out, title);
    extend_str(&mut out, "</title>\n<style>");
    extend_str(&mut out, STYLE);
    extend_str(&mut out, "</style>\n</head>\n<body>\n<nav class=\"crumbs\">");
    extend_str(&mut out, crumbs);
    extend_str(&mut out, "</nav>\n<form class=\"search\" method=\"get\" action=\"/");
    push_enc(&mut out, notebook);
    extend_str(&mut out, ":\"><input name=\"--query\" placeholder=\"search\" value=\"\"></form>\n<main>");
    extend_str(&mut out, body);
    extend_str(&mut out, "</main>\n</body>\n</html>\n");
    assert(out@ =~= page_text(title@, body@, notebook@, crumbs@));
    string_of(&out)
}

/// A search result: a link to the note, its title, its notebook.
pub open spec fn result_row_text(note: Note) -> Seq<char> {
    "<li><a href=\"/"@ + enc(note.notebook@ + seq![':'] + note.rel_path@) + "\">"@ + escaped(
        note.title@,
    ) + "</a> <span class=\"muted\">"@ + escaped(note.notebook@) + "</span></li>"@
}

pub fn result_row(note: &Note) -> (r: String)
    ensures
        r@ == result_row_text(*note),
{
    let mut target = chars_of(note.notebook.as_str());
    target.push(':');
    extend_str(&mut target, note.rel_path.as_str());
    assert(target@ =~= note.notebook@ + seq![':'] + note.rel_path@);
    let t = string_of(&target);
    let mut out: Vec<char> = Vec::new();
    extend_str(&mut out, "<li><a href=\"/");
    push_enc(&mut out, t.as_str());
    extend_str(&mut out, "\">");
    push_esc(&mut out, note.title.as_str());
    extend_str(&mut out, "</a> <span class=\"muted\">");
    push_esc(&mut out, note.notebook.as_str());
    extend_str(&mut out, "</span></li>");
    assert(out@ =~= result_row_text(*note));
    string_of(&out)
}

/// The edit form for a note.
pub open spec fn edit_body(selector: Seq<char>, raw: Seq<char>) -> Seq<char> {
    "<form method=\"post\" action=\"/"@ + enc(selector)
        + "?--edit\"><textarea name=\"content\" rows=\"24\">"@ + escaped(raw)
        + "</textarea><p><button type=\"submit\">save</button> <a class=\"button\" href=\"/"@
        + enc(selector) + "\">cancel</a></p></form>"@
}

pub fn render_edit(selector: &str, raw: &str, notebook: &str) -> (r: String)
    ensures
        r@ == page_text("edit "@ + selector@, edit_body(selector@, raw@), notebook@, "edit "@ + escaped(selector@)),
{
    let mut body: Vec<char> = Vec::new();
    extend_str(&mut body, "<form method=\"post\" action=\"/");
    push_enc(&mut body, selector);
    extend_str(&mut body, "?--edit\"><textarea name=\"content\" rows=\"24\">");
    push_esc(&mut body, raw);
    extend_str(&mut body, "</textarea><p><button type=\"submit\">save</button> <a class=\"button\" href=\"/");
    push_enc(&mut body, selector);
    extend_str(&mut body, "\">cancel</a></p></form>");
    assert(body@ =~= edit_body(selector@, raw@));
    let mut title = chars_of("edit ");
    extend_str(&mut title, selector);
    let mut crumb = chars_of("edit ");
    push_esc(&mut crumb, selector);
    page(string_of(&title).as_str(), string_of(&body).as_str(), notebook, string_of(&crumb).as_str())
}

/// The form that adds a note to a notebook.
pub open spec fn add_body(notebook: Seq<char>) -> Seq<char> {
    "<form method=\"post\" action=\"/"@ + enc(notebook)
        + ":?--add\"><p><input name=\"title\" placeholder=\"title\"></p><p><input name=\"tags\" placeholder=\"tags, comma, separated\"></p><textarea name=\"content\" rows=\"20\" placeholder=\"content\"></textarea><p><button type=\"submit\">add</button></p></form>"@
}

pub fn render_add(target: &str, notebook: &str) -> (r: String)
    ensures
        r@ == page_text("add"@, add_body(target@), notebook@, "add"@),
{
    let mut body: Vec<char> = Vec::new();
    extend_str(&mut body, "<form method=\"post\" action=\"/");
    push_enc(&mut body, target);
    extend_str(&mut body, ":?--add\"><p><input name=\"title\" placeholder=\"title\"></p><p><input name=\"tags\" placeholder=\"tags, comma, separated\"></p><textarea name=\"content\" rows=\"20\" placeholder=\"content\"></textarea><p><button type=\"submit\">add</button></p></form>");
    assert(body@ =~= add_body(target@));
    page("add", string_of(&body).as_str(), notebook, "add")
}

/// The confirmation before deleting a note.
pub open spec fn delete_body(selector: Seq<char>, path: Seq<char>) -> Seq<char> {
    "<p>Delete <code>"@ + escaped(path) + "</code>?</p><form method=\"post\" action=\"/"@
        + enc(selector)
        + "?--delete\"><button type=\"submit\">delete</button> <a class=\"button\" href=\"/"@
        + enc(selector) + "\">cancel</a></form>"@
}

pub fn render_delete(selector: &str, path: &str, notebook: &str) -> (r: String)
    ensures
        r@ == page_text("delete"@, delete_body(selector@, path@), notebook@, "delete "@ + escaped(selector@)),
{
    let mut body: Vec<char> = Vec::new();
    extend_str(&mut body, "<p>Delete <code>");
    push_esc(&mut body, path);
    extend_str(&mut body, "</code>?</p><form method=\"post\" action=\"/");
    push_enc(&mut body, selector);
    extend_str(&mut body, "?--delete\"><button type=\"submit\">delete</button> <a class=\"button\" href=\"/");
    push_enc(&mut body, selector);
    extend_str(&mut body, "\">cancel</a></form>");
    assert(body@ =~= delete_body(selector@, path@));
    let mut crumb = chars_of("delete ");
    push_esc(&mut crumb, selector);
    page("delete", string_of(&body).as_str(), notebook, string_of(&crumb).as_str())
}

/// A note rendered as a page: its body as HTML with links resolved against
/// its notebook (`base`), under its title.
pub open spec fn note_page(selector: Seq<char>, path: Seq<char>, raw: Seq<char>, notebook: Seq<char>, default_notebook: Seq<char>) -> Seq<char> {
    let body = match crate::frontmatter::split_spec(raw) {
        Some((_, end)) => raw.skip(end),
        None => raw,
    };
    let title = note_title(raw, path);
    page_text(
        title,
        "<article>"@ + markdown_html(linked(body, seq![], notebook), MARKDOWN_EXTENSIONS)
            + "</article>"@,
        default_notebook,
        crumbs_text(selector),
    )
}

pub fn render_note(selector: &str, path: &str, raw: &str, notebook: &str, default_notebook: &str) -> (r: String)
    ensures
        r@ == note_page(selector@, path@, raw@, notebook@, default_notebook@),
{
    let base = LinkBase::new("", notebook);
    let doc = crate::frontmatter::Document::split(raw);
    let html = to_html(doc.body.as_str(), &base);
    let note = Note::parse(raw, path, notebook, path);
    let mut body = chars_of("<article>");
    extend_str(&mut body, html.as_str());
    extend_str(&mut body, "</article>");
    proof {
        reveal_strlit("");
        assert(base.prefix@ =~= Seq::<char>::empty());
    }
    assert(body@ =~= "<article>"@ + markdown_html(linked(doc.body@, seq![], notebook@), MARKDOWN_EXTENSIONS) + "</article>"@);
    page(note.title.as_str(), string_of(&body).as_str(), default_notebook, crumbs(selector).as_str())
}

/// One entry of a folder listing: its id, its name, and the label shown.
pub struct ListingEntry {
    pub id: usize,
    pub name: String,
    pub label: String,
}

/// What a listing shows for an entry: a folder's name with a slash, a note's
/// title, or the name of a note that could not be read.
pub open spec fn label_text(name: Seq<char>, is_dir: bool, raw: Option<Seq<char>>, path: Seq<char>) -> Seq<char> {
    if is_dir {
        name + seq!['/']
    } else {
        match raw {
            Some(r) => note_title(r, path),
            None => name,
        }
    }
}

pub fn listing_label(name: &str, is_dir: bool, raw: Option<&str>, path: &str, notebook: &str) -> (r: String)
    ensures
        r@ == label_text(name@, is_dir, match raw {
            Some(t) => Some(t@),
            None => None,
        }, path@),
{
    if is_dir {
        let mut out = chars_of(name);
        out.push('/');
        return string_of(&out);
    }
    match raw {
        Some(t) => Note::parse(t, path, notebook, path).title,
        None => name.to_owned(),
    }
}

pub open spec fn listing_row(selector: Seq<char>, notebook: Seq<char>, e: ListingEntry) -> Seq<char> {
    "<li><a href=\"/"@ + enc(notebook + seq![':'] + joined_selector(selector, e.name@))
        + "\"><span class=\"id\">["@ + crate::text::decimal(e.id as nat) + "]</span> "@ + escaped(
        e.label@,
    ) + "</a></li>"@
}

pub open spec fn listing_rows(selector: Seq<char>, notebook: Seq<char>, es: Seq<ListingEntry>, n: int) -> Seq<char>
    decreases n,
{
    if n <= 0 {
        seq![]
    } else {
        listing_rows(selector, notebook, es, n - 1) + listing_row(selector, notebook, es[n - 1])
    }
}

/// A folder or notebook listing: an add button, then a linked row per entry.
pub open spec fn listing_page(selector: Seq<char>, notebook: Seq<char>, es: Seq<ListingEntry>, default_notebook: Seq<char>) -> Seq<char> {
    let heading = if selector.len() == 0 {
        notebook
    } else {
        selector
    };
    page_text(
        heading,
        "<p><a class=\"button\" href=\"/"@ + enc(notebook) + ":?--add\">+ add</a></p>"@
            + "<ul class=\"listing\">"@ + listing_rows(selector, notebook, es, es.len() as int)
            + "</ul>"@,
        default_notebook,
        crumbs_text(selector),
    )
}

pub fn render_listing(selector: &str, notebook: &str, entries: &Vec<ListingEntry>, default_notebook: &str) -> (r: String)
    ensures
        r@ == listing_page(selector@, notebook@, entries@, default_notebook@),
{
    let mut rows: Vec<char> = Vec::new();
    for k in 0..entries.len()
        invariant
            rows@ == listing_rows(selector@, notebook@, entries@, k as int),
    {
        let e = &entries[k];
        let mut target = chars_of(notebook);
        target.push(':');
        extend_str(&mut target, join_selector(selector, e.name.as_str()).as_str());
        assert(target@ =~= notebook@ + seq![':'] + joined_selector(selector@, e.name@));
        let t = string_of(&target);
        assert((e.id as u64) as nat == e.id as nat);
        let ghost before = rows@;
        extend_str(&mut rows, "<li><a href=\"/");
        push_enc(&mut rows, t.as_str());
        extend_str(&mut rows, "\"><span class=\"id\">[");
        extend_chars(&mut rows, &crate::text::decimal_chars(e.id as u64));
        extend_str(&mut rows, "]</span> ");
        push_esc(&mut rows, e.label.as_str());
        extend_str(&mut rows, "</a></li>");
        assert(rows@ =~= before + listing_row(selector@, notebook@, *e));
    }
    let heading = if selector.is_empty() {
        notebook
    } else {
        selector
    };
    let mut body: Vec<char> = Vec::new();
    extend_str(&mut body, "<p><a class=\"button\" href=\"/");
    push_enc(&mut body, notebook);
    extend_str(&mut body, ":?--add\">+ add</a></p>");
    extend_str(&mut body, "<ul class=\"listing\">");
    extend_chars(&mut body, &rows);
    extend_str(&mut body, "</ul>");
    page(heading, string_of(&body).as_str(), default_notebook, crumbs(selector).as_str())
}

pub open spec fn index_row(name: Seq<char>, count: usize) -> Seq<char> {
    "<li><a href=\"/"@ + enc(name) + ":\">"@ + escaped(name) + "</a> <span class=\"muted\">"@
        + crate::text::decimal(count as nat) + " items</span></li>"@
}

pub open spec fn index_rows(ns: Seq<(String, usize)>, n: int) -> Seq<char>
    decreases n,
{
    if n <= 0 {
        seq![]
    } else {
        index_rows(ns, n - 1) + index_row(ns[n - 1].0@, ns[n - 1].1)
    }
}

/// The page listing every notebook and how many items it holds.
pub fn render_index(notebooks: &Vec<(String, usize)>, default_notebook: &str) -> (r: String)
    ensures
        r@ == page_text(
            "notebooks"@,
            "<ul class=\"listing\">"@ + index_rows(notebooks@, notebooks@.len() as int) + "</ul>"@,
            default_notebook@,
            "notebooks"@,
        ),
{
    let mut body: Vec<char> = Vec::new();
    extend_str(&mut body, "<ul class=\"listing\">");
    let ghost start = body@;
    for k in 0..notebooks.len()
        invariant
            body@ == start + index_rows(notebooks@, k as int),
    {
        let ghost before = body@;
        extend_str(&mut body, "<li><a href=\"/");
        push_enc(&mut body, notebooks[k].0.as_str());
        extend_str(&mut body, ":\">");
        push_esc(&mut body, notebooks[k].0.as_str());
        extend_str(&mut body, "</a> <span class=\"muted\">");
        extend_chars(&mut body, &crate::text::decimal_chars(notebooks[k].1 as u64));
        extend_str(&mut body, " items</span></li>");
        assert(body@ =~= before + index_row(notebooks@[k as int].0@, notebooks@[k as int].1));
    }
    extend_str(&mut body, "</ul>");
    page("notebooks", string_of(&body).as_str(), default_notebook, "notebooks")
}

/// Whether a note's path occurs among the first `n` notes.
pub open spec fn seen_before(notes: Seq<Note>, n: int, path: Seq<char>) -> bool {
    exists|j: int| 0 <= j < n && (#[trigger] notes[j]).path@ == path
}

/// The result rows of the first `n` notes, each path once.
pub open spec fn search_rows(notes: Seq<Note>, n: int) -> Seq<char>
    decreases n,
{
    if n <= 0 {
        seq![]
    } else {
        search_rows(notes, n - 1) + if seen_before(notes, n - 1, notes[n - 1].path@) {
            seq![]
        } else {
            result_row_text(notes[n - 1])
        }
    }
}

/// The search page for a query. `found` holds the notes a `#tag` query finds
/// by tag, then those the text search finds; a note found twice is listed
/// once.
pub fn render_search(query: &str, found: &Vec<Note>, default_notebook: &str) -> (r: String)
    ensures
        r@ == page_text(
            "search: "@ + escaped(query@),
            "<ul class=\"listing\">"@ + search_rows(found@, found@.len() as int) + "</ul>"@,
            default_notebook@,
            "search: "@ + escaped(query@),
        ),
{
    let mut rows: Vec<char> = Vec::new();
    for k in 0..found.len()
        invariant
            rows@ == search_rows(found@, k as int),
    {
        let mut seen = false;
        let p = chars_of(found[k].path.as_str());
        for j in 0..k
            invariant
                j <= k < found@.len(),
                p@ == found@[k as int].path@,
                seen == exists|m: int| 0 <= m < j && (#[trigger] found@[m]).path@ == p@,
        {
            if !seen && chars_eq(&chars_of(found[j].path.as_str()), &p) {
                seen = true;
            }
        }
        if !seen {
            extend_str(&mut rows, result_row(&found[k]).as_str());
        }
    }
    let mut heading = chars_of("search: ");
    push_esc(&mut heading, query);
    let h = string_of(&heading);
    let mut body: Vec<char> = Vec::new();
    extend_str(&mut body, "<ul class=\"listing\">");
    extend_chars(&mut body, &rows);
    extend_str(&mut body, "</ul>");
    page(h.as_str(), string_of(&body).as_str(), default_notebook, h.as_str())
}

/// The tag a search for `#tag` also looks for.
pub open spec fn searched_tag(query: Seq<char>) -> Option<Seq<char>> {
    if query.len() > 0 && query[0] == '#' {
        Some(query.drop_first())
    } else {
        None
    }
}

pub fn search_tag(query: &str) -> (r: Option<String>)
    ensures
        match searched_tag(query@) {
            Some(t) => r matches Some(s) && s@ == t,
            None => r is None,
        },
{
    let q = chars_of(query);
    if q.len() > 0 && q[0] == '#' {
        Some(string_of(&slice_vec(&q, 1, q.len())))
    } else {
        None
    }
}

// ───────────────────────── routing ─────────────────────────

/// Which page a request asks for, before any item is resolved.
#[derive(Debug, Clone, Copy, PartialEq, Eq, Structural)]
pub enum Route {
    /// A submitted add, edit or delete.
    Post,
    /// The notebook index.
    Index,
    /// Search results for the request's query.
    Search,
    /// The item the selector names.
    Item,
}

pub open spec fn route_of(request: RequestView, posted: bool) -> Route {
    if posted {
        Route::Post
    } else if request.notebooks || (request.selector.len() == 0 && request.query is None) {
        Route::Index
    } else if request.query is Some {
        Route::Search
    } else {
        Route::Item
    }
}

pub fn route(request: &Request, posted: bool) -> (r: Route)
    ensures
        r == route_of(request.view_fields(), posted),
{
    if posted {
        Route::Post
    } else if request.notebooks || (request.selector.as_str().is_empty() && request.query.is_none()) {
        Route::Index
    } else if request.query.is_some() {
        Route::Search
    } else {
        Route::Item
    }
}

/// What a request for a note shows.
#[derive(Debug, Clone, Copy, PartialEq, Eq, Structural)]
pub enum NoteView {
    /// The raw Markdown.
    Original,
    Edit,
    Delete,
    /// The rendered note.
    Rendered,
}

pub fn note_view(request: &Request) -> (r: NoteView)
    ensures
        r == (if request.original {
            NoteView::Original
        } else if request.edit {
            NoteView::Edit
        } else if request.delete {
            NoteView::Delete
        } else {
            NoteView::Rendered
        }),
{
    if request.original {
        NoteView::Original
    } else if request.edit {
        NoteView::Edit
    } else if request.delete {
        NoteView::Delete
    } else {
        NoteView::Rendered
    }
}

/// The first value a form gives a key.
pub open spec fn form_value(fields: Seq<(Seq<char>, Seq<char>)>, key: Seq<char>, i: int) -> Option<Seq<char>>
    decreases fields.len() - i,
{
    if i < 0 || i >= fields.len() {
        None
    } else if fields[i].0 == key {
        Some(fields[i].1)
    } else {
        form_value(fields, key, i + 1)
    }
}

pub fn form_get(fields: &Vec<(String, String)>, key: &str) -> (r: Option<String>)
    ensures
        match form_value(string_pairs(fields@), key@, 0) {
            Some(v) => r matches Some(s) && s@ == v,
            None => r is None,
        },
{
    let k = chars_of(key);
    let mut i: usize = 0;
    while i < fields.len()
        invariant
            i <= fields@.len(),
            k@ == key@,
            form_value(string_pairs(fields@), key@, 0) == form_value(string_pairs(fields@), key@, i as int),
        decreases fields@.len() - i,
    {
        assert(string_pairs(fields@)[i as int] == (fields@[i as int].0@, fields@[i as int].1@));
        if chars_eq(&chars_of(fields[i].0.as_str()), &k) {
            return Some(crate::text::copy_string(&fields[i].1));
        }
        i += 1;
    }
    None
}

/// The notebook a selector belongs to: its own, else the default.
pub open spec fn notebook_of_text(selector: Seq<char>, default_notebook: Seq<char>) -> Seq<char> {
    match crate::selector::sel_notebook(selector) {
        Some(n) => n,
        None => default_notebook,
    }
}

pub fn notebook_of(selector: &str, default_notebook: &str) -> (r: String)
    ensures
        r@ == notebook_of_text(selector@, default_notebook@),
{
    match crate::selector::Selector::parse(selector).notebook {
        Some(n) => n,
        None => default_notebook.to_owned(),
    }
}

/// Comma-separated tags, each trimmed, blanks dropped.
pub open spec fn form_tags_text(tags: Seq<char>) -> Seq<Seq<char>> {
    pieces(tags, ',').map_values(|t: Seq<char>| trim(t)).filter(|t: Seq<char>| t.len() > 0)
}

pub fn form_tags(tags: &str) -> (r: Vec<String>)
    ensures
        crate::text::texts(r@) == form_tags_text(tags@),
{
    let t = chars_of(tags);
    let ranges = piece_ranges(&t, ',');
    let ghost ps = pieces(t@, ',');
    let ghost trimmed = ps.map_values(|x: Seq<char>| trim(x));
    let ghost keep = |x: Seq<char>| x.len() > 0;
    let mut out: Vec<String> = Vec::new();
    proof {
        reveal(Seq::filter);
        assert(trimmed.take(0).filter(keep) =~= Seq::<Seq<char>>::empty());
    }
    for i in 0..ranges.len()
        invariant
            spans(t@, ranges@) == ps,
            trimmed == ps.map_values(|x: Seq<char>| trim(x)),
            keep == (|x: Seq<char>| x.len() > 0),
            ranges_within(ranges@, t@.len() as int),
            crate::text::texts(out@) == trimmed.take(i as int).filter(keep),
    {
        let (a, b) = ranges[i];
        assert(ranges@[i as int].0 <= ranges@[i as int].1 <= t@.len());
        let piece = slice_vec(&t, a, b);
        assert(piece@ == ps[i as int]);
        let tr = trim_chars(&piece);
        proof {
            reveal(Seq::filter);
            assert(trimmed.take(i + 1).drop_last() =~= trimmed.take(i as int));
            assert(trimmed.take(i + 1).last() == tr@);
        }
        if tr.len() > 0 {
            let ghost before = out@;
            let s = string_of(&tr);
            out.push(s);
            assert(crate::text::texts(out@) =~= crate::text::texts(before).push(s@));
        }
    }
    assert(trimmed.take(ranges@.len() as int) =~= trimmed);
    out
}

/// The note a submitted add form describes: its title when not blank, its
/// comma-separated tags, its content.
pub fn new_note_from_form(fields: &Vec<(String, String)>) -> (r: crate::create::NewNote)
    ensures
        crate::create::opt_text(r.title) == match form_value(string_pairs(fields@), "title"@, 0) {
            Some(t) => if trim(t).len() > 0 {
                Some(t)
            } else {
                None
            },
            None => None,
        },
        crate::text::texts(r.tags@) == match form_value(string_pairs(fields@), "tags"@, 0) {
            Some(t) => form_tags_text(t),
            None => Seq::<Seq<char>>::empty(),
        },
        crate::create::opt_text(r.body) == form_value(string_pairs(fields@), "content"@, 0),
        r.dir@.len() == 0,
        r.filename is None,
        r.extension is None,
{
    let title = match form_get(fields, "title") {
        Some(t) => if trim_chars(&chars_of(t.as_str())).len() > 0 {
            Some(t)
        } else {
            None
        },
        None => None,
    };
    let tags = match form_get(fields, "tags") {
        Some(t) => form_tags(t.as_str()),
        None => Vec::new(),
    };
    proof {
        reveal_strlit("");
    }
    crate::create::NewNote {
        title,
        dir: String::new(),
        tags,
        body: form_get(fields, "content"),
        filename: None,
        extension: None,
    }
}

// ───────────────────────── the page `kb browse` opens ─────────────────────────

/// The pages `kb browse add`, `edit` and `delete` open.
#[derive(Debug, Clone, Copy, PartialEq, Eq)]
pub enum BrowseAction {
    Add,
    Edit,
    Delete,
}

pub open spec fn action_flag(a: BrowseAction) -> Seq<char> {
    match a {
        BrowseAction::Add => "--add"@,
        BrowseAction::Edit => "--edit"@,
        BrowseAction::Delete => "--delete"@,
    }
}

pub open spec fn encoded_text(s: Seq<char>) -> Seq<char> {
    url_encoded(encode_utf8(s))
}

/// The URL path a browse invocation opens: the notebook list; an add, edit
/// or delete page for the target (the current notebook by default); a
/// search for a tag or a query in the current notebook; the selector; or
/// the current notebook.
pub open spec fn browse_path_text(
    notebooks: bool,
    notebook: Seq<char>,
    action: Option<(BrowseAction, Option<Seq<char>>)>,
    tag: Option<Seq<char>>,
    query: Option<Seq<char>>,
    selector: Option<Seq<char>>,
) -> Seq<char> {
    if notebooks {
        "/?--notebooks"@
    } else {
        match action {
            Some((a, target)) => "/"@ + encoded_text(
                match target {
                    Some(t) => t,
                    None => notebook + ":"@,
                },
            ) + "?"@ + action_flag(a),
            None => match tag {
                Some(t) => "/"@ + notebook + ":?--query="@ + encoded_text(
                    "#"@ + t.skip(crate::text::lead_count(t, '#') as int),
                ),
                None => match query {
                    Some(q) => "/"@ + notebook + ":?--query="@ + encoded_text(q),
                    None => match selector {
                        Some(s) => "/"@ + encoded_text(s),
                        None => "/"@ + notebook + ":"@,
                    },
                },
            },
        }
    }
}

/// The URL path `kb browse` opens, `notebook` being the current notebook.
pub fn browse_path(
    notebooks: bool,
    notebook: &str,
    action: Option<(BrowseAction, Option<&str>)>,
    tag: Option<&str>,
    query: Option<&str>,
    selector: Option<&str>,
) -> (r: String)
    ensures
        r@ == browse_path_text(
            notebooks,
            notebook@,
            match action {
                Some((a, t)) => Some(
                    (
                        a,
                        match t {
                            Some(s) => Some(s@),
                            None => None,
                        },
                    ),
                ),
                None => None,
            },
            match tag {
                Some(s) => Some(s@),
                None => None,
            },
            match query {
                Some(s) => Some(s@),
                None => None,
            },
            match selector {
                Some(s) => Some(s@),
                None => None,
            },
        ),
{
    let mut out: Vec<char> = Vec::new();
    if notebooks {
        extend_str(&mut out, "/?--notebooks");
        return string_of(&out);
    }
    match action {
        Some((a, target)) => {
            let t = match target {
                Some(t) => t.to_owned(),
                None => {
                    let mut n: Vec<char> = Vec::new();
                    extend_str(&mut n, notebook);
                    extend_str(&mut n, ":");
                    string_of(&n)
                },
            };
            extend_str(&mut out, "/");
            extend_str(&mut out, url_encode(t.as_str()).as_str());
            extend_str(&mut out, "?");
            match a {
                BrowseAction::Add => extend_str(&mut out, "--add"),
                BrowseAction::Edit => extend_str(&mut out, "--edit"),
                BrowseAction::Delete => extend_str(&mut out, "--delete"),
            }
            return string_of(&out);
        },
        None => {},
    }
    match tag {
        Some(t) => {
            let chars = chars_of(t);
            let mut k: usize = 0;
            proof {
                crate::text::lemma_counts(t@, '#');
                assert(t@.skip(0) =~= t@);
            }
            while k < chars.len() && chars[k] == '#'
                invariant
                    chars@ == t@,
                    k <= t@.len(),
                    crate::text::lead_count(t@, '#') == k + crate::text::lead_count(t@.skip(k as int), '#'),
                decreases t@.len() - k,
            {
                assert(t@.skip(k as int).drop_first() =~= t@.skip(k + 1));
                k += 1;
            }
            let mut hashed: Vec<char> = vec!['#'];
            extend_chars(&mut hashed, &slice_vec(&chars, k, chars.len()));
            proof {
                reveal_strlit("#");
            }
            assert(hashed@ =~= "#"@ + t@.skip(crate::text::lead_count(t@, '#') as int));
            extend_str(&mut out, "/");
            extend_str(&mut out, notebook);
            extend_str(&mut out, ":?--query=");
            extend_str(&mut out, url_encode(string_of(&hashed).as_str()).as_str());
            return string_of(&out);
        },
        None => {},
    }
    match query {
        Some(q) => {
            extend_str(&mut out, "/");
            extend_str(&mut out, notebook);
            extend_str(&mut out, ":?--query=");
            extend_str(&mut out, url_encode(q).as_str());
            return string_of(&out);
        },
        None => {},
    }
    match selector {
        Some(s) => {
            extend_str(&mut out, "/");
            extend_str(&mut out, url_encode(s).as_str());
        },
        None => {
            extend_str(&mut out, "/");
            extend_str(&mut out, notebook);
            extend_str(&mut out, ":");
        },
    }
    string_of(&out)
}

} // verus!
