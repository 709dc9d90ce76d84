//! Bookmarks: notes that record a URL, saved as `*.bookmark.md`.
//!
//! The rendered shape is `nb`'s: a heading of `<title> (<domain>)`, the URL on
//! its own line, then Quote, Comment, Related, and Tags sections in that order,
//! each present only when it has content.

use vstd::prelude::*;

use crate::text::texts;

use crate::paths::{file_name, file_name_range};
use crate::text::{
    chars_of, collapse_whitespace, contains, contains_chars, ends_with, extend_chars, extend_str,
    find, find_char, find_char_from, find_chars, find_from, join_with, lemma_find_char_facts,
    lemma_find_from_facts, lemma_rfind_char_facts, line_ranges, lines, lower, occurs_at, ranges_within,
    replace, replace_chars, rfind_char, rfind_char_before, slice_vec, spans, string_of, to_lower,
    trim, trim_range, words, starts_with,
};
use crate::todo::{hashtags, hashtags_of};

verus! {

/// Extension marking a note as a bookmark.
pub const BOOKMARK_EXT: &'static str = "bookmark.md";

/// What to record about a URL.
#[derive(Debug, Clone, Default)]
pub struct NewBookmark {
    pub url: String,
    pub title: Option<String>,
    pub comment: Option<String>,
    pub quote: Option<String>,
    pub tags: Vec<String>,
    pub related: Vec<String>,
    pub filename: Option<String>,
    /// Skip fetching the page.
    pub no_request: bool,
    /// Save the fetched HTML alongside the bookmark.
    pub save_source: bool,
}

/// Whether a path names a bookmark: its file name ends in `bookmark.md`, in
/// any case.
pub open spec fn is_bookmark_path(path: Seq<char>) -> bool {
    match file_name(path) {
        Some(n) => "bookmark.md"@.is_suffix_of(lower(n)),
        None => false,
    }
}

pub fn is_bookmark(path: &str) -> (r: bool)
    ensures
        r == is_bookmark_path(path@),
{
    let p = chars_of(path);
    match file_name_range(&p) {
        Some((a, b)) => {
            let n = to_lower(&slice_vec(&p, a, b));
            let ext = chars_of(BOOKMARK_EXT);
            ends_with(&n, &ext)
        },
        None => false,
    }
}

// ───────────────────────── domains ─────────────────────────

/// The text after a scheme's `://`, or the whole URL.
pub open spec fn after_scheme(url: Seq<char>) -> Seq<char> {
    match find(url, "://"@) {
        Some(k) => url.skip(k + 3),
        None => url,
    }
}

pub open spec fn is_url_break(c: char) -> bool {
    c == '/' || c == '?' || c == '#'
}

/// The first index at or after `i` holding `/`, `?` or `#`, or the length.
pub open spec fn host_end(s: Seq<char>, i: int) -> int
    decreases s.len() - i,
{
    if i < 0 || i >= s.len() {
        s.len() as int
    } else if is_url_break(s[i]) {
        i
    } else {
        host_end(s, i + 1)
    }
}

/// How many times `www.` opens `s`, back to back.
pub open spec fn www_prefix(s: Seq<char>) -> nat
    decreases s.len(),
{
    if s.len() >= 4 && s.take(4) == "www."@ {
        4 + www_prefix(s.skip(4))
    } else {
        0
    }
}

/// The host part of a URL, as the heading shows it: without the scheme, the
/// path, any `user@`, the port, or a leading `www.`.
pub open spec fn domain(url: Seq<char>) -> Option<Seq<char>> {
    let rest = after_scheme(url);
    let h1 = rest.take(host_end(rest, 0));
    let h2 = match rfind_char_before(h1, '@', h1.len() as int) {
        Some(k) => h1.skip(k + 1),
        None => h1,
    };
    let h3 = match find_char_from(h2, ':', 0) {
        Some(k) => h2.take(k),
        None => h2,
    };
    if h3.len() == 0 {
        None
    } else {
        Some(h3.skip(www_prefix(h3) as int))
    }
}

proof fn lemma_host_end(s: Seq<char>, i: int)
    requires
        0 <= i <= s.len(),
    ensures
        i <= host_end(s, i) <= s.len(),
    decreases s.len() - i,
{
    if i < s.len() && !is_url_break(s[i]) {
        lemma_host_end(s, i + 1);
    }
}

proof fn lemma_www_prefix_bound(s: Seq<char>)
    ensures
        www_prefix(s) <= s.len(),
    decreases s.len(),
{
    if s.len() >= 4 && s.take(4) == "www."@ {
        lemma_www_prefix_bound(s.skip(4));
    }
}

fn strip_www(h: &[char]) -> (r: Vec<char>)
    ensures
        r@ == h@.skip(www_prefix(h@) as int),
    decreases h@.len(),
{
    proof {
        reveal_strlit("www.");
    }
    if h.len() >= 4 && h[0] == 'w' && h[1] == 'w' && h[2] == 'w' && h[3] == '.' {
        assert(h@.take(4) =~= "www."@);
        let rest = slice_vec(h, 4, h.len());
        assert(rest@ =~= h@.skip(4));
        let r = strip_www(&rest);
        proof {
            lemma_www_prefix_bound(h@.skip(4));
        }
        assert(h@.skip(4).skip(www_prefix(h@.skip(4)) as int) =~= h@.skip(4int + www_prefix(h@.skip(4)) as int));
        r
    } else {
        proof {
            if h@.len() >= 4 && h@.take(4) == "www."@ {
                assert(h@.take(4)[0] == h@[0] && h@.take(4)[1] == h@[1]);
                assert(h@.take(4)[2] == h@[2] && h@.take(4)[3] == h@[3]);
            }
        }
        assert(h@.skip(0) =~= h@);
        slice_vec(h, 0, h.len())
    }
}

/// The host part of a URL, as the heading shows it.
pub fn domain_of(url: &str) -> (r: Option<String>)
    ensures
        match domain(url@) {
            Some(d) => r matches Some(s) && s@ == d,
            None => r is None,
        },
{
    let u = chars_of(url);
    let sep = chars_of("://");
    proof {
        reveal_strlit("://");
    }
    let rest = match find_chars(&u, &sep, 0) {
        Some(k) => {
            proof {
                lemma_find_from_facts(u@, sep@, 0);
            }
            slice_vec(&u, k + 3, u.len())
        },
        None => slice_vec(&u, 0, u.len()),
    };
    assert(rest@ == after_scheme(url@));
    let mut e: usize = 0;
    while e < rest.len() && !(rest[e] == '/' || rest[e] == '?' || rest[e] == '#')
        invariant
            e <= rest@.len(),
            host_end(rest@, 0) == host_end(rest@, e as int),
        decreases rest@.len() - e,
    {
        e += 1;
    }
    let h1 = slice_vec(&rest, 0, e);
    let h2 = match rfind_char(&h1, '@', h1.len()) {
        Some(k) => {
            proof {
                lemma_rfind_char_facts(h1@, '@', h1@.len() as int);
            }
            slice_vec(&h1, k + 1, h1.len())
        },
        None => h1,
    };
    let h3 = match find_char(&h2, ':', 0) {
        Some(k) => {
            proof {
                lemma_find_char_facts(h2@, ':', 0);
            }
            slice_vec(&h2, 0, k)
        },
        None => h2,
    };
    if h3.len() == 0 {
        return None;
    }
    let d = strip_www(&h3);
    Some(string_of(&d))
}

// ───────────────────────── rendering ─────────────────────────

/// The heading text: `<title> (<domain>)`.
pub open spec fn heading_text(url: Seq<char>, title: Seq<char>) -> Seq<char> {
    match domain(url) {
        Some(d) => title + " ("@ + d + seq![')'],
        None => title,
    }
}

/// The heading text: `<title> (<domain>)`.
pub fn heading(spec: &NewBookmark, title: &str) -> (r: String)
    ensures
        r@ == heading_text(spec.url@, title@),
{
    match domain_of(spec.url.as_str()) {
        Some(domain) => {
            let mut out: Vec<char> = Vec::new();
            extend_str(&mut out, title);
            extend_str(&mut out, " (");
            extend_str(&mut out, domain.as_str());
            out.push(')');
            string_of(&out)
        },
        None => title.to_owned(),
    }
}

/// Optional text with surrounding whitespace removed, if any is left.
pub open spec fn non_empty(v: Option<String>) -> Option<Seq<char>> {
    match v {
        Some(s) => if trim(s@).len() > 0 {
            Some(trim(s@))
        } else {
            None
        },
        None => None,
    }
}

/// Each line of a quote, quoted.
pub open spec fn quoted_lines(ls: Seq<Seq<char>>) -> Seq<char>
    decreases ls.len(),
{
    if ls.len() == 0 {
        seq![]
    } else {
        quoted_lines(ls.drop_last()) + "> "@ + ls.last() + seq!['\n']
    }
}

/// A related link: a URL in angle brackets, a bare selector as it is.
pub open spec fn related_line(r: Seq<char>) -> Seq<char> {
    if contains(r, "://"@) {
        "- <"@ + r + ">\n"@
    } else {
        "- "@ + r + seq!['\n']
    }
}

pub open spec fn related_lines(rs: Seq<Seq<char>>) -> Seq<char>
    decreases rs.len(),
{
    if rs.len() == 0 {
        seq![]
    } else {
        related_lines(rs.drop_last()) + related_line(rs.last())
    }
}

pub open spec fn quote_section(q: Option<String>) -> Seq<char> {
    match non_empty(q) {
        Some(q) => "\n## Quote\n\n"@ + quoted_lines(lines(q)),
        None => seq![],
    }
}

pub open spec fn comment_section(c: Option<String>) -> Seq<char> {
    match non_empty(c) {
        Some(c) => "\n## Comment\n\n"@ + c + seq!['\n'],
        None => seq![],
    }
}

pub open spec fn related_section(related: Seq<String>) -> Seq<char> {
    if related.len() == 0 {
        seq![]
    } else {
        "\n## Related\n\n"@ + related_lines(texts(related))
    }
}

pub open spec fn tags_section(tags: Seq<String>) -> Seq<char> {
    if tags.len() == 0 {
        seq![]
    } else {
        "\n## Tags\n\n"@ + hashtags(texts(tags)) + seq!['\n']
    }
}

/// The body of a bookmark: heading, URL, then the sections that have content.
pub open spec fn bookmark_text(spec: NewBookmark, title: Seq<char>) -> Seq<char> {
    "# "@ + heading_text(spec.url@, title) + seq!['\n'] + "\n<"@ + spec.url@ + ">\n"@
        + quote_section(spec.quote) + comment_section(spec.comment) + related_section(
        spec.related@,
    ) + tags_section(spec.tags@)
}

fn non_empty_exec(v: &Option<String>) -> (r: Option<Vec<char>>)
    ensures
        match non_empty(*v) {
            Some(t) => r matches Some(x) && x@ == t,
            None => r is None,
        },
{
    match v {
        Some(s) => {
            let c = chars_of(s.as_str());
            let t = crate::text::trim_chars(&c);
            if t.len() > 0 {
                Some(t)
            } else {
                None
            }
        },
        None => None,
    }
}

fn push_quoted(out: &mut Vec<char>, q: &Vec<char>)
    ensures
        final(out)@ == old(out)@ + quoted_lines(lines(q@)),
{
    let ranges = line_ranges(q);
    let ghost ls = lines(q@);
    let ghost start = out@;
    for k in 0..ranges.len()
        invariant
            spans(q@, ranges@) == ls,
            ranges_within(ranges@, q@.len() as int),
            out@ == start + quoted_lines(ls.take(k as int)),
    {
        let (a, b) = ranges[k];
        assert(ranges@[k as int].0 <= ranges@[k as int].1 <= q@.len());
        extend_str(out, "> ");
        extend_chars(out, &slice_vec(q, a, b));
        out.push('\n');
        proof {
            assert(ls[k as int] == q@.subrange(a as int, b as int));
            assert(ls.take(k + 1).drop_last() =~= ls.take(k as int));
            assert(out@ =~= start + quoted_lines(ls.take(k + 1)));
        }
    }
    assert(ls.take(ranges@.len() as int) =~= ls);
}

fn push_related(out: &mut Vec<char>, related: &Vec<String>)
    ensures
        final(out)@ == old(out)@ + related_lines(texts(related@)),
{
    let ghost start = out@;
    let ghost rs = texts(related@);
    let sep = chars_of("://");
    for k in 0..related.len()
        invariant
            rs == texts(related@),
            sep@ == "://"@,
            out@ == start + related_lines(rs.take(k as int)),
    {
        let r = chars_of(related[k].as_str());
        if contains_chars(&r, &sep) {
            extend_str(out, "- <");
            extend_chars(out, &r);
            extend_str(out, ">\n");
        } else {
            extend_str(out, "- ");
            extend_chars(out, &r);
            out.push('\n');
        }
        proof {
            assert(rs[k as int] == r@);
            assert(rs.take(k + 1).drop_last() =~= rs.take(k as int));
            assert(out@ =~= start + related_lines(rs.take(k + 1)));
        }
    }
    assert(rs.take(related@.len() as int) =~= rs);
}

/// Render the bookmark body.
pub fn render(spec: &NewBookmark, title: &str) -> (r: String)
    ensures
        r@ == bookmark_text(*spec, title@),
{
    let mut out: Vec<char> = Vec::new();
    extend_str(&mut out, "# ");
    let h = heading(spec, title);
    extend_str(&mut out, h.as_str());
    out.push('\n');
    extend_str(&mut out, "\n<");
    extend_str(&mut out, spec.url.as_str());
    extend_str(&mut out, ">\n");
    let ghost head = out@;
    assert(head =~= "# "@ + heading_text(spec.url@, title@) + seq!['\n'] + "\n<"@ + spec.url@
        + ">\n"@);
    match non_empty_exec(&spec.quote) {
        Some(q) => {
            extend_str(&mut out, "\n## Quote\n\n");
            push_quoted(&mut out, &q);
        },
        None => {},
    }
    assert(out@ =~= head + quote_section(spec.quote));
    let ghost after_quote = out@;
    match non_empty_exec(&spec.comment) {
        Some(c) => {
            extend_str(&mut out, "\n## Comment\n\n");
            extend_chars(&mut out, &c);
            out.push('\n');
        },
        None => {},
    }
    assert(out@ =~= after_quote + comment_section(spec.comment));
    let ghost after_comment = out@;
    if spec.related.len() > 0 {
        extend_str(&mut out, "\n## Related\n\n");
        push_related(&mut out, &spec.related);
    }
    assert(out@ =~= after_comment + related_section(spec.related@));
    let ghost after_related = out@;
    if spec.tags.len() > 0 {
        extend_str(&mut out, "\n## Tags\n\n");
        let tags = hashtags_of(&spec.tags);
        extend_chars(&mut out, &tags);
        out.push('\n');
    }
    assert(out@ =~= after_related + tags_section(spec.tags@));
    proof {
        assert(out@ =~= bookmark_text(*spec, title@));
    }
    string_of(&out)
}

// ───────────────────────── reading pages and notes ─────────────────────────

/// The entity replacements applied to a title, in order.
pub open spec fn decode_entities(t: Seq<char>) -> Seq<char> {
    let a = replace(t, "&amp;"@, "&"@);
    let b = replace(a, "&lt;"@, "<"@);
    let c = replace(b, "&gt;"@, ">"@);
    let d = replace(c, "&quot;"@, "\""@);
    let e = replace(d, "&#39;"@, "'"@);
    let f = replace(e, "&apos;"@, "'"@);
    let g = replace(f, "&nbsp;"@, " "@);
    join_with(words(g), seq![' '])
}

fn replace_lit(s: &Vec<char>, pat: &str, rep: &str) -> (r: Vec<char>)
    requires
        pat@.len() > 0,
    ensures
        r@ == replace(s@, pat@, rep@),
{
    let p = chars_of(pat);
    let q = chars_of(rep);
    replace_chars(s, &p, &q)
}

fn decode_entities_exec(t: &Vec<char>) -> (r: Vec<char>)
    ensures
        r@ == decode_entities(t@),
{
    proof {
        reveal_strlit("&amp;");
        reveal_strlit("&lt;");
        reveal_strlit("&gt;");
        reveal_strlit("&quot;");
        reveal_strlit("&#39;");
        reveal_strlit("&apos;");
        reveal_strlit("&nbsp;");
    }
    let a = replace_lit(t, "&amp;", "&");
    let b = replace_lit(&a, "&lt;", "<");
    let c = replace_lit(&b, "&gt;", ">");
    let d = replace_lit(&c, "&quot;", "\"");
    let e = replace_lit(&d, "&#39;", "'");
    let f = replace_lit(&e, "&apos;", "'");
    let g = replace_lit(&f, "&nbsp;", " ");
    collapse_whitespace(&g)
}

/// The contents of the HTML `<title>` element, entities decoded and
/// whitespace collapsed, when there is any. Tags are found without regard to
/// case.
pub open spec fn title_of(html: Seq<char>) -> Option<Seq<char>> {
    let l = lower(html);
    match find(l, "<title"@) {
        Some(open) => match find_char_from(l, '>', open) {
            Some(gt) => match find_from(l, "</title>"@, gt + 1) {
                Some(end) => {
                    let t = decode_entities(trim(html.subrange(gt + 1, end)));
                    if t.len() > 0 {
                        Some(t)
                    } else {
                        None
                    }
                },
                None => None,
            },
            None => None,
        },
        None => None,
    }
}

/// Extract the contents of the HTML `<title>` element.
///
/// A full HTML parse is more machinery than one element warrants, and a
/// malformed page should degrade to "no title", not an error.
pub fn html_title(html: &str) -> (r: Option<String>)
    ensures
        match title_of(html@) {
            Some(t) => r matches Some(s) && s@ == t,
            None => r is None,
        },
{
    let h = chars_of(html);
    let l = to_lower(&h);
    let open_pat = chars_of("<title");
    let close_pat = chars_of("</title>");
    proof {
        reveal_strlit("</title>");
    }
    let open = match find_chars(&l, &open_pat, 0) {
        Some(k) => k,
        None => return None,
    };
    let gt = match find_char(&l, '>', open) {
        Some(k) => k,
        None => return None,
    };
    proof {
        lemma_find_char_facts(l@, '>', open as int);
    }
    let end = match find_chars(&l, &close_pat, gt + 1) {
        Some(k) => k,
        None => return None,
    };
    proof {
        lemma_find_from_facts(l@, close_pat@, gt + 1);
    }
    let (a, b) = trim_range(&h, gt + 1, end);
    let t = decode_entities_exec(&slice_vec(&h, a, b));
    if t.len() > 0 {
        Some(string_of(&t))
    } else {
        None
    }
}

/// A line of the form `<...>`: the text inside the brackets.
pub open spec fn bracketed(line: Seq<char>) -> Option<Seq<char>> {
    let t = trim(line);
    if t.len() >= 2 && t[0] == '<' && t.last() == '>' {
        Some(t.subrange(1, t.len() - 1))
    } else {
        None
    }
}

/// The first bracketed line at or after `i`.
pub open spec fn first_bracketed(ls: Seq<Seq<char>>, i: int) -> Option<Seq<char>>
    decreases ls.len() - i,
{
    if i < 0 || i >= ls.len() {
        None
    } else {
        match bracketed(ls[i]) {
            Some(u) => Some(u),
            None => first_bracketed(ls, i + 1),
        }
    }
}

/// The URL a bookmark points at: the first bracketed line, when it holds a
/// `://`.
pub open spec fn bookmark_url(raw: Seq<char>) -> Option<Seq<char>> {
    match first_bracketed(lines(raw), 0) {
        Some(u) => if contains(u, "://"@) {
            Some(u)
        } else {
            None
        },
        None => None,
    }
}

/// The host a URL shows is a run of the URL's own characters: what the URL
/// does not hold, the host does not either.
proof fn lemma_domain_within(url: Seq<char>, c: char)
    ensures
        domain(url) matches Some(d) ==> (!url.contains(c) ==> !d.contains(c)),
{
    reveal_strlit("://");
    lemma_find_from_facts(url, "://"@, 0);
    let off0: int = match find(url, "://"@) {
        Some(k) => k + 3,
        None => 0,
    };
    let rest = after_scheme(url);
    assert(0 <= off0 <= url.len());
    assert(rest =~= url.skip(off0));
    lemma_host_end(rest, 0);
    let h1 = rest.take(host_end(rest, 0));
    lemma_rfind_char_facts(h1, '@', h1.len() as int);
    let off2: int = match rfind_char_before(h1, '@', h1.len() as int) {
        Some(k) => k + 1,
        None => 0,
    };
    let h2 = match rfind_char_before(h1, '@', h1.len() as int) {
        Some(k) => h1.skip(k + 1),
        None => h1,
    };
    assert(h2 =~= h1.skip(off2));
    lemma_find_char_facts(h2, ':', 0);
    let h3 = match find_char_from(h2, ':', 0) {
        Some(k) => h2.take(k),
        None => h2,
    };
    assert(h3.len() <= h2.len());
    assert(forall|j: int| 0 <= j < h3.len() ==> h3[j] == h2[j]);
    lemma_www_prefix_bound(h3);
    let w = www_prefix(h3) as int;
    if h3.len() > 0 && !url.contains(c) {
        let d = h3.skip(w);
        if d.contains(c) {
            let j = choose|j: int| 0 <= j < d.len() && d[j] == c;
            assert(d[j] == h3[w + j]);
            assert(h2[w + j] == h1[off2 + w + j]);
            assert(h1[off2 + w + j] == rest[off2 + w + j]);
            assert(rest[off2 + w + j] == url[off0 + off2 + w + j]);
        }
    }
}

/// What rendering a bookmark writes, reading its URL back gives: the URL
/// it was made for, when that URL has a scheme and the title and URL each
/// fit on one line.
pub proof fn lemma_bookmark_url_reads_back(spec: NewBookmark, title: Seq<char>)
    requires
        contains(spec.url@, "://"@),
        !spec.url@.contains('\n'),
        !title.contains('\n'),
    ensures
        bookmark_url(bookmark_text(spec, title)) == Some(spec.url@),
{
    reveal_strlit("# ");
    reveal_strlit(" (");
    reveal_strlit("\n<");
    reveal_strlit(">\n");
    let url = spec.url@;
    let hd = heading_text(url, title);
    lemma_domain_within(url, '\n');
    assert(!hd.contains('\n')) by {
        if hd.contains('\n') {
            let j = choose|j: int| 0 <= j < hd.len() && hd[j] == '\n';
            match domain(url) {
                Some(d) => {
                    if j < title.len() {
                        assert(title[j] == '\n');
                    } else if j >= title.len() + 2 && j < title.len() + 2 + d.len() {
                        assert(d[j - title.len() - 2] == '\n');
                    }
                },
                None => {
                    assert(title[j] == '\n');
                },
            }
        }
    }
    let first = seq!['#', ' '] + hd;
    assert(!first.contains('\n')) by {
        if first.contains('\n') {
            let j = choose|j: int| 0 <= j < first.len() && first[j] == '\n';
            assert(hd[j - 2] == '\n');
        }
    }
    let link = seq!['<'] + url + seq!['>'];
    assert(!link.contains('\n')) by {
        if link.contains('\n') {
            let j = choose|j: int| 0 <= j < link.len() && link[j] == '\n';
            assert(url[j - 1] == '\n');
        }
    }
    let a = first.push('\n');
    let b = seq!['\n'];
    let c = link.push('\n');
    let rest = quote_section(spec.quote) + comment_section(spec.comment) + related_section(
        spec.related@,
    ) + tags_section(spec.tags@);
    assert(bookmark_text(spec, title) =~= a + b + c + rest);
    crate::text::lemma_lines_append(a, b);
    crate::text::lemma_lines_append(a + b, c);
    crate::text::lemma_lines_append(a + b + c, rest);
    crate::text::lemma_lines_single(first);
    crate::text::lemma_lines_single(Seq::<char>::empty());
    assert(Seq::<char>::empty().push('\n') =~= b);
    crate::text::lemma_lines_single(link);
    let ls = lines(bookmark_text(spec, title));
    let l0 = crate::text::strip_cr(first);
    assert(ls[0] == l0);
    assert(ls[1] == Seq::<char>::empty());
    assert(ls[2] == link);
    assert(l0[0] == '#');
    crate::text::lemma_lead_ws_bound(l0);
    assert(crate::text::lead_ws(l0) == 0) by {
        if crate::text::lead_ws(l0) > 0 {
            assert(crate::text::is_ws(l0[0]));
        }
    }
    assert(crate::text::trim_start(l0) =~= l0);
    crate::text::lemma_trail_ws_bound(l0);
    let t0 = trim(l0);
    assert(t0.len() > 0 ==> t0[0] == '#');
    crate::text::lemma_lead_ws_bound(link);
    crate::text::lemma_trail_ws_bound(link);
    assert(trim(link) =~= link);
    assert(link.subrange(1, link.len() - 1) =~= url);
    assert(bracketed(ls[0]) is None);
    assert(bracketed(ls[1]) is None);
    assert(bracketed(ls[2]) == Some(url));
    assert(ls.len() > 2);
    assert(first_bracketed(ls, 2) == Some(url));
    assert(first_bracketed(ls, 1) == Some(url));
    assert(first_bracketed(ls, 0) == Some(url));
}

/// The URL a bookmark points at.
pub fn url_of(raw: &str) -> (r: Option<String>)
    ensures
        match bookmark_url(raw@) {
            Some(u) => r matches Some(s) && s@ == u,
            None => r is None,
        },
{
    let t = chars_of(raw);
    let ranges = line_ranges(&t);
    let ghost ls = lines(t@);
    let mut i: usize = 0;
    while i < ranges.len()
        invariant
            spans(t@, ranges@) == ls,
            ls == lines(t@),
            t@ == raw@,
            ranges_within(ranges@, t@.len() as int),
            first_bracketed(ls, 0) == first_bracketed(ls, i as int),
        decreases ranges@.len() - i,
    {
        let (a, b) = ranges[i];
        assert(ranges@[i as int].0 <= ranges@[i as int].1 <= t@.len());
        assert(ls[i as int] == t@.subrange(a as int, b as int));
        let (x, y) = trim_range(&t, a, b);
        if y - x >= 2 && t[x] == '<' && t[y - 1] == '>' {
            let inner = slice_vec(&t, x + 1, y - 1);
            proof {
                let tr = trim(ls[i as int]);
                assert(tr =~= t@.subrange(x as int, y as int));
                assert(tr[0] == t@[x as int]);
                assert(tr.last() == t@[y - 1]);
                assert(inner@ =~= tr.subrange(1, tr.len() - 1));
                assert(bracketed(ls[i as int]) == Some(inner@));
                assert(first_bracketed(ls, i as int) == Some(inner@));
            }
            let sep = chars_of("://");
            if contains_chars(&inner, &sep) {
                return Some(string_of(&inner));
            }
            return None;
        }
        proof {
            let tr = trim(ls[i as int]);
            assert(tr =~= t@.subrange(x as int, y as int));
            if tr.len() >= 2 {
                assert(tr[0] == t@[x as int]);
                assert(tr.last() == t@[y - 1]);
            }
        }
        i += 1;
    }
    None
}

// ───────────────────────── a new bookmark ─────────────────────────

/// The title a new bookmark takes: the one given, else the fetched page's,
/// else the URL itself.
pub open spec fn chosen_title(spec: NewBookmark, source: Option<Seq<char>>) -> Seq<char> {
    match spec.title {
        Some(t) => t@,
        None => match source {
            Some(html) => match title_of(html) {
                Some(t) => t,
                None => spec.url@,
            },
            None => spec.url@,
        },
    }
}

/// The title a new bookmark takes, given the page fetched for it, if any.
pub fn bookmark_title(spec: &NewBookmark, source: Option<&str>) -> (r: String)
    ensures
        r@ == chosen_title(
            *spec,
            match source {
                Some(h) => Some(h@),
                None => None,
            },
        ),
{
    match &spec.title {
        Some(t) => crate::text::copy_string(t),
        None => {
            let page = match source {
                Some(h) => html_title(h),
                None => None,
            };
            match page {
                Some(t) => t,
                None => crate::text::copy_string(&spec.url),
            }
        },
    }
}

/// `str::trim_end_matches` with a text pattern: every trailing copy of
/// `suffix` removed.
pub open spec fn trim_suffixes(s: Seq<char>, suffix: Seq<char>) -> Seq<char>
    decreases s.len(),
{
    if suffix.len() > 0 && suffix.is_suffix_of(s) {
        trim_suffixes(s.take(s.len() - suffix.len()), suffix)
    } else {
        s
    }
}

fn trim_suffixes_exec(s: &[char], suffix: &[char]) -> (r: Vec<char>)
    ensures
        r@ == trim_suffixes(s@, suffix@),
{
    let mut cur: Vec<char> = slice_vec(s, 0, s.len());
    assert(cur@ =~= s@);
    if suffix.len() == 0 {
        return cur;
    }
    while ends_with(&cur, suffix)
        invariant
            suffix@.len() > 0,
            trim_suffixes(cur@, suffix@) == trim_suffixes(s@, suffix@),
        decreases cur@.len(),
    {
        let n = cur.len() - suffix.len();
        cur = slice_vec(&cur, 0, n);
    }
    cur
}

/// The stem of a new bookmark's file: the name given, less any `.md` and
/// then any `.bookmark` endings, or the timestamp stem.
pub open spec fn bookmark_stem_text(filename: Option<Seq<char>>, stamp_stem: Seq<char>) -> Seq<char> {
    match filename {
        Some(n) => trim_suffixes(trim_suffixes(n, ".md"@), ".bookmark"@),
        None => stamp_stem,
    }
}

/// The stem of a new bookmark's file.
pub fn bookmark_stem(filename: Option<&str>, stamp_stem: &str) -> (r: String)
    ensures
        r@ == bookmark_stem_text(
            match filename {
                Some(n) => Some(n@),
                None => None,
            },
            stamp_stem@,
        ),
{
    match filename {
        Some(n) => {
            let a = trim_suffixes_exec(&chars_of(n), &chars_of(".md"));
            let b = trim_suffixes_exec(&a, &chars_of(".bookmark"));
            string_of(&b)
        },
        None => stamp_stem.to_owned(),
    }
}

/// The text of a new bookmark: frontmatter typed `Bookmark`, tagged
/// `bookmark` when no tags are given, then `nb`'s body.
pub open spec fn new_bookmark_text(spec: NewBookmark, title: Seq<char>, stamp: Seq<char>) -> Seq<char> {
    crate::frontmatter::block_text(
        "Bookmark"@,
        heading_text(spec.url@, title),
        if spec.tags.len() == 0 {
            seq!["bookmark"@]
        } else {
            texts(spec.tags@)
        },
        stamp,
    ) + "\n"@ + bookmark_text(spec, title)
}

/// The text of a new bookmark with `title`, stamped `stamp`.
pub fn bookmark_contents(spec: &NewBookmark, title: &str, stamp: &str) -> (r: String)
    ensures
        r@ == new_bookmark_text(*spec, title@, stamp@),
{
    let default_tags = vec!["bookmark".to_owned()];
    assert(texts(default_tags@) =~= seq!["bookmark"@]);
    let tags: &[String] = if spec.tags.len() == 0 {
        default_tags.as_slice()
    } else {
        spec.tags.as_slice()
    };
    let head = heading(spec, title);
    let block = crate::frontmatter::render_block("Bookmark", head.as_str(), tags, stamp);
    let body = render(spec, title);
    let mut out: Vec<char> = Vec::new();
    extend_str(&mut out, block.as_str());
    out.push('\n');
    extend_str(&mut out, body.as_str());
    proof {
        reveal_strlit("\n");
    }
    assert(out@ =~= new_bookmark_text(*spec, title@, stamp@));
    string_of(&out)
}

} // verus!
