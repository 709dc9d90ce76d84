//! Format conversion and browser bookmark import.
//!
//! Conversion is delegated to `pandoc` when it is installed; running it is the
//! caller's part. Reading a browser's bookmark export is done here.

use vstd::prelude::*;

use crate::paths::{extension, extension_of};
use crate::text::{
    chars_of, contains, contains_chars, find, find_char, find_char_from, find_chars, find_from, occurs_at,
    is_whitespace, is_ws, lead_ws, lemma_find_char_facts, lemma_find_from_facts, lower, replace,
    replace_chars, skip_ws, slice_vec, string_of, to_lower, trim, trim_chars,
};

verus! {

/// Extensions worth converting to Markdown.
pub open spec fn convertible_ext(e: Seq<char>) -> bool {
    ||| e == "html"@
    ||| e == "htm"@
    ||| e == "docx"@
    ||| e == "odt"@
    ||| e == "epub"@
    ||| e == "rst"@
    ||| e == "textile"@
    ||| e == "org"@
    ||| e == "tex"@
}

/// Whether a path looks like something worth converting to Markdown: its
/// extension, in any case, is one pandoc reads.
pub fn is_convertible(path: &str) -> (r: bool)
    ensures
        r == match extension(path@) {
            Some(e) => convertible_ext(lower(e)),
            None => false,
        },
{
    match extension_of(&chars_of(path)) {
        Some(e) => {
            let l = to_lower(&e);
            let s = string_of(&l);
            let t = s.as_str();
            crate::text::str_eq(t, "html") || crate::text::str_eq(t, "htm")
                || crate::text::str_eq(t, "docx") || crate::text::str_eq(t, "odt")
                || crate::text::str_eq(t, "epub") || crate::text::str_eq(t, "rst")
                || crate::text::str_eq(t, "textile") || crate::text::str_eq(t, "org")
                || crate::text::str_eq(t, "tex")
        },
        None => false,
    }
}

/// A bookmark read out of a browser export.
#[derive(Debug, Clone, PartialEq, Eq)]
pub struct ImportedBookmark {
    pub title: String,
    pub url: String,
}

/// The entities an export escapes, decoded.
pub open spec fn decoded(t: Seq<char>) -> Seq<char> {
    replace(
        replace(
            replace(replace(replace(replace(t, "&amp;"@, "&"@), "&lt;"@, "<"@), "&gt;"@, ">"@), "&quot;"@, "\""@),
            "&#39;"@,
            "'"@,
        ),
        "&apos;"@,
        "'"@,
    )
}

fn decode_entities(t: &[char]) -> (r: Vec<char>)
    ensures
        r@ == decoded(t@),
{
    proof {
        reveal_strlit("&amp;");
        reveal_strlit("&lt;");
        reveal_strlit("&gt;");
        reveal_strlit("&quot;");
        reveal_strlit("&#39;");
        reveal_strlit("&apos;");
    }
    let a = replace_chars(t, &chars_of("&amp;"), &chars_of("&"));
    let b = replace_chars(&a, &chars_of("&lt;"), &chars_of("<"));
    let c = replace_chars(&b, &chars_of("&gt;"), &chars_of(">"));
    let d = replace_chars(&c, &chars_of("&quot;"), &chars_of("\""));
    let e = replace_chars(&d, &chars_of("&#39;"), &chars_of("'"));
    replace_chars(&e, &chars_of("&apos;"), &chars_of("'"))
}

/// The characters of `s` outside `<…>` tags, given whether `s` starts
/// inside one.
pub open spec fn outside_tags(s: Seq<char>, inside: bool) -> Seq<char>
    decreases s.len(),
{
    if s.len() == 0 {
        seq![]
    } else if s[0] == '<' {
        outside_tags(s.drop_first(), true)
    } else if s[0] == '>' {
        outside_tags(s.drop_first(), false)
    } else if !inside {
        seq![s[0]] + outside_tags(s.drop_first(), inside)
    } else {
        outside_tags(s.drop_first(), inside)
    }
}

/// Markup dropped, whitespace trimmed, entities decoded.
pub open spec fn stripped(s: Seq<char>) -> Seq<char> {
    decoded(trim(outside_tags(s, false)))
}

fn strip_tags(s: &[char]) -> (r: Vec<char>)
    ensures
        r@ == stripped(s@),
{
    let mut out: Vec<char> = Vec::new();
    let mut inside = false;
    assert(s@.skip(0) =~= s@);
    for i in 0..s.len()
        invariant
            out@ + outside_tags(s@.skip(i as int), inside) == outside_tags(s@, false),
    {
        assert(s@.skip(i as int).drop_first() =~= s@.skip(i + 1));
        assert(s@.skip(i as int)[0] == s@[i as int]);
        let c = s[i];
        if c == '<' {
            inside = true;
        } else if c == '>' {
            inside = false;
        } else if !inside {
            out.push(c);
            assert(out@ + outside_tags(s@.skip(i + 1), inside) =~= out@.drop_last() + (seq![c]
                + outside_tags(s@.skip(i + 1), inside)));
        }
    }
    assert(outside_tags(s@.skip(s@.len() as int), inside) =~= Seq::<char>::empty());
    assert(out@ =~= outside_tags(s@, false));
    decode_entities(&trim_chars(&out))
}

/// Where the first whitespace at or after `i` stands, or the end.
pub open spec fn ws_at(t: Seq<char>, i: int) -> int
    decreases t.len() - i,
{
    if i < 0 || i >= t.len() {
        t.len() as int
    } else if is_ws(t[i]) {
        i
    } else {
        ws_at(t, i + 1)
    }
}

/// `split_whitespace().next()`: the first word.
pub open spec fn first_word(s: Seq<char>) -> Option<Seq<char>> {
    let t = s.skip(lead_ws(s) as int);
    if t.len() == 0 {
        None
    } else {
        Some(t.take(ws_at(t, 0)))
    }
}

proof fn lemma_ws_at(t: Seq<char>, i: int)
    requires
        0 <= i <= t.len(),
    ensures
        i <= ws_at(t, i) <= t.len(),
    decreases t.len() - i,
{
    if i < t.len() && !is_ws(t[i]) {
        lemma_ws_at(t, i + 1);
    }
}

/// The value of attribute `name` in a tag, quoted or not, entities decoded.
pub open spec fn attribute_value(tag: Seq<char>, name: Seq<char>) -> Option<Seq<char>> {
    match find(lower(tag), name + "="@) {
        None => None,
        Some(k) => {
            let rest = tag.skip(k + name.len() + 1);
            if rest.len() == 0 {
                None
            } else if rest[0] == '"' || rest[0] == '\'' {
                let inner = rest.drop_first();
                Some(
                    decoded(
                        match find_char_from(inner, rest[0], 0) {
                            Some(j) => inner.take(j),
                            None => inner,
                        },
                    ),
                )
            } else {
                match first_word(rest) {
                    Some(w) => Some(decoded(w)),
                    None => None,
                }
            }
        },
    }
}

fn attribute(tag: &[char], name: &str) -> (r: Option<Vec<char>>)
    ensures
        match attribute_value(tag@, name@) {
            Some(v) => r matches Some(x) && x@ == v,
            None => r is None,
        },
{
    let lt = to_lower(tag);
    let mut pat = chars_of(name);
    pat.push('=');
    proof {
        reveal_strlit("=");
        assert(pat@ =~= name@ + "="@);
    }
    let found = find_chars(&lt, &pat, 0);
    proof {
        lemma_find_from_facts(lt@, pat@, 0);
    }
    let k = match found {
        Some(k) => k,
        None => return None,
    };
    assert(find_from(lt@, pat@, 0) == Some(k as int));
    assert(occurs_at(lt@, pat@, k as int));
    assert(lt@.len() == tag@.len());
    let n = lt.len();
    assert(k + pat@.len() <= n);
    let at = k + pat.len();
    let rest = slice_vec(tag, at, tag.len());
    assert(rest@ =~= tag@.skip(k + name@.len() + 1));
    if rest.len() == 0 {
        return None;
    }
    let q = rest[0];
    if q == '"' || q == '\'' {
        let inner = slice_vec(&rest, 1, rest.len());
        assert(inner@ =~= rest@.drop_first());
        let v = match find_char(&inner, q, 0) {
            Some(j) => {
                proof {
                    lemma_find_char_facts(inner@, q, 0);
                }
                slice_vec(&inner, 0, j)
            },
            None => inner,
        };
        Some(decode_entities(&v))
    } else {
        let s = skip_ws(&rest, 0, rest.len());
        assert(rest@.subrange(0, rest@.len() as int) =~= rest@);
        if s == rest.len() {
            return None;
        }
        let t = slice_vec(&rest, s, rest.len());
        assert(t@ =~= rest@.skip(lead_ws(rest@) as int));
        let mut e: usize = 0;
        while e < t.len() && !is_whitespace(t[e])
            invariant
                e <= t@.len(),
                ws_at(t@, 0) == ws_at(t@, e as int),
            decreases t@.len() - e,
        {
            e += 1;
        }
        let w = slice_vec(&t, 0, e);
        Some(decode_entities(&w))
    }
}

/// The bookmarks of a Netscape-format export, reading on from `cursor`:
/// each `<a …>` tag whose `href` holds `://`, titled by the text up to its
/// `</a>` (the URL when that text is empty).
pub open spec fn bookmarks_from(h: Seq<char>, cursor: int) -> Seq<(Seq<char>, Seq<char>)>
    decreases h.len() - cursor,
{
    let l = lower(h);
    if cursor < 0 || cursor > h.len() {
        seq![]
    } else {
        match find_from(l, "<a "@, cursor) {
            None => seq![],
            Some(start) => match find_char_from(l, '>', start) {
                None => seq![],
                Some(tag_end) => if tag_end < cursor || tag_end >= h.len() {
                    seq![]
                } else {
                    let next = tag_end + 1;
                    match attribute_value(h.subrange(start, tag_end), "href"@) {
                        None => bookmarks_from(h, next),
                        Some(url) => if !contains(url, "://"@) {
                            bookmarks_from(h, next)
                        } else {
                            match find_from(l, "</a>"@, next) {
                                None => bookmarks_from(h, next),
                                Some(close) => if close < next || close + 4 > h.len() {
                                    seq![]
                                } else {
                                    let title = stripped(h.subrange(next, close));
                                    seq![
                                        (if title.len() == 0 {
                                            url
                                        } else {
                                            title
                                        }, url),
                                    ] + bookmarks_from(h, close + 4)
                                },
                            }
                        },
                    }
                },
            },
        }
    }
}

pub open spec fn imported_view(v: Seq<ImportedBookmark>) -> Seq<(Seq<char>, Seq<char>)> {
    v.map_values(|b: ImportedBookmark| (b.title@, b.url@))
}

/// Extract bookmarks from a Netscape-format export file.
///
/// Chrome, Firefox, and Edge all export this same shape: `<A HREF="…">title</A>`
/// inside a nested list. Only those two pieces matter, so this scans for the
/// anchors rather than parsing the whole document.
pub fn parse_bookmarks(html: &str) -> (r: Vec<ImportedBookmark>)
    ensures
        imported_view(r@) == bookmarks_from(html@, 0),
{
    let h = chars_of(html);
    let l = to_lower(&h);
    let open_pat = chars_of("<a ");
    let close_pat = chars_of("</a>");
    let scheme = chars_of("://");
    proof {
        reveal_strlit("</a>");
    }
    let mut found: Vec<ImportedBookmark> = Vec::new();
    let mut cursor: usize = 0;
    loop
        invariant
            h@ == html@,
            l@ == lower(h@),
            l@.len() == h@.len(),
            open_pat@ == "<a "@,
            close_pat@ == "</a>"@,
            scheme@ == "://"@,
            cursor <= h@.len(),
            imported_view(found@) + bookmarks_from(h@, cursor as int) == bookmarks_from(h@, 0),
        ensures
            imported_view(found@) == bookmarks_from(h@, 0),
        decreases h@.len() - cursor,
    {
        proof {
            reveal_strlit("</a>");
            reveal_strlit("<a ");
        }
        let ghost before = imported_view(found@);
        let start = match find_chars(&l, &open_pat, cursor) {
            Some(s) => s,
            None => {
                assert(bookmarks_from(h@, cursor as int) =~= Seq::<(Seq<char>, Seq<char>)>::empty());
                assert(imported_view(found@) =~= before + Seq::<(Seq<char>, Seq<char>)>::empty());
                assert(imported_view(found@) == bookmarks_from(h@, 0));
                break;
            },
        };
        proof {
            lemma_find_from_facts(l@, open_pat@, cursor as int);
            lemma_find_char_facts(l@, '>', start as int);
        }
        let tag_end = match find_char(&l, '>', start) {
            Some(e) => e,
            None => {
                assert(bookmarks_from(h@, cursor as int) =~= Seq::<(Seq<char>, Seq<char>)>::empty());
                assert(imported_view(found@) =~= before + Seq::<(Seq<char>, Seq<char>)>::empty());
                assert(imported_view(found@) == bookmarks_from(h@, 0));
                break;
            },
        };
        assert(tag_end < h@.len());
        let next = tag_end + 1;
        let tag = slice_vec(&h, start, tag_end);
        match attribute(&tag, "href") {
            None => {
                cursor = next;
            },
            Some(url) => {
                if !contains_chars(&url, &scheme) {
                    cursor = next;
                } else {
                    proof {
                        lemma_find_from_facts(l@, close_pat@, next as int);
                    }
                    match find_chars(&l, &close_pat, next) {
                        None => {
                            cursor = next;
                        },
                        Some(close) => {
                            let title = strip_tags(&slice_vec(&h, next, close));
                            let t = if title.len() == 0 {
                                string_of(&url)
                            } else {
                                string_of(&title)
                            };
                            let b = ImportedBookmark { title: t, url: string_of(&url) };
                            let ghost item = (b.title@, b.url@);
                            found.push(b);
                            assert(imported_view(found@) =~= before.push(item));
                            assert(before.push(item) + bookmarks_from(h@, close + 4) =~= before + (
                            seq![item] + bookmarks_from(h@, close + 4)));
                            cursor = close + 4;
                        },
                    }
                }
            },
        }
    }
    found
}

} // verus!
