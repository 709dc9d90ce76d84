//! Colour themes.
//!
//! A theme is a pair of 256-colour indices: `primary` for the things you scan
//! for (paths, notebook names) and `secondary` for supporting detail. The names
//! and values are `nb`'s, so `color_theme` means the same thing in both tools.

use vstd::prelude::*;

use crate::text::{
    chars_eq, chars_of, decimal, decimal_chars, extend_chars, extend_str, lower, parse_unsigned,
    parse_unsigned_exec, string_of, to_lower, trim, trim_chars,
};

verus! {

/// A theme: the two colour indices it sets.
#[derive(Debug, Clone, Copy, PartialEq, Eq)]
pub struct Theme {
    pub name: &'static str,
    pub primary: u8,
    pub secondary: u8,
}

/// `nb`'s own default colours.
pub open spec fn nb_theme() -> Theme {
    Theme { name: "nb", primary: 69, secondary: 8 }
}

/// The built-in themes in the order `settings colors themes` lists them.
pub open spec fn listed_themes() -> Seq<Theme> {
    seq![
        Theme { name: "blacklight", primary: 39, secondary: 56 },
        Theme { name: "console", primary: 40, secondary: 28 },
        Theme { name: "desert", primary: 179, secondary: 95 },
        Theme { name: "electro", primary: 200, secondary: 62 },
        Theme { name: "forest", primary: 29, secondary: 59 },
        nb_theme(),
        Theme { name: "ocean", primary: 75, secondary: 26 },
        Theme { name: "raspberry", primary: 162, secondary: 90 },
        Theme { name: "smoke", primary: 248, secondary: 241 },
        Theme { name: "unicorn", primary: 183, secondary: 153 },
        Theme { name: "utility", primary: 227, secondary: 8 },
    ]
}

/// Themes `nb` understands but does not advertise.
pub open spec fn unlisted_themes() -> Seq<Theme> {
    seq![
        Theme { name: "lavender", primary: 183, secondary: 61 },
        Theme { name: "mage", primary: 199, secondary: 55 },
        Theme { name: "mint", primary: 43, secondary: 60 },
        Theme { name: "monochrome", primary: 248, secondary: 241 },
    ]
}

/// The first theme from `i` on whose name is `key`.
pub open spec fn first_named(themes: Seq<Theme>, key: Seq<char>, i: int) -> Option<Theme>
    decreases themes.len() - i,
{
    if i < 0 || i >= themes.len() {
        None
    } else if themes[i].name@ == key {
        Some(themes[i])
    } else {
        first_named(themes, key, i + 1)
    }
}

/// The theme a configured name selects: trimmed, in any case, listed or not.
pub open spec fn theme_named(name: Seq<char>) -> Option<Theme> {
    first_named(listed_themes() + unlisted_themes(), lower(trim(name)), 0)
}

/// The theme used when nothing is configured — `nb`'s own default colours.
pub fn default_theme() -> (r: Theme)
    ensures
        r == nb_theme(),
{
    Theme { name: "nb", primary: 69, secondary: 8 }
}

/// Every built-in theme, in the order `settings colors themes` lists them.
///
/// `lavender`, `mage`, `mint`, and `monochrome` are defined in `nb` but absent
/// from its own listing; they are accepted here and left out of the list for the
/// same reason.
pub fn themes() -> (r: Vec<Theme>)
    ensures
        r@ == listed_themes(),
{
    let mut v: Vec<Theme> = Vec::new();
    v.push(Theme { name: "blacklight", primary: 39, secondary: 56 });
    v.push(Theme { name: "console", primary: 40, secondary: 28 });
    v.push(Theme { name: "desert", primary: 179, secondary: 95 });
    v.push(Theme { name: "electro", primary: 200, secondary: 62 });
    v.push(Theme { name: "forest", primary: 29, secondary: 59 });
    v.push(default_theme());
    v.push(Theme { name: "ocean", primary: 75, secondary: 26 });
    v.push(Theme { name: "raspberry", primary: 162, secondary: 90 });
    v.push(Theme { name: "smoke", primary: 248, secondary: 241 });
    v.push(Theme { name: "unicorn", primary: 183, secondary: 153 });
    v.push(Theme { name: "utility", primary: 227, secondary: 8 });
    assert(v@ =~= listed_themes());
    v
}

fn all_themes() -> (r: Vec<Theme>)
    ensures
        r@ == listed_themes() + unlisted_themes(),
{
    let mut v = themes();
    v.push(Theme { name: "lavender", primary: 183, secondary: 61 });
    v.push(Theme { name: "mage", primary: 199, secondary: 55 });
    v.push(Theme { name: "mint", primary: 43, secondary: 60 });
    v.push(Theme { name: "monochrome", primary: 248, secondary: 241 });
    assert(v@ =~= listed_themes() + unlisted_themes());
    v
}

impl Theme {
    pub fn by_name(name: &str) -> (r: Option<Theme>)
        ensures
            r == theme_named(name@),
    {
        let key = to_lower(&trim_chars(&chars_of(name)));
        let all = all_themes();
        let mut i: usize = 0;
        while i < all.len()
            invariant
                all@ == listed_themes() + unlisted_themes(),
                key@ == lower(trim(name@)),
                i <= all@.len(),
                theme_named(name@) == first_named(all@, key@, i as int),
            decreases all@.len() - i,
        {
            let t = all[i];
            if chars_eq(&key, &chars_of(t.name)) {
                return Some(t);
            }
            i += 1;
        }
        None
    }
}

/// A configured colour: a number from 0 to 255, surrounding whitespace
/// ignored.
pub open spec fn colour_of(value: Seq<char>) -> Option<u8> {
    match parse_unsigned(trim(value), 255) {
        Some(n) => Some(n as u8),
        None => None,
    }
}

fn parse_colour(value: &str) -> (r: Option<u8>)
    ensures
        r == colour_of(value@),
{
    match parse_unsigned_exec(&trim_chars(&chars_of(value)), 255) {
        Some(n) => Some(n as u8),
        None => None,
    }
}

pub open spec fn opt_chars(v: Option<&str>) -> Option<Seq<char>> {
    match v {
        Some(s) => Some(s@),
        None => None,
    }
}

/// The active theme: the named one (the default when none is named or the
/// name is unknown), with each colour that parses overriding its own slot.
pub open spec fn resolved(
    theme_name: Option<Seq<char>>,
    primary: Option<Seq<char>>,
    secondary: Option<Seq<char>>,
) -> Theme {
    let base = match theme_name {
        Some(n) => match theme_named(n) {
            Some(t) => t,
            None => nb_theme(),
        },
        None => nb_theme(),
    };
    let p = match primary {
        Some(v) => match colour_of(v) {
            Some(c) => c,
            None => base.primary,
        },
        None => base.primary,
    };
    let s = match secondary {
        Some(v) => match colour_of(v) {
            Some(c) => c,
            None => base.secondary,
        },
        None => base.secondary,
    };
    Theme { name: base.name, primary: p, secondary: s }
}

/// Resolve the active theme and any per-colour overrides.
///
/// `color_primary` and `color_secondary` win over the theme, so a theme can be
/// adopted and then adjusted — the same layering `nb` uses.
pub fn resolve(theme_name: Option<&str>, primary: Option<&str>, secondary: Option<&str>) -> (r:
    Theme)
    ensures
        r == resolved(opt_chars(theme_name), opt_chars(primary), opt_chars(secondary)),
{
    let mut theme = match theme_name {
        Some(n) => match Theme::by_name(n) {
            Some(t) => t,
            None => default_theme(),
        },
        None => default_theme(),
    };
    match primary {
        Some(v) => match parse_colour(v) {
            Some(c) => {
                theme.primary = c;
            },
            None => {},
        },
        None => {},
    }
    match secondary {
        Some(v) => match parse_colour(v) {
            Some(c) => {
                theme.secondary = c;
            },
            None => {},
        },
        None => {},
    }
    theme
}

/// The escape selecting a 256-colour foreground.
pub open spec fn foreground_text(colour: u8) -> Seq<char> {
    "\u{1b}[38;5;"@ + decimal(colour as nat) + seq!['m']
}

/// The ANSI escape that selects a 256-colour foreground.
pub fn foreground(colour: u8) -> (r: String)
    ensures
        r@ == foreground_text(colour),
{
    let mut out: Vec<char> = Vec::new();
    extend_str(&mut out, "\u{1b}[38;5;");
    extend_chars(&mut out, &decimal_chars(colour as u64));
    out.push('m');
    string_of(&out)
}

/// `{:>4}`: right-aligned in four columns.
pub open spec fn pad4(d: Seq<char>) -> Seq<char> {
    if d.len() >= 4 {
        d
    } else {
        Seq::new((4 - d.len()) as nat, |i: int| ' ') + d
    }
}

/// One palette swatch: the colour's number in its colour, a newline after
/// every sixteenth.
pub open spec fn swatch(colour: u8) -> Seq<char> {
    foreground_text(colour) + pad4(decimal(colour as nat)) + "\u{1b}[0m"@ + if colour % 16 == 15 {
        seq!['\n']
    } else {
        seq![]
    }
}

/// The swatches of the first `n` colours.
pub open spec fn swatches(n: nat) -> Seq<char>
    decreases n,
{
    if n == 0 {
        seq![]
    } else {
        swatches((n - 1) as nat) + swatch((n - 1) as u8)
    }
}

proof fn lemma_decimal_byte(n: nat)
    requires
        n < 256,
    ensures
        decimal(n).len() <= 3,
{
    let a = n / 10;
    let b = a / 10;
    assert(b < 10);
    assert(decimal(b).len() == 1);
    if n >= 10 {
        if a >= 10 {
            assert(decimal(a) == decimal(b).push(crate::text::digit_char(a % 10)));
            assert(decimal(a).len() == 2);
        } else {
            assert(decimal(a).len() == 1);
        }
        assert(decimal(n) == decimal(a).push(crate::text::digit_char(n % 10)));
    }
}

/// The 256-colour palette, as `settings colors` prints it.
pub fn palette() -> (r: String)
    ensures
        r@ == swatches(256),
{
    let mut out: Vec<char> = Vec::new();
    let mut c: u16 = 0;
    while c < 256
        invariant
            c <= 256,
            out@ == swatches(c as nat),
        decreases 256 - c,
    {
        let colour = c as u8;
        let ghost before = out@;
        extend_str(&mut out, foreground(colour).as_str());
        let digits = decimal_chars(colour as u64);
        proof {
            lemma_decimal_byte(colour as nat);
        }
        let mut pad = digits.len();
        while pad < 4
            invariant
                digits@ == decimal(colour as nat),
                digits@.len() <= pad <= 4,
                out@ == before + foreground_text(colour) + Seq::new(
                    (pad - digits@.len()) as nat,
                    |i: int| ' ',
                ),
            decreases 4 - pad,
        {
            out.push(' ');
            pad += 1;
            assert(out@ =~= before + foreground_text(colour) + Seq::new(
                (pad - digits@.len()) as nat,
                |i: int| ' ',
            ));
        }
        extend_chars(&mut out, &digits);
        extend_str(&mut out, "\u{1b}[0m");
        if colour % 16 == 15 {
            out.push('\n');
        }
        assert(out@ =~= before + swatch(colour));
        c += 1;
    }
    string_of(&out)
}

} // verus!
