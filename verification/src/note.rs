//! The `Note` type and the rules for deriving its metadata.

use vstd::prelude::*;

use crate::text::texts;

use crate::frontmatter::{split_spec, Document, FrontmatterView};
use crate::paths::{file_stem, file_stem_of};
use crate::text::{
    chars_of, extend_chars, extend_str, eq_ignore_case, eq_ignore_case_exec, is_ascii_alnum,
    is_ascii_punct, is_digit, is_whitespace, is_ws, lead_count, lemma_counts, line_ranges, lines,
    lower_char, ranges_within, skip_ws, skip_ws_back, slice_vec, spans, starts_with, string_of,
    to_lower_char, trail_count, trim, trim_chars, trim_end, trim_matching, trim_matching_exec,
    trim_range, trim_start,
};

verus! {

// ───────────────────────── timestamps ─────────────────────────

/// A jiff `Zoned` datetime: an instant with a time zone.
#[verifier::external_type_specification]
#[verifier::external_body]
pub struct ExZoned(jiff::Zoned);

/// A point in time as the library reads it: the instant, for ordering, and
/// the renderings the notes and listings use.
#[derive(Debug, Clone)]
pub struct Stamp {
    /// Seconds since the Unix epoch.
    pub seconds: i64,
    /// Nanoseconds within the second.
    pub nanos: i32,
    /// `%Y-%m-%dT%H:%M:%S%:z`, as frontmatter stores it.
    pub iso: String,
    /// `%Y-%m-%d`, as listings show it.
    pub date: String,
    /// `%Y%m%d%H%M%S`, as new filenames carry it.
    pub compact: String,
}

impl Stamp {
    /// The stamp's contents as plain values.
    pub open spec fn parts(self) -> (i64, i32, Seq<char>, Seq<char>, Seq<char>) {
        (self.seconds, self.nanos, self.iso@, self.date@, self.compact@)
    }

    /// A copy of the stamp.
    pub fn duplicate(&self) -> (r: Stamp)
        ensures
            r.parts() == self.parts(),
    {
        Stamp {
            seconds: self.seconds,
            nanos: self.nanos,
            iso: crate::text::copy_string(&self.iso),
            date: crate::text::copy_string(&self.date),
            compact: crate::text::copy_string(&self.compact),
        }
    }
}

/// Whether `a` is strictly earlier than `b`.
pub open spec fn earlier(a: Stamp, b: Stamp) -> bool {
    a.seconds < b.seconds || (a.seconds == b.seconds && a.nanos < b.nanos)
}

pub fn is_earlier(a: &Stamp, b: &Stamp) -> (r: bool)
    ensures
        r == earlier(*a, *b),
{
    a.seconds < b.seconds || (a.seconds == b.seconds && a.nanos < b.nanos)
}

/// The instants jiff represents: whole seconds within `Timestamp::MIN` and
/// `Timestamp::MAX` (-9999-01-02T01:59:59Z to 9999-12-30T22:00:00Z), and a
/// fraction of a second that never reaches a whole second either way.
pub open spec fn instant_in_range(seconds: i64, nanos: i32) -> bool {
    &&& -377705023201 <= seconds <= 253402207200
    &&& -999_999_999 <= nanos <= 999_999_999
}

/// The characters of `s` from `from` up to `to` are ASCII digits.
pub open spec fn digits_between(s: Seq<char>, from: int, to: int) -> bool {
    forall|i: int| from <= i < to ==> is_digit(#[trigger] s[i])
}

/// What `%Y%m%d%H%M%S` prints: a year of at least four characters, then
/// month, day, hour, minute and second as two digits each.
pub open spec fn compact_shape(c: Seq<char>) -> bool {
    c.len() >= 14 && digits_between(c, c.len() - 10, c.len() as int)
}

/// What `%Y-%m-%d` prints: a year of at least four characters, then month
/// and day as two digits each, each after a dash.
pub open spec fn date_shape(d: Seq<char>) -> bool {
    &&& d.len() >= 10
    &&& d[d.len() - 6] == '-'
    &&& d[d.len() - 3] == '-'
    &&& digits_between(d, d.len() - 5, d.len() - 3)
    &&& digits_between(d, d.len() - 2, d.len() as int)
}

/// What the library holds of every stamp read from jiff.
pub open spec fn stamp_facts(s: Stamp) -> bool {
    &&& instant_in_range(s.seconds, s.nanos)
    &&& date_shape(s.date@)
    &&& compact_shape(s.compact@)
}

/// `Zoned::timestamp().as_second()`: the instant in whole seconds, which
/// jiff keeps within its supported range. Which second it is, is not stated.
#[verifier::external_body]
fn zoned_seconds(z: &jiff::Zoned) -> (r: i64)
    ensures
        -377705023201 <= r <= 253402207200,
{
    z.timestamp().as_second()
}

/// `Zoned::timestamp().subsec_nanosecond()`: the fraction of a second,
/// which jiff documents never reaches a whole second either way.
#[verifier::external_body]
fn zoned_nanos(z: &jiff::Zoned) -> (r: i32)
    ensures
        -999_999_999 <= r <= 999_999_999,
{
    z.timestamp().subsec_nanosecond()
}

/// `Zoned::strftime`, rendered to a `String`. jiff's directive table pads
/// `%Y` with zeros to four digits and `%m`, `%d`, `%H`, `%M`, `%S` to two,
/// which gives the shapes stated for the two formats the library uses; the
/// digits themselves, and any other format's text, are not stated.
#[verifier::external_body]
fn zoned_format(z: &jiff::Zoned, format: &str) -> (r: String)
    ensures
        format@ == "%Y%m%d%H%M%S"@ ==> compact_shape(r@),
        format@ == "%Y-%m-%d"@ ==> date_shape(r@),
{
    z.strftime(format).to_string()
}

impl Stamp {
    /// The library's view of a jiff datetime: its instant, and its
    /// renderings as frontmatter, listings and filenames use them.
    pub fn of(z: &jiff::Zoned) -> (r: Stamp)
        ensures
            stamp_facts(r),
    {
        Stamp {
            seconds: zoned_seconds(z),
            nanos: zoned_nanos(z),
            iso: zoned_format(z, "%Y-%m-%dT%H:%M:%S%:z"),
            date: zoned_format(z, "%Y-%m-%d"),
            compact: zoned_format(z, "%Y%m%d%H%M%S"),
        }
    }
}

impl Stamp {
    /// The library's view of a jiff datetime whose instant, in whole seconds,
    /// is already known.
    pub(crate) fn at(z: &jiff::Zoned, seconds: i64) -> (r: Stamp)
        requires
            -377705023201 <= seconds <= 253402207200,
        ensures
            r.seconds == seconds,
            stamp_facts(r),
    {
        Stamp {
            seconds,
            nanos: zoned_nanos(z),
            iso: zoned_format(z, "%Y-%m-%dT%H:%M:%S%:z"),
            date: zoned_format(z, "%Y-%m-%d"),
            compact: zoned_format(z, "%Y%m%d%H%M%S"),
        }
    }
}

/// Days from 1970-01-01 to a date of the proleptic Gregorian calendar.
pub open spec fn days_from_civil(year: int, month: int, day: int) -> int {
    let y = if month <= 2 { year - 1 } else { year };
    let era = y / 400;
    let yoe = y - era * 400;
    let mp = if month > 2 { month - 3 } else { month + 9 };
    let doy = (153 * mp + 2) / 5 + day - 1;
    let doe = yoe * 365 + yoe / 4 - yoe / 100 + doy;
    era * 146097 + doe - 719468
}

/// Seconds from the Unix epoch to a civil date and time read as UTC.
pub open spec fn naive_seconds(year: int, month: int, day: int, hour: int, minute: int, second: int) -> int {
    days_from_civil(year, month, day) * 86400 + hour * 3600 + minute * 60 + second
}

/// An instant, in whole seconds, that a civil time `naive` (read as UTC)
/// names in some time zone: zones are at most 25:59:59 away from UTC, and
/// whole seconds of an instant before the epoch count toward zero, which
/// may add one more.
pub open spec fn within_a_zone(seconds: int, naive: int) -> bool {
    naive - 93600 <= seconds <= naive + 93600
}

/// An instant, in whole seconds, that agrees with what `text` says as a
/// civil datetime or date: within a zone of the datetime, and on the date's
/// day give or take a zone.
pub open spec fn reads_as(seconds: int, text: Seq<char>) -> bool {
    &&& civil_datetime_of(text) matches Some(f) ==> within_a_zone(
        seconds,
        naive_seconds(f.0 as int, f.1 as int, f.2 as int, f.3 as int, f.4 as int, f.5 as int),
    )
    &&& civil_date_of(text) matches Some(d) ==> naive_seconds(d.0 as int, d.1 as int, d.2 as int, 0, 0, 0)
        - 93600 <= seconds <= naive_seconds(d.0 as int, d.1 as int, d.2 as int, 0, 0, 0) + 86399 + 93600
}

/// `text.parse::<Zoned>()`, with the instant in whole seconds. jiff reads
/// the same datetime grammar as for a civil `DateTime` or `Date` (both go
/// through `parse_temporal_datetime` and `into_full`) and places that civil
/// datetime with an offset of at most 25:59:59, so where the text also reads
/// as a civil datetime or date, the instant agrees with it. Which offset, and
/// so which instant, is not stated.
#[verifier::external_body]
fn parse_zoned(text: &str) -> (r: Option<(jiff::Zoned, i64)>)
    ensures
        r matches Some((_, s)) ==> -377705023201 <= s <= 253402207200 && reads_as(s as int, text@),
{
    match text.parse::<jiff::Zoned>() {
        Ok(z) => {
            let s = z.timestamp().as_second();
            Some((z, s))
        },
        Err(_) => None,
    }
}

/// What `text.parse::<civil::DateTime>()` reads: year, month, day, hour,
/// minute, second and nanosecond, or nothing when jiff refuses the text.
pub uninterp spec fn civil_datetime_of(text: Seq<char>) -> Option<(i16, i8, i8, i8, i8, i8, i32)>;

/// What `text.parse::<civil::Date>()` reads: year, month and day, or nothing
/// when jiff refuses the text.
pub uninterp spec fn civil_date_of(text: Seq<char>) -> Option<(i16, i8, i8)>;

/// `text.parse::<civil::DateTime>()`, taken apart into its fields. jiff's
/// parser depends on the text alone; the fields of a `DateTime` always make
/// a valid one, its nanosecond below a second. A civil `Date` is read from
/// the same parse (`to_date` beside `to_datetime`, which fail alike), so the
/// text reads as a date exactly when it reads as a datetime, and as that
/// datetime's date.
#[verifier::external_body]
fn parse_civil_datetime(text: &str) -> (r: Option<(i16, i8, i8, i8, i8, i8, i32)>)
    ensures
        r == civil_datetime_of(text@),
        r matches Some(f) ==> valid_civil(f.0, f.1, f.2, f.3, f.4, f.5) && 0 <= f.6 <= 999_999_999,
        r matches Some(f) ==> civil_date_of(text@) == Some((f.0, f.1, f.2)),
        r is None ==> civil_date_of(text@) is None,
{
    match text.parse::<jiff::civil::DateTime>() {
        Ok(dt) => Some(
            (dt.year(), dt.month(), dt.day(), dt.hour(), dt.minute(), dt.second(), dt.subsec_nanosecond()),
        ),
        Err(_) => None,
    }
}

/// `text.parse::<civil::Date>()`, taken apart into its fields. jiff's parser
/// depends on the text alone; the fields of a `Date` always make a valid
/// one.
#[verifier::external_body]
fn parse_civil_date(text: &str) -> (r: Option<(i16, i8, i8)>)
    ensures
        r == civil_date_of(text@),
        r matches Some(f) ==> valid_civil(f.0, f.1, f.2, 0, 0, 0),
{
    match text.parse::<jiff::civil::Date>() {
        Ok(d) => Some((d.year(), d.month(), d.day())),
        Err(_) => None,
    }
}

/// Text that reads as a civil datetime of the years -9998 to 9998, or that
/// reads as no civil datetime but as a civil date of those years: the system
/// time zone always places it.
pub open spec fn timestamp_owed(t: Seq<char>) -> bool {
    match civil_datetime_of(t) {
        Some(f) => -9998 <= f.0 <= 9998,
        None => civil_date_of(t) matches Some(d) && -9998 <= d.0 <= 9998,
    }
}

/// Parse an ISO 8601 timestamp, tolerating a date-only or timezone-less
/// value. Blank text is no timestamp; text jiff reads as a civil datetime or
/// date of an ordinary year always is one; which instant it is depends on
/// jiff and, for a value without a time zone, on the machine's time zone.
pub fn parse_timestamp(text: &str) -> (r: Option<Stamp>)
    ensures
        trim(text@).len() == 0 ==> r is None,
        trim(text@).len() > 0 && timestamp_owed(trim(text@)) ==> r is Some,
        r matches Some(t) ==> stamp_facts(t) && reads_as(t.seconds as int, trim(text@)),
{
    let t = string_of(&trim_chars(&chars_of(text)));
    if t.as_str().is_empty() {
        return None;
    }
    match parse_zoned(t.as_str()) {
        Some((z, s)) => return Some(Stamp::at(&z, s)),
        None => {},
    }
    match parse_civil_datetime(t.as_str()) {
        Some((y, mo, d, h, mi, sec, ns)) => {
            return match civil_here(y, mo, d, h, mi, sec, ns) {
                Some((z, s)) => Some(Stamp::at(&z, s)),
                None => None,
            };
        },
        None => {},
    }
    match parse_civil_date(t.as_str()) {
        Some((y, mo, d)) => match civil_here(y, mo, d, 0, 0, 0, 0) {
            Some((z, s)) => Some(Stamp::at(&z, s)),
            None => None,
        },
        None => None,
    }
}

/// Render a timestamp the way frontmatter stores it.
pub fn format_timestamp(ts: &Stamp) -> (r: String)
    ensures
        r@ == ts.iso@,
{
    crate::text::copy_string(&ts.iso)
}

/// A timestamp as a filename stem: `%Y%m%d%H%M%S`.
pub fn timestamp_stem(ts: &Stamp) -> (r: String)
    ensures
        r@ == ts.compact@,
{
    crate::text::copy_string(&ts.compact)
}

/// The number of days in a month of a year, in the proleptic Gregorian
/// calendar.
pub open spec fn days_in_month(year: int, month: int) -> int {
    if month == 2 {
        if (year % 4 == 0 && year % 100 != 0) || year % 400 == 0 {
            29
        } else {
            28
        }
    } else if month == 4 || month == 6 || month == 9 || month == 11 {
        30
    } else {
        31
    }
}

/// The fields `civil::DateTime::new` accepts.
pub open spec fn valid_civil(year: i16, month: i8, day: i8, hour: i8, minute: i8, second: i8) -> bool {
    &&& -9999 <= year <= 9999
    &&& 1 <= month <= 12
    &&& 1 <= day <= days_in_month(year as int, month as int)
    &&& 0 <= hour <= 23
    &&& 0 <= minute <= 59
    &&& 0 <= second <= 59
}

/// `civil::DateTime::new` placed in the system time zone (as `to_zoned`
/// does, with a date at midnight for `Date::to_zoned`). jiff documents that
/// `new` refuses exactly the components out of range, so a result means they
/// were valid; and that `to_zoned` fails only near the ends of the range it
/// represents (-9999-01-02T01:59:59Z to 9999-12-30T22:00:00Z), which no
/// offset (at most 25:59:59 either way) carries a datetime of the years
/// -9998 to 9998 across, so those always give a result. The result comes
/// with its instant in whole seconds: the civil time less the offset the
/// zone has there (the one before a gap, with the default disambiguation),
/// so within a zone of the civil time read as UTC. Which offset it is
/// depends on the machine's time zone and is not stated.
#[verifier::external_body]
fn civil_here(year: i16, month: i8, day: i8, hour: i8, minute: i8, second: i8, nanosecond: i32) -> (r: Option<
    (jiff::Zoned, i64),
>)
    ensures
        r is Some ==> valid_civil(year, month, day, hour, minute, second),
        valid_civil(year, month, day, hour, minute, second) && 0 <= nanosecond <= 999_999_999 && -9998
            <= year <= 9998 ==> r is Some,
        r matches Some((_, s)) ==> -377705023201 <= s <= 253402207200 && within_a_zone(
            s as int,
            naive_seconds(year as int, month as int, day as int, hour as int, minute as int, second as int),
        ),
{
    match jiff::civil::DateTime::new(year, month, day, hour, minute, second, nanosecond) {
        Ok(dt) => match dt.to_zoned(jiff::tz::TimeZone::system()) {
            Ok(z) => {
                let s = z.timestamp().as_second();
                Some((z, s))
            },
            Err(_) => None,
        },
        Err(_) => None,
    }
}

/// The run of ASCII digits that opens `s`.
pub open spec fn lead_digits(s: Seq<char>) -> nat
    decreases s.len(),
{
    if s.len() > 0 && is_digit(s[0]) {
        1 + lead_digits(s.drop_first())
    } else {
        0
    }
}

/// The value of the digits `s[a..b]`.
pub open spec fn number_in(s: Seq<char>, a: int, b: int) -> int {
    crate::text::digits_value(s.subrange(a, b)) as int
}

/// The civil fields an `nb`-style filename stem carries: fourteen digits for
/// a full timestamp, or eight for a date when the name breaks right after
/// them (at its end, or at `-` or `_`).
pub open spec fn filename_fields(stem: Seq<char>) -> Option<(int, int, int, int, int, int)> {
    let n = lead_digits(stem);
    if n == 14 {
        Some(
            (
                number_in(stem, 0, 4),
                number_in(stem, 4, 6),
                number_in(stem, 6, 8),
                number_in(stem, 8, 10),
                number_in(stem, 10, 12),
                number_in(stem, 12, 14),
            ),
        )
    } else if n == 8 && (stem.len() == 8 || stem[8] == '-' || stem[8] == '_') {
        Some((number_in(stem, 0, 4), number_in(stem, 4, 6), number_in(stem, 6, 8), 0, 0, 0))
    } else {
        None
    }
}

proof fn lemma_lead_digits(s: Seq<char>, i: int)
    requires
        0 <= i <= lead_digits(s),
    ensures
        lead_digits(s) <= s.len(),
        forall|j: int| 0 <= j < lead_digits(s) ==> is_digit(#[trigger] s[j]),
        lead_digits(s) < s.len() ==> !is_digit(s[lead_digits(s) as int]),
    decreases s.len(),
{
    if s.len() > 0 && is_digit(s[0]) {
        lemma_lead_digits(s.drop_first(), 0);
        assert forall|j: int| 0 <= j < lead_digits(s) implies is_digit(#[trigger] s[j]) by {
            if j > 0 {
                assert(s[j] == s.drop_first()[j - 1]);
            }
        }
    }
}

pub open spec fn pow10(n: nat) -> nat
    decreases n,
{
    if n == 0 {
        1
    } else {
        10 * pow10((n - 1) as nat)
    }
}

fn digits_number(s: &[char], a: usize, b: usize) -> (r: u32)
    requires
        a <= b <= s@.len(),
        b - a <= 4,
        forall|j: int| a <= j < b ==> is_digit(#[trigger] s@[j]),
    ensures
        r as int == number_in(s@, a as int, b as int),
        r < 10000,
{
    let mut v: u32 = 0;
    let mut i = a;
    while i < b
        invariant
            a <= i <= b <= s@.len(),
            b - a <= 4,
            forall|j: int| a <= j < b ==> is_digit(#[trigger] s@[j]),
            v as int == number_in(s@, a as int, i as int),
            v < pow10((i - a) as nat),
        decreases b - i,
    {
        assert(s@.subrange(a as int, i + 1).drop_last() =~= s@.subrange(a as int, i as int));
        assert(s@.subrange(a as int, i + 1).last() == s@[i as int]);
        assert(is_digit(s@[i as int]));
        let d = (s[i] as u32) - 48;
        proof {
            reveal_with_fuel(pow10, 5);
            assert(pow10((i - a) as nat) <= 1000);
            assert(pow10((i + 1 - a) as nat) == 10 * pow10((i - a) as nat));
        }
        v = v * 10 + d;
        i += 1;
    }
    proof {
        reveal_with_fuel(pow10, 5);
    }
    v
}

/// The filename carries a real date and time of the years 0 to 9998, which
/// the system time zone always places.
pub open spec fn filename_dated(path: Seq<char>) -> bool {
    file_stem(path) matches Some(stem) && (filename_fields(stem) matches Some((y, mo, d, h, mi, s))
        && 0 <= y <= 9998 && 1 <= mo <= 12 && 1 <= d <= days_in_month(y, mo) && 0 <= h <= 23 && 0
        <= mi <= 59 && 0 <= s <= 59)
}

/// An instant, in whole seconds, that the civil time a filename carries
/// names in some time zone.
pub open spec fn from_filename(seconds: int, path: Seq<char>) -> bool {
    file_stem(path) matches Some(stem) && (filename_fields(stem) matches Some((y, mo, d, h, mi, s))
        && within_a_zone(seconds, naive_seconds(y, mo, d, h, mi, s)))
}

/// Recover a creation time from an `nb`-style filename.
///
/// `nb` named notes after their creation time, so two thirds of the existing
/// notes carry their date in the filename and nowhere else. Both the full
/// `20260108203523` form and a `20260720-some-title` date prefix are
/// recognised; the fields must make a real date and time.
pub fn timestamp_from_filename(path: &str) -> (r: Option<Stamp>)
    ensures
        r is Some ==> (file_stem(path@) matches Some(stem) && (filename_fields(stem) matches Some(
            (y, mo, d, h, mi, s),
        ) && -9999 <= y <= 9999 && 1 <= mo <= 12 && 1 <= d <= days_in_month(y, mo) && 0 <= h
            <= 23 && 0 <= mi <= 59 && 0 <= s <= 59)),
        file_stem(path@) is None ==> r is None,
        (file_stem(path@) matches Some(stem) && filename_fields(stem) is None) ==> r is None,
        filename_dated(path@) ==> r is Some,
        r matches Some(t) ==> stamp_facts(t) && from_filename(t.seconds as int, path@),
{
    let stem = match file_stem_of(&chars_of(path)) {
        Some(s) => s,
        None => return None,
    };
    let mut n: usize = 0;
    assert(stem@.skip(0) =~= stem@);
    while n < stem.len() && '0' <= stem[n] && stem[n] <= '9'
        invariant
            n <= stem@.len(),
            lead_digits(stem@) == n + lead_digits(stem@.skip(n as int)),
        decreases stem@.len() - n,
    {
        assert(stem@.skip(n as int).drop_first() =~= stem@.skip(n + 1));
        n += 1;
    }
    assert(lead_digits(stem@.skip(n as int)) == 0);
    proof {
        lemma_lead_digits(stem@, 0);
    }
    let fields = if n == 14 {
        (
            digits_number(&stem, 0, 4),
            digits_number(&stem, 4, 6),
            digits_number(&stem, 6, 8),
            digits_number(&stem, 8, 10),
            digits_number(&stem, 10, 12),
            digits_number(&stem, 12, 14),
        )
    } else if n == 8 && (stem.len() == 8 || stem[8] == '-' || stem[8] == '_') {
        (
            digits_number(&stem, 0, 4),
            digits_number(&stem, 4, 6),
            digits_number(&stem, 6, 8),
            0,
            0,
            0,
        )
    } else {
        return None;
    };
    let (y, mo, d, h, mi, s) = fields;
    if mo > 127 || d > 127 || h > 127 || mi > 127 || s > 127 {
        return None;
    }
    match civil_here(y as i16, mo as i8, d as i8, h as i8, mi as i8, s as i8, 0) {
        Some((z, secs)) => Some(Stamp::at(&z, secs)),
        None => None,
    }
}

// ───────────────────────── titles ─────────────────────────

/// Longest title kept verbatim before it gets condensed.
pub const MAX_DERIVED_TITLE: usize = 80;

/// Full-width punctuation that ends a sentence wherever it stands.
pub open spec fn wide_stop(c: char) -> bool {
    c == '。' || c == '！' || c == '？' || c == '：' || c == '；'
}

/// ASCII punctuation that ends a sentence when a space follows.
pub open spec fn ascii_stop(c: char) -> bool {
    c == ':' || c == '.' || c == '!' || c == '?'
}

/// Where the first sentence ends, looking at the first 80 characters from
/// `i` on. A full-width stop at the very start ends the search empty-handed.
pub open spec fn sentence_break_from(t: Seq<char>, i: int) -> Option<int>
    decreases t.len() - i,
{
    if i < 0 || i >= t.len() || i >= 80 {
        None
    } else if wide_stop(t[i]) {
        if i > 0 {
            Some(i)
        } else {
            None
        }
    } else if ascii_stop(t[i]) && i + 1 < t.len() && t[i + 1] == ' ' && i > 0 {
        Some(i)
    } else {
        sentence_break_from(t, i + 1)
    }
}

proof fn lemma_sentence_break(t: Seq<char>, i: int)
    requires
        0 <= i,
    ensures
        sentence_break_from(t, i) matches Some(k) ==> i <= k && 0 < k < t.len(),
    decreases t.len() - i,
{
    if i < t.len() && i < 80 && !wide_stop(t[i]) && !(ascii_stop(t[i]) && i + 1 < t.len() && t[i
        + 1] == ' ' && i > 0) {
        lemma_sentence_break(t, i + 1);
    }
}

fn sentence_break(t: &[char]) -> (r: Option<usize>)
    ensures
        match sentence_break_from(t@, 0) {
            Some(k) => r == Some(k as usize) && 0 < k < t@.len(),
            None => r is None,
        },
{
    let mut i: usize = 0;
    while i < t.len() && i < 80
        invariant
            i <= t@.len(),
            sentence_break_from(t@, 0) == sentence_break_from(t@, i as int),
        decreases t@.len() - i,
    {
        proof {
            lemma_sentence_break(t@, 0);
        }
        let c = t[i];
        if c == '。' || c == '！' || c == '？' || c == '：' || c == '；' {
            if i > 0 {
                return Some(i);
            }
            return None;
        }
        if (c == ':' || c == '.' || c == '!' || c == '?') && t.len() - i > 1 && t[i + 1] == ' ' && i > 0 {
            return Some(i);
        }
        i += 1;
    }
    None
}

/// An overlong opening line shortened to title size: at its first sentence
/// break, or to 80 characters and an ellipsis.
pub open spec fn condensed(text: Seq<char>) -> Seq<char> {
    if text.len() <= 80 {
        text
    } else {
        match sentence_break_from(text, 0) {
            Some(k) => trim_end(text.take(k)),
            None => trim_end(text.take(80)) + seq!['…'],
        }
    }
}

proof fn lemma_break_skips_words(t: Seq<char>, i: int, k: int)
    requires
        0 <= i <= k,
        forall|j: int| i <= j < k && j < t.len() ==> is_ascii_alnum(#[trigger] t[j]) || t[j] == ' ',
    ensures
        sentence_break_from(t, i) == sentence_break_from(t, k) || (k > t.len() || k > 80)
            && sentence_break_from(t, i) is None,
    decreases k - i,
{
    if i < k && i < t.len() && i < 80 {
        assert(is_ascii_alnum(t[i]) || t[i] == ' ');
        lemma_break_skips_words(t, i + 1, k);
    }
}

/// A title short enough is kept whole. A longer one is cut at its first
/// sentence end within 80 characters, a `.` followed by a space here; one
/// with no sentence end there is cut to 80 characters, closed by `…`.
pub proof fn lemma_condensed_cuts(text: Seq<char>, k: int)
    ensures
        text.len() <= 80 ==> condensed(text) == text,
        text.len() > 80 && 0 < k < 80 && text[k] == '.' && text[k + 1] == ' ' && (forall|j: int|
            0 <= j < k ==> is_ascii_alnum(#[trigger] text[j]) || text[j] == ' ') ==> condensed(text)
            == trim_end(text.take(k)),
        text.len() > 80 && (forall|j: int| 0 <= j < 80 ==> is_ascii_alnum(#[trigger] text[j]) || text[j]
            == ' ') ==> condensed(text) == trim_end(text.take(80)) + seq!['…'],
{
    if text.len() > 80 && 0 < k < 80 && text[k] == '.' && text[k + 1] == ' ' && (forall|j: int|
        0 <= j < k ==> is_ascii_alnum(#[trigger] text[j]) || text[j] == ' ') {
        lemma_break_skips_words(text, 0, k);
        assert(sentence_break_from(text, k) == Some(k));
    }
    if text.len() > 80 && (forall|j: int| 0 <= j < 80 ==> is_ascii_alnum(#[trigger] text[j]) || text[j]
        == ' ') {
        lemma_break_skips_words(text, 0, 80);
        assert(sentence_break_from(text, 80) is None);
    }
}

fn condense(text: &[char]) -> (r: Vec<char>)
    ensures
        r@ == condensed(text@),
{
    if text.len() <= 80 {
        return slice_vec(text, 0, text.len());
    }
    match sentence_break(text) {
        Some(k) => {
            let e = skip_ws_back(text, 0, k);
            proof {
                assert(trim_end(text@.subrange(0, k as int)) =~= text@.subrange(0, e as int));
                assert(text@.take(k as int) =~= text@.subrange(0, k as int));
            }
            slice_vec(text, 0, e)
        },
        None => {
            let e = skip_ws_back(text, 0, 80);
            proof {
                assert(trim_end(text@.subrange(0, 80)) =~= text@.subrange(0, e as int));
                assert(text@.take(80) =~= text@.subrange(0, 80));
            }
            let mut r = slice_vec(text, 0, e);
            r.push('…');
            r
        },
    }
}

pub open spec fn blank_char(c: char) -> bool {
    c == ' ' || c == '\t'
}

/// How many characters of `s` are neither spaces nor tabs.
pub open spec fn nonblank_count(s: Seq<char>) -> nat
    decreases s.len(),
{
    if s.len() == 0 {
        0
    } else {
        nonblank_count(s.drop_last()) + if blank_char(s.last()) {
            0nat
        } else {
            1nat
        }
    }
}

/// Every character of `s` other than spaces and tabs is `c`.
pub open spec fn all_nonblank_are(s: Seq<char>, c: char) -> bool {
    forall|i: int| 0 <= i < s.len() && !blank_char(s[i]) ==> s[i] == c
}

/// A horizontal rule: three or more of one of `- * _`, spaces and tabs aside.
pub open spec fn is_rule(line: Seq<char>) -> bool {
    nonblank_count(line) >= 3 && (all_nonblank_are(line, '-') || all_nonblank_are(line, '*')
        || all_nonblank_are(line, '_'))
}

/// Whether the characters of `line` other than spaces and tabs are all `c`,
/// and how many there are.
fn rule_count(line: &[char], c: char) -> (r: (bool, usize))
    ensures
        r.0 == all_nonblank_are(line@, c),
        r.1 == nonblank_count(line@),
{
    let mut all = true;
    let mut n: usize = 0;
    for i in 0..line.len()
        invariant
            n == nonblank_count(line@.take(i as int)),
            n <= i,
            all == all_nonblank_are(line@.take(i as int), c),
    {
        let ghost before = line@.take(i as int);
        assert(line@.take(i + 1).drop_last() =~= before);
        let x = line[i];
        if x != ' ' && x != '\t' {
            all = all && x == c;
            n += 1;
        }
        proof {
            let after = line@.take(i + 1);
            if all_nonblank_are(after, c) {
                assert forall|k: int| 0 <= k < before.len() && !blank_char(before[k]) implies before[k] == c by {
                    assert(after[k] == before[k]);
                }
            }
            if all_nonblank_are(before, c) && (blank_char(x) || x == c) {
                assert forall|k: int| 0 <= k < after.len() && !blank_char(after[k]) implies after[k] == c by {
                    if k < before.len() {
                        assert(after[k] == before[k]);
                    }
                }
            }
            if !blank_char(x) && x != c {
                assert(after[i as int] == x);
            }
        }
    }
    assert(line@.take(line@.len() as int) =~= line@);
    (all, n)
}

fn is_rule_exec(line: &[char]) -> (r: bool)
    ensures
        r == is_rule(line@),
{
    let (dashes, n) = rule_count(line, '-');
    let (stars, _) = rule_count(line, '*');
    let (unders, _) = rule_count(line, '_');
    n >= 3 && (dashes || stars || unders)
}

/// A line without the leading markup of a heading, list item or block
/// quote.
pub open spec fn markup_body(line: Seq<char>) -> Seq<char> {
    if line.len() > 0 && line[0] == '#' {
        let rest = line.skip(1);
        trim_start(rest.skip(lead_count(rest, '#') as int))
    } else if line.len() >= 2 && line[0] == '>' && line[1] == ' ' {
        trim_start(line.skip(2))
    } else if line.len() >= 2 && (line[0] == '-' || line[0] == '*') && line[1] == ' ' {
        trim_start(line.skip(2))
    } else {
        line
    }
}

/// A list item's marker is not part of its text: `- ` and `* ` are both
/// dropped, with the spaces after them, and so is a quote's `> `.
pub proof fn lemma_list_markers_dropped(t: Seq<char>)
    ensures
        markup_body(seq!['-', ' '] + t) == trim_start(t),
        markup_body(seq!['*', ' '] + t) == trim_start(t),
        markup_body(seq!['>', ' '] + t) == trim_start(t),
{
    assert((seq!['-', ' '] + t).skip(2) =~= t);
    assert((seq!['*', ' '] + t).skip(2) =~= t);
    assert((seq!['>', ' '] + t).skip(2) =~= t);
}

/// The leading markup of a heading, list item or block quote removed, and a
/// closing run of `#` with it.
pub open spec fn stripped_markup(line: Seq<char>) -> Seq<char> {
    let t = trim(markup_body(line));
    trim_end(t.take(t.len() - trail_count(t, '#')))
}

fn markup_body_exec(line: &[char]) -> (r: Vec<char>)
    ensures
        r@ == markup_body(line@),
{
    let n = line.len();
    if n > 0 && line[0] == '#' {
        let rest = slice_vec(line, 1, n);
        assert(rest@ =~= line@.skip(1));
        proof {
            lemma_counts(rest@, '#');
        }
        let mut k: usize = 0;
        assert(rest@.skip(0) =~= rest@);
        while k < rest.len() && rest[k] == '#'
            invariant
                k <= rest@.len(),
                lead_count(rest@, '#') == k + lead_count(rest@.skip(k as int), '#'),
            decreases rest@.len() - k,
        {
            assert(rest@.skip(k as int).drop_first() =~= rest@.skip(k + 1));
            k += 1;
        }
        let s = skip_ws(&rest, k, rest.len());
        proof {
            assert(rest@.subrange(k as int, rest@.len() as int) =~= rest@.skip(k as int));
            assert(trim_start(rest@.skip(k as int)) =~= rest@.subrange(s as int, rest@.len() as int));
        }
        slice_vec(&rest, s, rest.len())
    } else if n >= 2 && ((line[0] == '>') || line[0] == '-' || line[0] == '*') && line[1] == ' ' {
        let s = skip_ws(line, 2, n);
        proof {
            assert(line@.subrange(2, n as int) =~= line@.skip(2));
            assert(trim_start(line@.skip(2)) =~= line@.subrange(s as int, n as int));
        }
        slice_vec(line, s, n)
    } else {
        assert(line@.subrange(0, n as int) =~= line@);
        slice_vec(line, 0, n)
    }
}

fn strip_markup(line: &[char]) -> (r: Vec<char>)
    ensures
        r@ == stripped_markup(line@),
{
    let text = markup_body_exec(line);
    let t = trim_chars(&text);
    proof {
        lemma_counts(t@, '#');
    }
    let mut b = t.len();
    assert(t@.take(b as int) =~= t@);
    while b > 0 && t[b - 1] == '#'
        invariant
            b <= t@.len(),
            trail_count(t@, '#') == (t@.len() - b) + trail_count(t@.take(b as int), '#'),
        decreases b,
    {
        assert(t@.take(b as int).drop_last() =~= t@.take(b - 1));
        b -= 1;
    }
    let e = skip_ws_back(&t, 0, b);
    proof {
        assert(t@.take(b as int) =~= t@.subrange(0, b as int));
        assert(trim_end(t@.subrange(0, b as int)) =~= t@.subrange(0, e as int));
    }
    slice_vec(&t, 0, e)
}

/// A line that opens or closes a fenced code block, once trimmed.
pub open spec fn fence_line(trimmed: Seq<char>) -> bool {
    "```"@.is_prefix_of(trimmed) || "~~~"@.is_prefix_of(trimmed)
}

/// The title the lines from `i` on give: the first line outside a fenced
/// block that is neither blank nor a rule and keeps text once its markup is
/// stripped, condensed.
pub open spec fn title_from(ls: Seq<Seq<char>>, i: int, fenced: bool) -> Option<Seq<char>>
    decreases ls.len() - i,
{
    if i < 0 || i >= ls.len() {
        None
    } else {
        let t = trim(ls[i]);
        if fence_line(t) {
            title_from(ls, i + 1, !fenced)
        } else if fenced || t.len() == 0 || is_rule(t) || stripped_markup(t).len() == 0 {
            title_from(ls, i + 1, fenced)
        } else {
            Some(condensed(stripped_markup(t)))
        }
    }
}

/// Derive a title from the first meaningful line of `body`.
///
/// Notes here open in every style — `#`, `##`, or plain prose — so keying on
/// level-1 headings alone would leave most of them titled after a bare
/// timestamp. Taking the first real line covers all three and stays
/// predictable.
pub open spec fn derived_title(body: Seq<char>) -> Option<Seq<char>> {
    title_from(lines(body), 0, false)
}

/// A note whose first line is plain words behind a heading's `# `, a list
/// item's `* ` or `- `, or a quote's `> ` is titled by those words alone.
pub proof fn lemma_bullet_line_title(t: Seq<char>, m: char)
    requires
        m == '*' || m == '-' || m == '#' || m == '>',
        0 < t.len() <= 80,
        is_ascii_alnum(t[0]),
        is_ascii_alnum(t.last()),
        forall|i: int| 0 <= i < t.len() ==> is_ascii_alnum(#[trigger] t[i]) || t[i] == ' ',
    ensures
        derived_title(seq![m, ' '] + t + seq!['\n']) == Some(t),
{
    let x = seq![m, ' '] + t;
    assert(seq![m, ' '] + t + seq!['\n'] =~= x.push('\n'));
    assert(!x.contains('\n')) by {
        if x.contains('\n') {
            let j = choose|j: int| 0 <= j < x.len() && x[j] == '\n';
            if j >= 2 {
                assert(x[j] == t[j - 2]);
            }
        }
    }
    crate::text::lemma_lines_single(x);
    assert(x.last() == t.last());
    assert(crate::text::strip_cr(x) == x);
    let ls = lines(x.push('\n'));
    assert(ls == seq![x]);
    crate::text::lemma_lead_ws_is(x, 0);
    crate::text::lemma_trail_ws_is(x, 0);
    assert(trim_start(x) =~= x);
    assert(trim(x) =~= x);
    crate::text::lemma_lead_ws_is(t, 0);
    crate::text::lemma_trail_ws_is(t, 0);
    assert(trim_start(t) =~= t);
    assert(trim(t) =~= t);
    reveal_strlit("```");
    reveal_strlit("~~~");
    assert(!fence_line(x)) by {
        assert(x[0] != '`' && x[0] != '~');
    }
    assert(x[2] == t[0]);
    assert(!blank_char(x[2]));
    assert(!is_rule(x));
    lemma_list_markers_dropped(t);
    if m == '#' {
        let rest = x.skip(1);
        assert(rest[0] == ' ');
        assert(lead_count(rest, '#') == 0);
        assert(rest.skip(0) =~= rest);
        assert(rest.skip(1) =~= t);
        crate::text::lemma_lead_ws_is(rest, 1);
        assert(trim_start(rest) =~= t);
    }
    assert(markup_body(x) == t);
    assert(trail_count(t, '#') == 0);
    assert(t.take(t.len() - 0) =~= t);
    assert(stripped_markup(x) == t);
    assert(condensed(t) == t);
    assert(ls[0] == x);
    assert(title_from(ls, 0, false) == Some(t));
}

/// A note whose first line is plain words, no markup before them, is titled
/// by that line.
pub proof fn lemma_plain_line_title(t: Seq<char>)
    requires
        0 < t.len() <= 80,
        is_ascii_alnum(t[0]),
        is_ascii_alnum(t.last()),
        forall|i: int| 0 <= i < t.len() ==> is_ascii_alnum(#[trigger] t[i]) || t[i] == ' ',
    ensures
        derived_title(t + seq!['\n']) == Some(t),
{
    assert(t + seq!['\n'] =~= t.push('\n'));
    assert(!t.contains('\n')) by {
        if t.contains('\n') {
            let j = choose|j: int| 0 <= j < t.len() && t[j] == '\n';
            assert(is_ascii_alnum(t[j]) || t[j] == ' ');
        }
    }
    crate::text::lemma_lines_single(t);
    assert(crate::text::strip_cr(t) == t);
    let ls = lines(t.push('\n'));
    crate::text::lemma_lead_ws_is(t, 0);
    crate::text::lemma_trail_ws_is(t, 0);
    assert(trim_start(t) =~= t);
    assert(trim(t) =~= t);
    reveal_strlit("```");
    reveal_strlit("~~~");
    assert(!fence_line(t)) by {
        assert(t[0] != '`' && t[0] != '~');
    }
    assert(!blank_char(t[0]));
    assert(!is_rule(t));
    assert(markup_body(t) == t);
    assert(trail_count(t, '#') == 0);
    assert(t.take(t.len() - 0) =~= t);
    assert(stripped_markup(t) == t);
    assert(ls[0] == t);
    assert(title_from(ls, 0, false) == Some(t));
}

pub fn derive_title(body: &str) -> (r: Option<String>)
    ensures
        match derived_title(body@) {
            Some(t) => r matches Some(s) && s@ == t,
            None => r is None,
        },
{
    let b = chars_of(body);
    let ranges = line_ranges(&b);
    let ghost ls = lines(b@);
    let mut fenced = false;
    let mut i: usize = 0;
    while i < ranges.len()
        invariant
            spans(b@, ranges@) == ls,
            ls == lines(body@),
            ranges_within(ranges@, b@.len() as int),
            i <= ranges@.len(),
            derived_title(body@) == title_from(ls, i as int, fenced),
        decreases ranges@.len() - i,
    {
        let (a, e) = ranges[i];
        assert(ranges@[i as int].0 <= ranges@[i as int].1 <= b@.len());
        assert(ls[i as int] == b@.subrange(a as int, e as int));
        let (x, y) = trim_range(&b, a, e);
        let t = slice_vec(&b, x, y);
        if starts_with(&t, &chars_of("```")) || starts_with(&t, &chars_of("~~~")) {
            fenced = !fenced;
        } else if !fenced && t.len() > 0 && !is_rule_exec(&t) {
            let text = strip_markup(&t);
            if text.len() > 0 {
                return Some(string_of(&condense(&text)));
            }
        }
        i += 1;
    }
    None
}

// ───────────────────────── notes ─────────────────────────

/// A single Markdown note.
#[derive(Debug, Clone)]
pub struct Note {
    pub path: String,
    pub notebook: String,
    /// Path relative to the notebook root — this is the note's identity.
    pub rel_path: String,
    pub title: String,
    pub tags: Vec<String>,
    pub created: Option<Stamp>,
    pub updated: Option<Stamp>,
    /// Whether the source file already carried a frontmatter block.
    pub has_frontmatter: bool,
}


/// A note's title: the frontmatter's when it is not blank, else the one the
/// body gives, else the file's stem.
pub open spec fn note_title(raw: Seq<char>, path: Seq<char>) -> Seq<char> {
    let body = match split_spec(raw) {
        Some((_, end)) => raw.skip(end),
        None => raw,
    };
    let from_fm = match split_spec(raw) {
        Some((fm, _)) => match fm.title {
            Some(t) => if trim(t).len() > 0 {
                Some(t)
            } else {
                None
            },
            None => None,
        },
        None => None,
    };
    match from_fm {
        Some(t) => t,
        None => match derived_title(body) {
            Some(t) => t,
            None => match file_stem(path) {
                Some(s) => s,
                None => seq![],
            },
        },
    }
}

/// Whether one of `tags` is `tag`, compared without regard to ASCII case.
pub open spec fn carries_tag(tags: Seq<String>, tag: Seq<char>) -> bool {
    exists|i: int| 0 <= i < tags.len() && eq_ignore_case(#[trigger] tags[i]@, tag)
}

impl Note {
    /// Build a note from its source text.
    ///
    /// Metadata falls back through frontmatter, then the document itself, then
    /// the filename, so a note with no frontmatter at all still gets a usable
    /// title. Timestamps come from the frontmatter alone.
    pub fn parse(raw: &str, path: &str, notebook: &str, rel_path: &str) -> (r: Note)
        ensures
            r.path@ == path@,
            r.notebook@ == notebook@,
            r.rel_path@ == rel_path@,
            r.title@ == note_title(raw@, path@),
            r.has_frontmatter == split_spec(raw@) is Some,
            texts(r.tags@) == match split_spec(raw@) {
                Some((fm, _)) => fm.tags,
                None => Seq::<Seq<char>>::empty(),
            },
            r.created is Some ==> (split_spec(raw@) matches Some((fm, _)) && fm.created is Some),
            r.updated is Some ==> (split_spec(raw@) matches Some((fm, _)) && fm.updated is Some),
    {
        let doc = Document::split(raw);
        let from_fm: Option<String> = match &doc.frontmatter {
            Some(f) => match &f.title {
                Some(t) => if trim_chars(&chars_of(t.as_str())).len() > 0 {
                    Some(crate::text::copy_string(t))
                } else {
                    None
                },
                None => None,
            },
            None => None,
        };
        let title = match from_fm {
            Some(t) => t,
            None => match derive_title(doc.body.as_str()) {
                Some(t) => t,
                None => match file_stem_of(&chars_of(path)) {
                    Some(s) => string_of(&s),
                    None => String::new(),
                },
            },
        };
        let (tags, created, updated, has) = match &doc.frontmatter {
            Some(f) => {
                let mut tags: Vec<String> = Vec::new();
                for i in 0..f.tags.len()
                    invariant
                        texts(tags@) == texts(f.tags@).take(i as int),
                {
                    let tag = crate::text::copy_string(&f.tags[i]);
                    let ghost before = tags@;
                    tags.push(tag);
                    assert(tags@ == before.push(tag));
                    assert(texts(f.tags@)[i as int] == f.tags@[i as int]@);
                    assert(texts(tags@) =~= texts(before).push(tag@));
                    assert(texts(tags@) =~= texts(f.tags@).take(i + 1));
                }
                assert(texts(f.tags@).take(f.tags@.len() as int) =~= texts(f.tags@));
                let created = match &f.created {
                    Some(c) => parse_timestamp(c.as_str()),
                    None => None,
                };
                let updated = match &f.updated {
                    Some(u) => parse_timestamp(u.as_str()),
                    None => None,
                };
                (tags, created, updated, true)
            },
            None => (Vec::new(), None, None, false),
        };
        Note {
            path: path.to_owned(),
            notebook: notebook.to_owned(),
            rel_path: rel_path.to_owned(),
            title,
            tags,
            created,
            updated,
            has_frontmatter: has,
        }
    }

    /// The timestamp used for sorting and `--since` filtering: when the note
    /// was last updated, else when it was created.
    pub fn sort_key(&self) -> (r: Option<&Stamp>)
        ensures
            r == match self.updated {
                Some(u) => Some(&u),
                None => match self.created {
                    Some(c) => Some(&c),
                    None => None,
                },
            },
    {
        match &self.updated {
            Some(u) => Some(u),
            None => match &self.created {
                Some(c) => Some(c),
                None => None,
            },
        }
    }

    /// Whether the note carries a tag, compared without regard to ASCII case.
    pub fn has_tag(&self, tag: &str) -> (r: bool)
        ensures
            r == carries_tag(self.tags@, tag@),
    {
        let t = chars_of(tag);
        for i in 0..self.tags.len()
            invariant
                t@ == tag@,
                forall|j: int| 0 <= j < i ==> !eq_ignore_case(#[trigger] self.tags@[j]@, tag@),
        {
            if eq_ignore_case_exec(&chars_of(self.tags[i].as_str()), &t) {
                return true;
            }
        }
        false
    }
}

// ───────────────────────── filenames ─────────────────────────

/// What a title character becomes in a slug: ASCII letters and digits in
/// lower case, `-` and `_` as `-`, whitespace and punctuation as a break,
/// anything else as it is.
pub open spec fn slug_char(c: char) -> Option<char> {
    if is_ascii_alnum(c) {
        Some(lower_char(c))
    } else if c == '-' || c == '_' {
        Some('-')
    } else if is_ws(c) || c == '/' || c == '\\' || c == ':' || c == '.' || c == ',' || is_ascii_punct(
        c,
    ) {
        None
    } else {
        Some(c)
    }
}

/// The slug of the first `n` characters, and whether a break is pending.
pub open spec fn slug_acc(s: Seq<char>, n: int) -> (Seq<char>, bool)
    decreases n,
{
    if n <= 0 {
        (seq![], false)
    } else {
        let (out, pending) = slug_acc(s, n - 1);
        match slug_char(s[n - 1]) {
            Some(c) => (
                if pending && out.len() > 0 {
                    out + seq!['-', c]
                } else {
                    out.push(c)
                },
                false,
            ),
            None => (out, out.len() > 0),
        }
    }
}

/// A title as a filename stem.
pub open spec fn slug(title: Seq<char>) -> Seq<char> {
    let s = trim_matching(slug_acc(title, title.len() as int).0, '-');
    if s.len() == 0 {
        "untitled"@
    } else {
        s
    }
}

/// Turn a title into a filename stem.
///
/// Non-ASCII text is kept as-is — plenty of existing notes are titled in
/// Japanese, and transliterating would make them harder to recognise, not
/// easier.
pub fn slugify(title: &str) -> (r: String)
    ensures
        r@ == slug(title@),
{
    let t = chars_of(title);
    let mut out: Vec<char> = Vec::new();
    let mut pending = false;
    for i in 0..t.len()
        invariant
            (out@, pending) == slug_acc(t@, i as int),
    {
        let c = t[i];
        let mapped: Option<char> = if ('0' <= c && c <= '9') || ('A' <= c && c <= 'Z') || ('a' <= c
            && c <= 'z') {
            Some(to_lower_char(c))
        } else if c == '-' || c == '_' {
            Some('-')
        } else if is_whitespace(c) || c == '/' || c == '\\' || c == ':' || c == '.' || c == ','
            || ('!' <= c && c <= '/') || (':' <= c && c <= '@') || ('[' <= c && c <= '`') || ('{'
            <= c && c <= '~') {
            None
        } else {
            Some(c)
        };
        assert(mapped == slug_char(t@[i as int]));
        match mapped {
            Some(m) => {
                if pending && out.len() > 0 {
                    out.push('-');
                }
                pending = false;
                out.push(m);
            },
            None => {
                pending = out.len() > 0;
            },
        }
    }
    let s = trim_matching_exec(&out, '-');
    if s.len() == 0 {
        "untitled".to_owned()
    } else {
        string_of(&s)
    }
}

/// A title character as `nb` writes it into a filename: ASCII letters in
/// lower case, whitespace and `: / \ ? *` as `_`, anything else as it is.
pub open spec fn filename_char(c: char) -> char {
    if is_ws(c) || c == ':' || c == '/' || c == '\\' || c == '?' || c == '*' {
        '_'
    } else {
        lower_char(c)
    }
}

/// A title as `nb` turns it into a filename stem.
pub open spec fn filename_stem_text(title: Seq<char>) -> Seq<char> {
    title.map_values(|c: char| filename_char(c))
}

/// A stem has a character for each character of the title: whitespace and
/// each of `: / \ ? *` become `_`, and any other character is kept, ASCII
/// letters lowered. So no stem holds a `:`, which selectors read as a
/// notebook prefix, nor a path separator.
pub proof fn lemma_stem_characters(title: Seq<char>)
    ensures
        filename_stem_text(title).len() == title.len(),
        forall|i: int|
            0 <= i < title.len() && (is_ws(title[i]) || title[i] == ':' || title[i] == '/' || title[i]
                == '\\' || title[i] == '?' || title[i] == '*') ==> #[trigger] filename_stem_text(title)[i]
                == '_',
        forall|i: int|
            0 <= i < title.len() && !(is_ws(title[i]) || title[i] == ':' || title[i] == '/' || title[i]
                == '\\' || title[i] == '?' || title[i] == '*') ==> #[trigger] filename_stem_text(title)[i]
                == lower_char(title[i]),
        forall|i: int|
            0 <= i < title.len() ==> {
                let c = #[trigger] filename_stem_text(title)[i];
                c != ':' && c != '/' && c != '\\' && c != '?' && c != '*' && !('A' <= c && c <= 'Z')
            },
{
    assert forall|i: int| 0 <= i < title.len() implies {
        let c = #[trigger] filename_stem_text(title)[i];
        c != ':' && c != '/' && c != '\\' && c != '?' && c != '*' && !('A' <= c && c <= 'Z')
    } by {
        let t = title[i];
        if 'A' <= t && t <= 'Z' {
            assert(65 <= (t as u32) <= 90);
            assert(97 <= (t as u32) + 32 <= 122);
        }
    }
}

/// Turn a title into a filename stem the way `nb` does: lowercase ASCII,
/// whitespace and `: / \ ? *` replaced by underscores, everything else left
/// alone.
pub fn filename_stem(title: &str) -> (r: String)
    ensures
        r@ == filename_stem_text(title@),
{
    let t = chars_of(title);
    let mut out: Vec<char> = Vec::new();
    for i in 0..t.len()
        invariant
            out@ == filename_stem_text(t@.take(i as int)),
    {
        let c = t[i];
        let m = if is_whitespace(c) || c == ':' || c == '/' || c == '\\' || c == '?' || c == '*' {
            '_'
        } else {
            to_lower_char(c)
        };
        out.push(m);
        assert(filename_stem_text(t@.take(i + 1)) =~= filename_stem_text(t@.take(i as int)).push(
            filename_char(t@[i as int]),
        ));
    }
    assert(t@.take(t@.len() as int) =~= t@);
    string_of(&out)
}

} // verus!
