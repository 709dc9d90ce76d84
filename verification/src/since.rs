//! Parsing for the `--since` filter.
//!
//! A value is a relative duration (`7d`, `3w`, `6m`, `1y`) or an absolute
//! date (`2026-01-01`, or any timestamp the frontmatter parser understands).

use vstd::prelude::*;

use crate::note::{parse_timestamp, reads_as, stamp_facts, timestamp_owed, Stamp};
use crate::text::{
    all_digits, chars_of, digits_value, extend_str, is_digit, parse_unsigned, parse_unsigned_exec,
    slice_vec, string_of, trim, trim_chars,
};

verus! {

/// The unit of a relative duration.
#[derive(Debug, Clone, Copy, PartialEq, Eq)]
pub enum Unit {
    Days,
    Weeks,
    Months,
    Years,
}

pub open spec fn unit_of(c: char) -> Option<Unit> {
    if c == 'd' {
        Some(Unit::Days)
    } else if c == 'w' {
        Some(Unit::Weeks)
    } else if c == 'm' {
        Some(Unit::Months)
    } else if c == 'y' {
        Some(Unit::Years)
    } else {
        None
    }
}

/// What a relative duration reads as: nothing when the text is not one (no
/// unit letter at the end, or anything but digits before it), the amount
/// when it fits in an `i64`, and an error when it does not.
pub open spec fn relative_spec(input: Seq<char>) -> Result<Option<(Unit, int)>, Seq<char>> {
    if input.len() == 0 {
        Ok(None)
    } else {
        match unit_of(input.last()) {
            None => Ok(None),
            Some(u) => {
                let digits = input.drop_last();
                if digits.len() == 0 || !all_digits(digits) {
                    Ok(None)
                } else if digits_value(digits) > i64::MAX {
                    Err("bad duration `"@ + input + "`"@)
                } else {
                    Ok(Some((u, digits_value(digits) as int)))
                }
            },
        }
    }
}

/// Read a relative duration such as `7d`.
pub fn relative(input: &str) -> (r: Result<Option<(Unit, i64)>, String>)
    ensures
        match relative_spec(input@) {
            Ok(None) => r matches Ok(None),
            Ok(Some((u, n))) => r matches Ok(Some((v, m))) && v == u && m == n,
            Err(e) => r matches Err(x) && x@ == e,
        },
{
    let t = chars_of(input);
    if t.len() == 0 {
        return Ok(None);
    }
    let c = t[t.len() - 1];
    let unit = if c == 'd' {
        Unit::Days
    } else if c == 'w' {
        Unit::Weeks
    } else if c == 'm' {
        Unit::Months
    } else if c == 'y' {
        Unit::Years
    } else {
        return Ok(None);
    };
    let digits = slice_vec(&t, 0, t.len() - 1);
    assert(digits@ =~= input@.drop_last());
    let mut i: usize = 0;
    while i < digits.len()
        invariant
            i <= digits@.len(),
            forall|j: int| 0 <= j < i ==> is_digit(#[trigger] digits@[j]),
            digits@ == input@.drop_last(),
            input@.len() > 0,
            unit_of(input@.last()) == Some(unit),
        decreases digits@.len() - i,
    {
        if !('0' <= digits[i] && digits[i] <= '9') {
            assert(!is_digit(digits@[i as int]));
            assert(!all_digits(digits@));
            return Ok(None);
        }
        i += 1;
    }
    if digits.len() == 0 {
        return Ok(None);
    }
    assert(all_digits(digits@));
    match parse_unsigned_exec(&digits, 9223372036854775807u64) {
        Some(v) => {
            assert(parse_unsigned(digits@, i64::MAX as nat) == Some(v as nat));
            assert(digits@[0] != '+');
            Ok(Some((unit, v as i64)))
        },
        None => {
            assert(digits@[0] != '+');
            assert(parse_unsigned(digits@, i64::MAX as nat) is None);
            let mut m = chars_of("bad duration `");
            extend_str(&mut m, input);
            extend_str(&mut m, "`");
            Err(string_of(&m))
        },
    }
}

/// The largest amount jiff accepts in a span of each unit.
pub open spec fn span_limit(u: Unit) -> int {
    match u {
        Unit::Days => 7304484,
        Unit::Weeks => 1043497,
        Unit::Months => 239976,
        Unit::Years => 19998,
    }
}

/// What a `--since` value reads as, once trimmed: an error for blank text,
/// for a duration whose amount does not fit, or for one beyond the span jiff
/// can hold in its unit; a relative duration with its unit and amount; or
/// nothing when it is no duration and is read as a date.
pub open spec fn since_kind(t: Seq<char>) -> Result<Option<(Unit, int)>, Seq<char>> {
    if t.len() == 0 {
        Err("empty --since value"@)
    } else {
        match relative_spec(t) {
            Err(e) => Err(e),
            Ok(Some((u, n))) => if n > span_limit(u) {
                Err("duration `"@ + t + "` is out of range"@)
            } else {
                Ok(Some((u, n)))
            },
            Ok(None) => Ok(None),
        }
    }
}

/// The message for a `--since` value that is neither a duration nor a date.
pub open spec fn unreadable_message(t: Seq<char>) -> Seq<char> {
    "cannot read `"@ + t + "` as a date or a duration like `7d`"@
}

/// A `--since` value read, before any clock is consulted: so long ago, or
/// at a given time.
#[derive(Debug)]
pub enum Since {
    Ago(Unit, i64),
    At(Stamp),
}

/// Read a `--since` value without looking at the clock. The text is trimmed
/// first. A duration gives its unit and amount; an absolute date is read by
/// `parse_timestamp`.
pub fn since_spec(input: &str) -> (r: Result<Since, String>)
    ensures
        match since_kind(trim(input@)) {
            Err(m) => r matches Err(e) && e@ == m,
            Ok(Some((u, n))) => r matches Ok(Since::Ago(v, m)) && v == u && m == n,
            Ok(None) => match r {
                Ok(Since::At(s)) => stamp_facts(s) && reads_as(s.seconds as int, trim(input@)),
                Ok(Since::Ago(_, _)) => false,
                Err(e) => e@ == unreadable_message(trim(input@)) && !timestamp_owed(trim(input@)),
            },
        },
{
    let t = string_of(&trim_chars(&chars_of(input)));
    if t.as_str().is_empty() {
        return Err("empty --since value".to_owned());
    }
    proof {
        crate::text::lemma_trim_idempotent(input@);
    }
    match relative(t.as_str()) {
        Err(e) => Err(e),
        Ok(Some((u, n))) => {
            if n > span_limit_exec(u) {
                let mut m = chars_of("duration `");
                extend_str(&mut m, t.as_str());
                extend_str(&mut m, "` is out of range");
                Err(string_of(&m))
            } else {
                Ok(Since::Ago(u, n))
            }
        },
        Ok(None) => match parse_timestamp(t.as_str()) {
            Some(stamp) => Ok(Since::At(stamp)),
            None => {
                let mut m = chars_of("cannot read `");
                extend_str(&mut m, t.as_str());
                extend_str(&mut m, "` as a date or a duration like `7d`");
                Err(string_of(&m))
            },
        },
    }
}

fn span_limit_exec(u: Unit) -> (r: i64)
    ensures
        r == span_limit(u),
{
    match u {
        Unit::Days => 7304484,
        Unit::Weeks => 1043497,
        Unit::Months => 239976,
        Unit::Years => 19998,
    }
}

/// How far back, in seconds, `n` of a unit reaches from a moment to the one
/// the calendar puts `n` units earlier in the same time zone: a day is 86400
/// seconds of civil time, a month 28 to 31 days, a year 365 or 366, and a
/// month or year landing on a day its target lacks clamps to that month's
/// last day (three days at most for a month, one for a year). The two
/// moments may sit at offsets up to 25:59:59 apart either way, and whole
/// seconds before the epoch count toward zero.
pub open spec fn back_by(u: Unit, n: int, d: int) -> bool {
    let slack: int = 187200;
    match u {
        Unit::Days => n * 86400 - slack <= d <= n * 86400 + slack,
        Unit::Weeks => n * 7 * 86400 - slack <= d <= n * 7 * 86400 + slack,
        Unit::Months => n * 28 * 86400 - slack <= d <= (n * 31 + 3) * 86400 + slack,
        Unit::Years => n * 365 * 86400 - slack <= d <= (n * 366 + 1) * 86400 + slack,
    }
}

/// `Zoned::now().checked_sub(span)` for a span of `n` of the unit, built
/// with `Span::new().try_days(n)`, `try_weeks`, `try_months` or
/// `try_years`, with the instants of the cutoff and of now in whole seconds.
/// Every amount up to the unit's limit makes a span, so only the subtraction
/// can fail, when the cutoff falls outside what jiff represents. jiff
/// subtracts calendar units from the civil datetime (`DateTime::checked_add`
/// with the negated span, which keeps the time of day and clamps the day to
/// the target month) and places the result in the same zone, so the cutoff
/// lies `back_by` the amount before now. Which moment now is depends on the
/// clock and is not stated.
#[verifier::external_body]
fn before_now(unit: Unit, n: i64) -> (r: Option<(jiff::Zoned, i64, i64)>)
    requires
        0 <= n <= span_limit(unit),
    ensures
        r matches Some((_, cut, now)) ==> -377705023201 <= cut <= 253402207200 && back_by(
            unit,
            n as int,
            now - cut,
        ),
{
    let span = match unit {
        Unit::Days => jiff::Span::new().try_days(n),
        Unit::Weeks => jiff::Span::new().try_weeks(n),
        Unit::Months => jiff::Span::new().try_months(n),
        Unit::Years => jiff::Span::new().try_years(n),
    };
    let now = jiff::Zoned::now();
    let cut = now.checked_sub(span.ok()?).ok()?;
    Some((cut.clone(), cut.timestamp().as_second(), now.timestamp().as_second()))
}

/// The cutoff `n` units before now, read from the clock, with the clock's
/// reading in whole seconds: a well-formed stamp that lies `back_by` the
/// amount before that reading, or an error when it falls before what jiff
/// represents.
pub fn cutoff(unit: Unit, n: i64) -> (r: Result<(Stamp, i64), String>)
    requires
        0 <= n <= span_limit(unit),
    ensures
        r matches Ok((s, now)) ==> stamp_facts(s) && back_by(unit, n as int, now - s.seconds),
        r matches Err(e) ==> e@ == "--since is too far in the past"@,
{
    match before_now(unit, n) {
        Some((z, cut, now)) => Ok((Stamp::at(&z, cut), now)),
        None => Err("--since is too far in the past".to_owned()),
    }
}

/// Read a `--since` value into a cutoff, with the clock's reading in whole
/// seconds when a relative duration was counted back from it. An absolute
/// date is read by `since_spec`; a duration's cutoff lies `back_by` its unit
/// and amount before the clock's reading.
pub fn read_since(input: &str) -> (r: Result<(Stamp, Option<i64>), String>)
    ensures
        match since_kind(trim(input@)) {
            Err(m) => r matches Err(e) && e@ == m,
            Ok(Some((u, n))) => match r {
                Ok((s, Some(now))) => stamp_facts(s) && back_by(u, n, now - s.seconds),
                Ok((_, None)) => false,
                Err(e) => e@ == "--since is too far in the past"@,
            },
            Ok(None) => match r {
                Ok((s, now)) => now is None && stamp_facts(s) && reads_as(s.seconds as int, trim(input@)),
                Err(e) => e@ == unreadable_message(trim(input@)) && !timestamp_owed(trim(input@)),
            },
        },
{
    match since_spec(input) {
        Err(e) => Err(e),
        Ok(Since::At(s)) => Ok((s, None)),
        Ok(Since::Ago(u, n)) => match cutoff(u, n) {
            Ok((s, now)) => Ok((s, Some(now))),
            Err(e) => Err(e),
        },
    }
}

/// Parse a `--since` value into a cutoff timestamp: the cutoff `read_since`
/// gives, whose contract also states how far back a relative cutoff lies
/// from the clock's reading.
pub fn parse(input: &str) -> (r: Result<Stamp, String>)
    ensures
        match since_kind(trim(input@)) {
            Err(m) => r matches Err(e) && e@ == m,
            Ok(Some(_)) => r matches Err(e) ==> e@ == "--since is too far in the past"@,
            Ok(None) => match r {
                Ok(s) => reads_as(s.seconds as int, trim(input@)),
                Err(e) => e@ == unreadable_message(trim(input@)) && !timestamp_owed(trim(input@)),
            },
        },
        r matches Ok(s) ==> stamp_facts(s),
{
    match read_since(input) {
        Ok((s, _)) => Ok(s),
        Err(e) => Err(e),
    }
}

} // verus!
