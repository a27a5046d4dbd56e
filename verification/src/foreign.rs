//! The calls this library makes into other crates and into parts of std that
//! vstd does not describe. Each item here states what the called code does;
//! none of these statements is proved, so each is kept as small as the
//! called code's documentation allows.
use base64::Engine;
use chrono::Datelike;
use crate::text::decimal;
use vstd::prelude::*;

verus! {

// ---------------------------------------------------------------------------
// regex
// ---------------------------------------------------------------------------

/// What compiling `pattern` with `regex::Regex::new` and then asking
/// `Regex::is_match` about `haystack` gives: `None` when the pattern does not
/// compile, else whether the pattern matches somewhere in `haystack`.
pub uninterp spec fn regex_outcome(pattern: Seq<char>, haystack: Seq<char>) -> Option<bool>;

/// Compiles `pattern` with `regex::Regex::new` and tests `haystack` with
/// `Regex::is_match`. The result is only claimed to be the named outcome of
/// these two calls on these two strings; the regular-expression semantics
/// itself is left to the regex crate.
#[verifier::external_body]
pub(crate) fn regex_is_match(pattern: &str, haystack: &str) -> (r: Option<bool>)
    ensures
        r == regex_outcome(pattern@, haystack@),
{
    match regex::Regex::new(pattern) {
        Ok(re) => Some(re.is_match(haystack)),
        Err(_) => None,
    }
}

// ---------------------------------------------------------------------------
// std: Unicode lower-casing
// ---------------------------------------------------------------------------

/// What `str::to_lowercase` gives for `s` (full Unicode lower-casing).
pub uninterp spec fn unicode_lowercase(s: Seq<char>) -> Seq<char>;

/// `str::to_lowercase`. Only claimed to give the named Unicode lower-casing of
/// its argument; the case tables themselves are not written out here.
#[verifier::external_body]
pub(crate) fn to_lowercase(s: &str) -> (r: String)
    ensures
        r@ == unicode_lowercase(s@),
{
    s.to_lowercase()
}

// ---------------------------------------------------------------------------
// std: path joining
// ---------------------------------------------------------------------------

/// A single relative path component that names no directory of its own:
/// not empty, not `.` or `..`, and free of separators and drive colons.
pub open spec fn is_plain_component(name: Seq<char>) -> bool {
    &&& name.len() > 0
    &&& name != seq!['.']
    &&& name != seq!['.', '.']
    &&& no_separator(name)
}

/// No char of `s` is `/`, `\\` or `:`.
pub open spec fn no_separator(s: Seq<char>) -> bool
    decreases s.len(),
{
    s.len() == 0 || (s[0] != '/' && s[0] != '\\' && s[0] != ':' && no_separator(s.drop_first()))
}

/// `base` starts with a Windows verbatim prefix (`\\?\`).
pub open spec fn has_verbatim_prefix(base: Seq<char>) -> bool {
    base.len() >= 4 && base.take(4) == seq!['\\', '\\', '?', '\\']
}

/// `base` ends in a path component of its own, so that a further
/// component needs a separator: it is not empty and its last char is none of
/// `/`, `\\` and `:` (a bare Windows drive such as `C:` takes the next
/// component without one).
pub open spec fn needs_separator(base: Seq<char>) -> bool {
    &&& base.len() > 0
    &&& base.last() != '/'
    &&& base.last() != '\\'
    &&& base.last() != ':'
}

/// `base`, then one path separator (`/` or `\\`), then `name`; the
/// separator may be left out only where `base` does not need one.
pub open spec fn joined(base: Seq<char>, name: Seq<char>, r: Seq<char>) -> bool {
    ||| (r == base + name && !needs_separator(base))
    ||| r == base.push('/') + name
    ||| r == base.push('\\') + name
}

/// `std::path::Path::join` of `base` and one plain component `name`,
/// rendered back as a string. Per the documentation of `PathBuf::push`, a
/// relative component is appended to the existing path as a component of
/// its own, so where `base` ends in a component of its own a separator
/// (`std::path::MAIN_SEPARATOR`: `/` on Unix, `\\` on Windows) is put in
/// between; the contract claims that much and no more, and leaves open which
/// separator it is, and whether one is put in after a trailing separator or
/// drive colon. A `base` with a Windows verbatim prefix gets no claim at
/// all, since there the joined path is normalised.
#[verifier::external_body]
pub(crate) fn path_join(base: &str, name: &str) -> (r: String)
    requires
        is_plain_component(name@),
    ensures
        !has_verbatim_prefix(base@) ==> joined(base@, name@, r@),
{
    std::path::Path::new(base).join(name).to_string_lossy().into_owned()
}

// ---------------------------------------------------------------------------
// chrono
// ---------------------------------------------------------------------------

/// A calendar date as plain numbers.
#[derive(Clone, Copy, Debug, PartialEq, Eq, Structural)]
pub struct CalendarDate {
    pub year: i32,
    pub month: u32,
    pub day: u32,
}

/// The strftime patterns this library formats the current time with.
pub open spec fn is_used_time_format(fmt: Seq<char>) -> bool {
    ||| fmt == "%Y-%m-%dT%H:%M:%S"@
    ||| fmt == "%Y-%m-%d"@
    ||| fmt == "%Y-%m-%dT%H%M%S"@
}

/// A local date and time of day, as the clock reads it.
pub struct ClockTime {
    pub date: CalendarDate,
    pub hour: u32,
    pub minute: u32,
    pub second: u32,
}

/// The field ranges that `Datelike` and `Timelike` document (a second of 60
/// stands for a leap second).
pub open spec fn clock_valid(t: ClockTime) -> bool {
    &&& 1 <= t.date.month <= 12
    &&& 1 <= t.date.day <= 31
    &&& t.hour <= 23
    &&& t.minute <= 59
    &&& t.second <= 60
}

/// `n` in decimal, with leading zeros up to `width` digits.
pub open spec fn zero_padded(n: nat, width: nat) -> Seq<char> {
    let d = decimal(n);
    if d.len() < width {
        Seq::new((width - d.len()) as nat, |i: int| '0') + d
    } else {
        d
    }
}

/// What `%Y` renders: the year zero-padded to four digits, with a leading
/// sign when it lies outside 0 to 9999.
pub open spec fn year_text(y: int) -> Seq<char> {
    if 0 <= y <= 9999 {
        zero_padded(y as nat, 4)
    } else if y < 0 {
        seq!['-'] + zero_padded((-y) as nat, 4)
    } else {
        seq!['+'] + zero_padded(y as nat, 4)
    }
}

/// What `%m`, `%d`, `%H`, `%M` and `%S` render: two digits, zero-padded.
pub open spec fn two_digits(n: u32) -> Seq<char> {
    zero_padded(n as nat, 2)
}

/// `%Y-%m-%d`.
pub open spec fn date_text(t: ClockTime) -> Seq<char> {
    year_text(t.date.year as int) + seq!['-'] + two_digits(t.date.month) + seq!['-']
        + two_digits(t.date.day)
}

/// `%Y-%m-%dT%H:%M:%S`.
pub open spec fn timestamp_text(t: ClockTime) -> Seq<char> {
    date_text(t) + seq!['T'] + two_digits(t.hour) + seq![':'] + two_digits(t.minute) + seq![':']
        + two_digits(t.second)
}

/// `%Y-%m-%dT%H%M%S`.
pub open spec fn compact_stamp_text(t: ClockTime) -> Seq<char> {
    date_text(t) + seq!['T'] + two_digits(t.hour) + two_digits(t.minute) + two_digits(t.second)
}

/// What formatting the time `t` with one of the patterns above renders.
pub open spec fn clock_text(fmt: Seq<char>, t: ClockTime) -> Seq<char> {
    if fmt == "%Y-%m-%dT%H:%M:%S"@ {
        timestamp_text(t)
    } else if fmt == "%Y-%m-%d"@ {
        date_text(t)
    } else {
        compact_stamp_text(t)
    }
}

/// `text` is what `fmt` renders for some valid local date and time.
pub open spec fn shows_some_time(fmt: Seq<char>, text: Seq<char>) -> bool {
    exists|t: ClockTime| clock_valid(t) && text == clock_text(fmt, t)
}

/// `chrono::Local::now().format(fmt).to_string()`. Which time it shows
/// depends on the clock and the machine's time zone, so only the shape is
/// claimed: the rendering of some valid local date and time by the pattern,
/// each specifier as chrono's documentation and `format::formatting` give
/// it (`%Y` zero-padded to four digits, signed outside 0 to 9999; the other
/// fields two zero-padded digits) and the other characters copied. `fmt` is
/// held to the patterns the library uses, all of them valid strftime
/// patterns (an invalid one makes `to_string` panic).
#[verifier::external_body]
pub(crate) fn local_now_formatted(fmt: &str) -> (r: String)
    requires
        is_used_time_format(fmt@),
    ensures
        shows_some_time(fmt@, r@),
{
    chrono::Local::now().format(fmt).to_string()
}

/// Today's date in the machine's time zone, from `chrono::Local::now()`
/// through `date_naive()` and the `Datelike` accessors. Only the ranges that
/// `Datelike::month` and `Datelike::day` document are claimed.
#[verifier::external_body]
pub(crate) fn local_today() -> (r: CalendarDate)
    ensures
        1 <= r.month <= 12,
        1 <= r.day <= 31,
{
    let d = chrono::Local::now().date_naive();
    CalendarDate { year: d.year(), month: d.month(), day: d.day() }
}

/// What `chrono::NaiveDate::parse_from_str(s, fmt)` gives, as (year, month,
/// day), or `None` when it reports an error.
pub uninterp spec fn parsed_date(s: Seq<char>, fmt: Seq<char>) -> Option<(i32, u32, u32)>;

/// The named parse result as a `CalendarDate`.
pub open spec fn parse_outcome(s: Seq<char>, fmt: Seq<char>) -> Option<CalendarDate> {
    match parsed_date(s, fmt) {
        Some((y, m, d)) => Some(CalendarDate { year: y, month: m, day: d }),
        None => None,
    }
}

/// `chrono::NaiveDate::parse_from_str`, its date taken apart with the
/// `Datelike` accessors. The result is the named outcome on these two
/// strings, and a parsed date has the month and day ranges that `Datelike`
/// documents.
#[verifier::external_body]
pub(crate) fn parse_date(s: &str, fmt: &str) -> (r: Option<CalendarDate>)
    ensures
        match parsed_date(s@, fmt@) {
            Some((y, m, d)) => r == Some(CalendarDate { year: y, month: m, day: d }),
            None => r is None,
        },
        r matches Some(d) ==> 1 <= d.month <= 12 && 1 <= d.day <= 31,
{
    match chrono::NaiveDate::parse_from_str(s, fmt) {
        Ok(d) => Some(CalendarDate { year: d.year(), month: d.month(), day: d.day() }),
        Err(_) => None,
    }
}

// ---------------------------------------------------------------------------
// base64
// ---------------------------------------------------------------------------

/// The character for a 6-bit value in the standard base64 alphabet
/// (`A-Z`, `a-z`, `0-9`, `+`, `/`).
pub open spec fn base64_digit(v: int) -> char {
    if v < 26 {
        (65 + v) as char
    } else if v < 52 {
        (97 + (v - 26)) as char
    } else if v < 62 {
        (48 + (v - 52)) as char
    } else if v == 62 {
        '+'
    } else {
        '/'
    }
}

/// Standard base64 with `=` padding: every 3 bytes become 4 characters, a
/// final group of 1 or 2 bytes is padded to 4 characters.
pub open spec fn base64_standard(b: Seq<u8>) -> Seq<char>
    decreases b.len(),
{
    if b.len() == 0 {
        Seq::empty()
    } else {
        let x = b[0] as int;
        let y = if b.len() > 1 { b[1] as int } else { 0 };
        let z = if b.len() > 2 { b[2] as int } else { 0 };
        let c0 = base64_digit(x / 4);
        let c1 = base64_digit((x % 4) * 16 + y / 16);
        let c2 = base64_digit((y % 16) * 4 + z / 64);
        let c3 = base64_digit(z % 64);
        if b.len() == 1 {
            seq![c0, c1, '=', '=']
        } else if b.len() == 2 {
            seq![c0, c1, c2, '=']
        } else {
            seq![c0, c1, c2, c3] + base64_standard(b.skip(3))
        }
    }
}

/// `base64::engine::general_purpose::STANDARD.encode`: the standard alphabet
/// with padding, as the crate's `STANDARD` engine and `PAD` configuration
/// define it. The length bound keeps the encoded length (which `encode`
/// computes with `expect` on overflow) within `usize`.
#[verifier::external_body]
pub(crate) fn base64_encode(bytes: &Vec<u8>) -> (r: String)
    requires
        bytes.len() <= usize::MAX / 2,
    ensures
        r@ == base64_standard(bytes@),
{
    base64::engine::general_purpose::STANDARD.encode(bytes)
}

} // verus!
