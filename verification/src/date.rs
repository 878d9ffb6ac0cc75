//! Calendar dates of the proleptic Gregorian calendar, in the range that
//! chrono's `NaiveDate` covers.

use vstd::prelude::*;

use chrono::Datelike;

use crate::num::{decimal, pad2};

verus! {

/// The first year a date may have.
pub const MIN_YEAR: i32 = -262143;

/// The last year a date may have.
pub const MAX_YEAR: i32 = 262142;

pub open spec fn is_leap(y: int) -> bool {
    (y % 4 == 0 && y % 100 != 0) || y % 400 == 0
}

pub open spec fn days_in_month(y: int, m: int) -> int {
    if m == 2 {
        if is_leap(y) {
            29
        } else {
            28
        }
    } else if m == 4 || m == 6 || m == 9 || m == 11 {
        30
    } else {
        31
    }
}

/// A real calendar date within the supported years.
pub open spec fn valid_ymd(d: (int, int, int)) -> bool {
    &&& MIN_YEAR <= d.0 <= MAX_YEAR
    &&& 1 <= d.1 <= 12
    &&& 1 <= d.2 <= days_in_month(d.0, d.1)
}

/// The day after `d` (which may fall past the supported years).
pub open spec fn next_day(d: (int, int, int)) -> (int, int, int) {
    if d.2 < days_in_month(d.0, d.1) {
        (d.0, d.1, d.2 + 1)
    } else if d.1 < 12 {
        (d.0, d.1 + 1, 1)
    } else {
        (d.0 + 1, 1, 1)
    }
}

/// Chronological order of dates.
pub open spec fn date_lt(a: (int, int, int), b: (int, int, int)) -> bool {
    a.0 < b.0 || (a.0 == b.0 && (a.1 < b.1 || (a.1 == b.1 && a.2 < b.2)))
}

pub open spec fn date_le(a: (int, int, int), b: (int, int, int)) -> bool {
    date_lt(a, b) || a == b
}

/// The last supported date.
pub open spec fn last_date() -> (int, int, int) {
    (MAX_YEAR as int, 12, 31)
}

/// A calendar date.
#[derive(Debug, Clone, Copy, PartialEq, Eq, Hash, PartialOrd, Ord)]
pub struct Date {
    year: i32,
    month: u32,
    day: u32,
}

impl Date {
    #[verifier::type_invariant]
    spec fn valid(self) -> bool {
        valid_ymd((self.year as int, self.month as int, self.day as int))
    }
}

impl View for Date {
    type V = (int, int, int);

    /// (year, month, day); always a valid date.
    closed spec fn view(&self) -> (int, int, int) {
        let t = (self.year as int, self.month as int, self.day as int);
        if valid_ymd(t) {
            t
        } else {
            (1970, 1, 1)
        }
    }
}

/// Every date is a valid calendar date.
pub broadcast proof fn lemma_date_valid(d: Date)
    ensures
        #[trigger] valid_ymd(d@),
{
}

/// Whether (year, month, day) is a real date within the supported years.
pub fn is_valid_ymd(year: i32, month: u32, day: u32) -> (b: bool)
    ensures
        b == valid_ymd((year as int, month as int, day as int)),
{
    if year < MIN_YEAR || year > MAX_YEAR || month < 1 || month > 12 || day < 1 {
        return false;
    }
    day <= month_length(year, month)
}

/// Whether `year` is a leap year.
pub fn leap_year(year: i32) -> (b: bool)
    requires
        MIN_YEAR <= year <= MAX_YEAR,
    ensures
        b == is_leap(year as int),
{
    let z: u64 = (year as i64 + 400000) as u64;
    proof {
        vstd::arithmetic::div_mod::lemma_mod_multiples_vanish(100000, year as int, 4);
        vstd::arithmetic::div_mod::lemma_mod_multiples_vanish(4000, year as int, 100);
        vstd::arithmetic::div_mod::lemma_mod_multiples_vanish(1000, year as int, 400);
    }
    (z % 4 == 0 && z % 100 != 0) || z % 400 == 0
}

/// Number of days in the month.
pub fn month_length(year: i32, month: u32) -> (n: u32)
    requires
        MIN_YEAR <= year <= MAX_YEAR,
    ensures
        n == days_in_month(year as int, month as int),
{
    if month == 2 {
        if leap_year(year) {
            29
        } else {
            28
        }
    } else if month == 4 || month == 6 || month == 9 || month == 11 {
        30
    } else {
        31
    }
}

impl Date {
    /// The date with that year, month and day, if it is a real date within the
    /// supported years.
    pub fn from_ymd(year: i32, month: u32, day: u32) -> (r: Option<Date>)
        ensures
            r is Some <==> valid_ymd((year as int, month as int, day as int)),
            r matches Some(d) ==> d@ == (year as int, month as int, day as int),
    {
        if is_valid_ymd(year, month, day) {
            Some(Date { year, month, day })
        } else {
            None
        }
    }

    pub fn year(&self) -> (r: i32)
        ensures
            r == self@.0,
    {
        proof {
            use_type_invariant(self);
        }
        self.year
    }

    pub fn month(&self) -> (r: u32)
        ensures
            r == self@.1,
    {
        proof {
            use_type_invariant(self);
        }
        self.month
    }

    pub fn day(&self) -> (r: u32)
        ensures
            r == self@.2,
    {
        proof {
            use_type_invariant(self);
        }
        self.day
    }

    /// Whether `self` comes strictly before `other`.
    pub fn is_before(&self, other: &Date) -> (b: bool)
        ensures
            b == date_lt(self@, other@),
    {
        let (a, b) = (self.ymd(), other.ymd());
        a.0 < b.0 || (a.0 == b.0 && (a.1 < b.1 || (a.1 == b.1 && a.2 < b.2)))
    }

    /// Whether the two dates are the same day.
    pub fn same_day(&self, other: &Date) -> (b: bool)
        ensures
            b == (self@ == other@),
    {
        let (a, b) = (self.ymd(), other.ymd());
        a.0 == b.0 && a.1 == b.1 && a.2 == b.2
    }

    fn ymd(&self) -> (r: (i32, u32, u32))
        ensures
            (r.0 as int, r.1 as int, r.2 as int) == self@,
    {
        (self.year(), self.month(), self.day())
    }

    /// The next day, or `None` after the last supported date.
    pub fn succ(&self) -> (r: Option<Date>)
        ensures
            r is None <==> self@ == last_date(),
            r matches Some(n) ==> n@ == next_day(self@),
    {
        let (y, m, d) = self.ymd();
        proof {
            lemma_date_valid(*self);
        }
        if d < month_length(y, m) {
            Some(Date { year: y, month: m, day: d + 1 })
        } else if m < 12 {
            let r = Date { year: y, month: m + 1, day: 1 };
            Some(r)
        } else if y < MAX_YEAR {
            let r = Date { year: y + 1, month: 1, day: 1 };
            Some(r)
        } else {
            None
        }
    }
}

/// What chrono's `NaiveDate::parse_from_str` with "%Y-%m-%d" gives for a text,
/// as (year, month, day).
pub uninterp spec fn chrono_parse_ymd(s: Seq<char>) -> Option<(i32, u32, u32)>;

/// A text in the plain form "YYYY-MM-DD": four digits, a dash, two digits, a
/// dash, two digits, and nothing more.
pub open spec fn iso_form(s: Seq<char>) -> bool {
    &&& s.len() == 10
    &&& crate::num::all_digits(s.subrange(0, 4))
    &&& s[4] == '-'
    &&& crate::num::all_digits(s.subrange(5, 7))
    &&& s[7] == '-'
    &&& crate::num::all_digits(s.subrange(8, 10))
}

/// The year, month and day that a text of the form "YYYY-MM-DD" writes.
pub open spec fn iso_fields(s: Seq<char>) -> (int, int, int) {
    (
        crate::num::digits_value(s.subrange(0, 4)) as int,
        crate::num::digits_value(s.subrange(5, 7)) as int,
        crate::num::digits_value(s.subrange(8, 10)) as int,
    )
}

/// `NaiveDate::parse_from_str(s, "%Y-%m-%d")`, read back as (year, month,
/// day). The result is named by `chrono_parse_ymd`. A `NaiveDate` is always a
/// real date in chrono's year range. Of the text, only the plain form
/// "YYYY-MM-DD" is stated: chrono reads its four, two and two digits as the
/// year, the month (refused outside 1 to 12) and the day, and gives the date
/// exactly when it exists. What other texts give (signs, shorter fields,
/// longer years) is left unsaid.
#[verifier::external_body]
fn chrono_parse(s: &str) -> (r: Option<(i32, u32, u32)>)
    ensures
        r == chrono_parse_ymd(s@),
        r matches Some(t) ==> valid_ymd((t.0 as int, t.1 as int, t.2 as int)),
        iso_form(s@) ==> (r is Some <==> valid_ymd(iso_fields(s@))),
        iso_form(s@) ==> (r matches Some(t) ==> (t.0 as int, t.1 as int, t.2 as int) == iso_fields(s@)),
{
    chrono::NaiveDate::parse_from_str(s, "%Y-%m-%d").ok().map(|d| (d.year(), d.month(), d.day()))
}

impl Date {
    /// The date an ISO text denotes, as chrono reads it.
    pub open spec fn parse_iso_spec(s: Seq<char>) -> Option<(int, int, int)> {
        match chrono_parse_ymd(s) {
            Some((y, m, d)) => Some((y as int, m as int, d as int)),
            None => None,
        }
    }

    /// The date an ISO text ("2020-01-10") denotes, as chrono reads it.
    pub fn parse_iso(s: &str) -> (r: Option<Date>)
        ensures
            r is Some <==> Date::parse_iso_spec(s@) is Some,
            r matches Some(d) ==> Some(d@) == Date::parse_iso_spec(s@),
            iso_form(s@) ==> (r is Some <==> valid_ymd(iso_fields(s@))),
            iso_form(s@) ==> (r matches Some(d) ==> d@ == iso_fields(s@)),
    {
        match chrono_parse(s) {
            Some((y, m, d)) => Some(Date { year: y, month: m, day: d }),
            None => None,
        }
    }
}

/// A four-digit, zero-padded year.
pub open spec fn pad4(y: nat) -> Seq<char> {
    if y < 10 {
        seq!['0', '0', '0'] + decimal(y)
    } else if y < 100 {
        seq!['0', '0'] + decimal(y)
    } else if y < 1000 {
        seq!['0'] + decimal(y)
    } else {
        decimal(y)
    }
}

/// The year as chrono's `%Y` writes it: zero-padded to four digits for
/// years 0 to 9999, otherwise with a sign before at least four digits.
pub open spec fn year_text(y: int) -> Seq<char> {
    if 0 <= y <= 9999 {
        pad4(y as nat)
    } else if y < 0 {
        seq!['-'] + pad4((-y) as nat)
    } else {
        seq!['+'] + pad4(y as nat)
    }
}

/// The format strings the library writes dates with.
pub open spec fn date_format_ok(fmt: Seq<char>) -> bool {
    fmt == "%Y%m%d"@ || fmt == "%Y-%m-%d"@ || fmt == "%Y%m"@
}

/// A date written with one of the formats "%Y%m%d", "%Y-%m-%d" or "%Y%m":
/// `%Y` the year, `%m` and `%d` the month and day on two digits.
pub open spec fn date_text(d: (int, int, int), fmt: Seq<char>) -> Seq<char> {
    if fmt == "%Y%m%d"@ {
        year_text(d.0) + pad2(d.1 as nat) + pad2(d.2 as nat)
    } else if fmt == "%Y-%m-%d"@ {
        year_text(d.0) + seq!['-'] + pad2(d.1 as nat) + seq!['-'] + pad2(d.2 as nat)
    } else {
        year_text(d.0) + pad2(d.1 as nat)
    }
}

/// `NaiveDate::format(fmt).to_string()` for one of the three formats above.
/// What it writes is stated in full: chrono writes `%Y` through its
/// `write_year` (four digits for years 0 to 9999, else `{:+05}`), and `%m`
/// and `%d` on two zero-padded digits.
#[verifier::external_body]
fn chrono_format_date(year: i32, month: u32, day: u32, fmt: &str) -> (r: String)
    requires
        valid_ymd((year as int, month as int, day as int)),
        date_format_ok(fmt@),
    ensures
        r@ == date_text((year as int, month as int, day as int), fmt@),
{
    match chrono::NaiveDate::from_ymd_opt(year, month, day) {
        Some(d) => d.format(fmt).to_string(),
        None => String::new(),
    }
}

impl Date {
    /// The date written with "%Y%m%d", "%Y-%m-%d" or "%Y%m".
    pub fn format(&self, fmt: &str) -> (r: String)
        requires
            date_format_ok(fmt@),
        ensures
            r@ == date_text(self@, fmt@),
    {
        let (y, m, d) = self.ymd();
        proof {
            lemma_date_valid(*self);
        }
        chrono_format_date(y, m, d, fmt)
    }
}

/// The date `n` days after `d`.
pub open spec fn days_after(d: (int, int, int), n: nat) -> (int, int, int)
    decreases n,
{
    if n == 0 {
        d
    } else {
        days_after(next_day(d), (n - 1) as nat)
    }
}

/// The UTC calendar date of a non-negative UNIX timestamp: whole days of
/// 86400 seconds counted from 1970-01-01.
pub open spec fn timestamp_date(secs: int) -> (int, int, int) {
    days_after((1970, 1, 1), (secs / 86400) as nat)
}

/// The system clock as seconds and nanoseconds since 1970-01-01 00:00 UTC
/// (`SystemTime::now().duration_since(UNIX_EPOCH)`), or `None` when the clock
/// reads before that instant. Which instant it reads, nothing states; std
/// documents the nanosecond part as always under one billion.
#[verifier::external_body]
fn clock_since_epoch() -> (r: Option<(u64, u32)>)
    ensures
        r matches Some(t) ==> t.1 < 1_000_000_000,
{
    match std::time::SystemTime::now().duration_since(std::time::UNIX_EPOCH) {
        Ok(d) => Some((d.as_secs(), d.subsec_nanos())),
        Err(_) => None,
    }
}

/// chrono's `DateTime::from_timestamp(secs, nanos)`, read as the (year,
/// month, day) of its UTC date. chrono counts `secs` as non-leap seconds since
/// 1970-01-01 00:00 UTC, so the day is `secs / 86400` days after that date;
/// with a nanosecond part under one billion it returns a date exactly when
/// that day lies within its years, which are those of `Date`.
#[verifier::external_body]
fn chrono_timestamp_date(secs: i64, nanos: u32) -> (r: Option<(i32, u32, u32)>)
    requires
        secs >= 0,
        nanos < 1_000_000_000,
    ensures
        r is Some <==> valid_ymd(timestamp_date(secs as int)),
        r matches Some(t) ==> (t.0 as int, t.1 as int, t.2 as int) == timestamp_date(secs as int),
{
    match chrono::DateTime::from_timestamp(secs, nanos) {
        Some(t) => Some((t.year(), t.month(), t.day())),
        None => None,
    }
}

/// The UTC date of a clock reading of `secs` seconds and `nanos`
/// nanoseconds since 1970-01-01 00:00 UTC: the day `secs / 86400` days after
/// that date, when it is a supported date and `secs` fits an `i64` as chrono
/// takes it.
pub fn date_of_clock(secs: u64, nanos: u32) -> (r: Option<Date>)
    requires
        nanos < 1_000_000_000,
    ensures
        r is Some <==> secs <= i64::MAX && valid_ymd(timestamp_date(secs as int)),
        r matches Some(d) ==> d@ == timestamp_date(secs as int),
{
    if secs > 9_223_372_036_854_775_807u64 {
        return None;
    }
    let s: i64 = secs as i64;
    match chrono_timestamp_date(s, nanos) {
        Some((y, m, d)) => {
            let r = Date { year: y, month: m, day: d };
            assert(r@ == timestamp_date(s as int));
            Some(r)
        },
        None => None,
    }
}

/// Today's date in UTC, from the system clock: the day of its UNIX
/// timestamp (see `date_of_clock`). `None` when the clock reads before
/// 1970-01-01 or past the last supported date. Which instant the clock
/// reads, nothing states.
pub fn today() -> (r: Option<Date>)
    ensures
        r matches Some(d) ==> exists|secs: int| secs >= 0 && d@ == timestamp_date(secs),
{
    match clock_since_epoch() {
        Some((secs, nanos)) => date_of_clock(secs, nanos),
        None => None,
    }
}

/// The dates from `dapo` to `deos`, day after day.
pub open spec fn days_from(d: (int, int, int), deos: (int, int, int), fuel: nat) -> Seq<
    (int, int, int),
>
    decreases fuel,
{
    if fuel == 0 || date_lt(deos, d) {
        Seq::empty()
    } else {
        seq![d] + days_from(next_day(d), deos, (fuel - 1) as nat)
    }
}

/// No valid date lies strictly between a date and the next one.
pub proof fn lemma_next_day_immediate(a: (int, int, int), b: (int, int, int))
    requires
        valid_ymd(a),
        valid_ymd(b),
        date_lt(a, b),
    ensures
        date_le(next_day(a), b),
{
}

/// All dates from `dapo` to `deos` inclusive. The day after the last one must
/// exist: `deos` may not be the last supported date.
pub fn days_list(dapo: Date, deos: Date) -> (r: Vec<Date>)
    requires
        date_lt(deos@, dapo@) || deos@ != last_date(),
    ensures
        forall|i: int| 0 <= i < r@.len() ==> date_le(dapo@, #[trigger] r@[i]@) && date_le(r@[i]@, deos@),
        forall|i: int| 0 <= i < r@.len() - 1 ==> #[trigger] r@[i + 1]@ == next_day(r@[i]@),
        r@.len() > 0 ==> r@[0]@ == dapo@ && r@.last()@ == deos@,
        r@.len() == 0 <==> date_lt(deos@, dapo@),
{
    let mut dlist: Vec<Date> = Vec::new();
    let mut day = dapo;
    proof {
        lemma_date_valid(dapo);
        lemma_date_valid(deos);
    }
    while !deos.is_before(&day)
        invariant
            date_lt(deos@, dapo@) || deos@ != last_date(),
            valid_ymd(deos@),
            date_le(dapo@, day@),
            dlist@.len() > 0 ==> dlist@[0]@ == dapo@ && next_day(dlist@.last()@) == day@ && date_le(dlist@.last()@, deos@),
            dlist@.len() == 0 ==> day@ == dapo@,
            forall|i: int| 0 <= i < dlist@.len() ==> date_le(dapo@, #[trigger] dlist@[i]@) && date_le(dlist@[i]@, deos@),
            forall|i: int| 0 <= i < dlist@.len() - 1 ==> #[trigger] dlist@[i + 1]@ == next_day(dlist@[i]@),
        decreases (MAX_YEAR - day@.0) * 400 + (12 - day@.1) * 32 + (32 - day@.2),
    {
        proof {
            lemma_date_valid(day);
        }
        dlist.push(day);
        match day.succ() {
            Some(n) => {
                proof {
                    lemma_date_valid(n);
                }
                day = n;
            },
            None => {
                // `day` is the last supported date, which `deos` is not, and
                // `deos` is not before it: impossible.
                proof {
                    assert(false);
                }
            },
        }
    }
    proof {
        if dlist@.len() > 0 {
            let last = dlist@.last()@;
            lemma_date_valid(dlist@.last());
            if date_lt(last, deos@) {
                lemma_next_day_immediate(last, deos@);
            }
        }
    }
    dlist
}

/// A date as the integer YYYYMMDD.
pub open spec fn date_int(d: (int, int, int)) -> int {
    d.0 * 10000 + d.1 * 100 + d.2
}

/// ISO date to integer YYYYMMDD; the result must fit an `i32`.
pub fn date2int(dat: Date) -> (r: i32)
    requires
        i32::MIN <= date_int(dat@) <= i32::MAX,
    ensures
        r == date_int(dat@),
{
    let (y, m, d) = dat.ymd();
    proof {
        lemma_date_valid(dat);
    }
    y * 10000 + (m as i32) * 100 + d as i32
}

} // verus!
