//! Maps dates to text keys used for time-series grouping.

use vstd::prelude::*;

use crate::date::{date_text, lemma_date_valid, valid_ymd, Date};
use crate::num::{decimal, digit_char, digit_val, int_text, int_text_exec, is_digit, pad2, pad2_exec, char_of_digit};
use crate::text::{extend_chars, string_of};

verus! {

/// How dates are grouped in a time series.
#[derive(Debug, Clone, Copy, PartialEq, Eq)]
pub enum Grouping {
    YearMonth,
    Year,
    Trimino,
    Tetramino,
    Ejamino,
}

/// Remainder of a division that rounds toward zero, as Rust's `%` computes it.
pub open spec fn trunc_rem(a: int, b: int) -> int {
    if a >= 0 {
        a % b
    } else {
        -((-a) % b)
    }
}

/// A signed integer as `{:02}` writes it: zero-padded to two characters,
/// the sign counting as one.
pub open spec fn zpad2(i: int) -> Seq<char> {
    if i < 0 {
        seq!['-'] + decimal((-i) as nat)
    } else {
        pad2(i as nat)
    }
}

/// Two-digit year as the group keys start with.
pub open spec fn yy(d: (int, int, int)) -> Seq<char> {
    zpad2(trunc_rem(d.0, 100))
}

pub open spec fn quarter(d: (int, int, int)) -> nat {
    ((d.1 - 1) / 3 + 1) as nat
}

pub open spec fn fourmonth(d: (int, int, int)) -> nat {
    ((d.1 - 1) / 4 + 1) as nat
}

pub open spec fn halfyear(d: (int, int, int)) -> nat {
    if d.1 <= 6 {
        1
    } else {
        2
    }
}

/// The key of a date under a grouping.
pub open spec fn group_key(g: Grouping, d: (int, int, int)) -> Seq<char> {
    match g {
        Grouping::YearMonth => yy(d) + pad2(d.1 as nat),
        Grouping::Year => int_text(d.0),
        Grouping::Trimino => yy(d) + decimal(quarter(d)),
        Grouping::Tetramino => yy(d) + decimal(fourmonth(d)),
        Grouping::Ejamino => yy(d) + decimal(halfyear(d)),
    }
}

/// The key of a date under a grouping into periods of `len` months: the
/// two-digit year, then one digit `q`, the period whose months
/// `(q - 1) * len + 1 ..= q * len` hold the date's month.
pub open spec fn period_key(k: Seq<char>, d: (int, int, int), len: int) -> bool {
    &&& k.len() == yy(d).len() + 1
    &&& k.take(yy(d).len() as int) == yy(d)
    &&& is_digit(k.last())
    &&& (digit_val(k.last()) - 1) * len < d.1 <= digit_val(k.last()) * len
}

proof fn lemma_one_digit(q: nat)
    requires
        1 <= q <= 9,
    ensures
        decimal(q) == seq![digit_char(q)],
        is_digit(digit_char(q)),
        digit_val(digit_char(q)) == q,
{
}

proof fn lemma_key_with_digit(d: (int, int, int), q: nat)
    requires
        1 <= q <= 9,
    ensures
        (yy(d) + decimal(q)).len() == yy(d).len() + 1,
        (yy(d) + decimal(q)).take(yy(d).len() as int) == yy(d),
        is_digit((yy(d) + decimal(q)).last()),
        digit_val((yy(d) + decimal(q)).last()) == q,
{
    lemma_one_digit(q);
    assert((yy(d) + decimal(q)).take(yy(d).len() as int) =~= yy(d));
}

/// A quarter holds three months: January to March is quarter 1, April to
/// June 2, July to September 3, October to December 4.
pub proof fn lemma_quarter_key(d: (int, int, int))
    requires
        valid_ymd(d),
    ensures
        period_key(group_key(Grouping::Trimino, d), d, 3),
{
    lemma_key_with_digit(d, quarter(d));
}

/// A four-month period holds four months: January to April is period 1, May
/// to August 2, September to December 3.
pub proof fn lemma_fourmonth_key(d: (int, int, int))
    requires
        valid_ymd(d),
    ensures
        period_key(group_key(Grouping::Tetramino, d), d, 4),
{
    lemma_key_with_digit(d, fourmonth(d));
}

/// A half year holds six months: January to June is half 1, July to
/// December half 2.
pub proof fn lemma_halfyear_key(d: (int, int, int))
    requires
        valid_ymd(d),
    ensures
        period_key(group_key(Grouping::Ejamino, d), d, 6),
{
    lemma_key_with_digit(d, halfyear(d));
}

/// Two dates of the same year fall in the same period key exactly when their
/// months lie in the same block of `len` months counted from January.
pub proof fn lemma_same_period(g: Grouping, d1: (int, int, int), d2: (int, int, int))
    requires
        valid_ymd(d1),
        valid_ymd(d2),
        d1.0 == d2.0,
        g == Grouping::Trimino || g == Grouping::Tetramino || g == Grouping::Ejamino,
    ensures
        ({
            let len: int = if g == Grouping::Trimino {
                3
            } else if g == Grouping::Tetramino {
                4
            } else {
                6
            };
            group_key(g, d1) == group_key(g, d2) <==> (d1.1 - 1) / len == (d2.1 - 1) / len
        }),
{
    let len: int = if g == Grouping::Trimino {
        3
    } else if g == Grouping::Tetramino {
        4
    } else {
        6
    };
    if g == Grouping::Trimino {
        lemma_quarter_key(d1);
        lemma_quarter_key(d2);
    } else if g == Grouping::Tetramino {
        lemma_fourmonth_key(d1);
        lemma_fourmonth_key(d2);
    } else {
        lemma_halfyear_key(d1);
        lemma_halfyear_key(d2);
    }
    let k1 = group_key(g, d1);
    let k2 = group_key(g, d2);
    let q1 = digit_val(k1.last()) as int;
    let q2 = digit_val(k2.last()) as int;
    assert(yy(d1) == yy(d2));
    assert((d1.1 - 1) / len == q1 - 1) by (nonlinear_arith)
        requires
            (q1 - 1) * len < d1.1 <= q1 * len,
            len >= 1,
    {
        vstd::arithmetic::div_mod::lemma_fundamental_div_mod_converse(d1.1 - 1, len, q1 - 1, d1.1 - 1 - (q1 - 1) * len);
    }
    assert((d2.1 - 1) / len == q2 - 1) by (nonlinear_arith)
        requires
            (q2 - 1) * len < d2.1 <= q2 * len,
            len >= 1,
    {
        vstd::arithmetic::div_mod::lemma_fundamental_div_mod_converse(d2.1 - 1, len, q2 - 1, d2.1 - 1 - (q2 - 1) * len);
    }
    if q1 == q2 {
        assert(k1 =~= k2) by {
            assert(k1 =~= k1.take(yy(d1).len() as int).push(k1.last()));
            assert(k2 =~= k2.take(yy(d2).len() as int).push(k2.last()));
            assert(k1.last() == k2.last()) by {
                assert(is_digit(k1.last()) && is_digit(k2.last()));
            }
        }
    }
}

impl Grouping {
    /// The key of `dat` under this grouping.
    pub fn group(self, dat: Date) -> (r: String)
        ensures
            r@ == group_key(self, dat@),
    {
        match self {
            Grouping::YearMonth => date2year_month(dat),
            Grouping::Year => date2year(dat),
            Grouping::Trimino => date2trimino(dat),
            Grouping::Tetramino => date2tetramino(dat),
            Grouping::Ejamino => date2ejamino(dat),
        }
    }
}

fn yy_exec(dat: Date) -> (r: Vec<char>)
    ensures
        r@ == yy(dat@),
{
    let y = dat.year();
    let r = y % 100;
    if r < 0 {
        int_text_exec(r as i128)
    } else {
        pad2_exec(r as u128)
    }
}

fn with_digit(mut v: Vec<char>, d: u32) -> (r: String)
    requires
        1 <= d <= 9,
    ensures
        r@ == v@ + decimal(d as nat),
{
    let c = char_of_digit(d);
    v.push(c);
    assert(decimal(d as nat) =~= seq![c]);
    string_of(&v)
}

/// "2021-12-16" -> "20211216"
pub fn date2date(dat: Date) -> (r: String)
    ensures
        r@ == date_text(dat@, "%Y%m%d"@),
{
    dat.format("%Y%m%d")
}

/// "2021-12-16" -> "2112"
pub fn date2year_month(dat: Date) -> (r: String)
    ensures
        r@ == group_key(Grouping::YearMonth, dat@),
{
    let mut v = yy_exec(dat);
    let m = pad2_exec(dat.month() as u128);
    extend_chars(&mut v, &m);
    string_of(&v)
}

/// "2021-12-16" -> "2021"
pub fn date2year(dat: Date) -> (r: String)
    ensures
        r@ == group_key(Grouping::Year, dat@),
{
    let v = int_text_exec(dat.year() as i128);
    string_of(&v)
}

/// "2021-12-16" -> "214"  (year 21, quarter 4)
pub fn date2trimino(dat: Date) -> (r: String)
    ensures
        r@ == group_key(Grouping::Trimino, dat@),
{
    proof {
        lemma_date_valid(dat);
    }
    with_digit(yy_exec(dat), (dat.month() - 1) / 3 + 1)
}

/// "2021-12-16" -> "213"  (year 21, third 4-month period)
pub fn date2tetramino(dat: Date) -> (r: String)
    ensures
        r@ == group_key(Grouping::Tetramino, dat@),
{
    proof {
        lemma_date_valid(dat);
    }
    with_digit(yy_exec(dat), (dat.month() - 1) / 4 + 1)
}

/// "2021-12-16" -> "212"  (year 21, half-year 2)
pub fn date2ejamino(dat: Date) -> (r: String)
    ensures
        r@ == group_key(Grouping::Ejamino, dat@),
{
    proof {
        lemma_date_valid(dat);
    }
    let h: u32 = if dat.month() <= 6 {
        1
    } else {
        2
    };
    with_digit(yy_exec(dat), h)
}

} // verus!
