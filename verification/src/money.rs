//! Amounts of money in cents, written and read in the Greek style
//! ("1.234,56": a dot between thousands, a comma before the cents).

use vstd::prelude::*;

use crate::num::{
    all_digits, all_digits_exec, char_of_digit, decimal, decimal_exec, digit_char, digit_val,
    digits_value, digits_value_upto, is_digit, lemma_decimal_digits, pad2, pad2_exec, parse_signed,
    pow10, slice_from, slice_range,
};
use crate::text::{chars_of, find_char, find_char_exec, push_char, replace_char, string_of};
use crate::utils::{gr2strdec, gr2strdec_spec};

verus! {

/// The first `i` digits of `ds` with a dot before every digit that starts a
/// group of three counted from the right.
pub open spec fn grouped_prefix(ds: Seq<char>, i: nat) -> Seq<char>
    decreases i,
{
    if i == 0 {
        Seq::empty()
    } else {
        let k = (i - 1) as int;
        grouped_prefix(ds, (i - 1) as nat) + (if k > 0 && (ds.len() - k) % 3 == 0 {
            seq!['.', ds[k]]
        } else {
            seq![ds[k]]
        })
    }
}

/// The digits with thousands separated by dots.
pub open spec fn grouped(ds: Seq<char>) -> Seq<char> {
    grouped_prefix(ds, ds.len())
}

/// Absolute value.
pub open spec fn abs(c: int) -> nat {
    if c < 0 {
        (-c) as nat
    } else {
        c as nat
    }
}

/// The sign as written: a minus for negative amounts.
pub open spec fn sign_text(c: int) -> Seq<char> {
    if c < 0 {
        seq!['-']
    } else {
        Seq::empty()
    }
}

/// The whole units of an amount, grouped by thousands.
pub open spec fn units_text(c: int) -> Seq<char> {
    grouped(decimal(abs(c) / 100))
}

/// What `f2gr` writes: nothing for zero, else "1.234,56" with a leading minus
/// for negative amounts.
pub open spec fn f2gr_spec(c: int) -> Seq<char> {
    if c == 0 {
        Seq::empty()
    } else {
        sign_text(c) + units_text(c) + seq![','] + pad2(abs(c) % 100)
    }
}

/// What `gr_num` writes: like `f2gr`, but zero is "0   " and trailing zero
/// decimals are blanked (with the comma when both are zero).
pub open spec fn gr_num_spec(c: int) -> Seq<char> {
    let d = abs(c) % 100;
    let d0 = d / 10;
    let d1 = d % 10;
    let tail = if d1 != 0 {
        seq![',', digit_char(d0), digit_char(d1)]
    } else if d0 != 0 {
        seq![',', digit_char(d0), ' ']
    } else {
        seq![' ', ' ', ' ']
    };
    sign_text(c) + units_text(c) + tail
}

/// The cents denoted by plain decimal digits: whole units `ip` and a fraction
/// `fp`, rounded half away from zero at the third fraction digit.
pub open spec fn cents_of(ip: Seq<char>, fp: Seq<char>) -> int {
    let d0: int = if fp.len() > 0 {
        digit_val(fp[0]) as int
    } else {
        0
    };
    let d1: int = if fp.len() > 1 {
        digit_val(fp[1]) as int
    } else {
        0
    };
    let up: int = if fp.len() > 2 && digit_val(fp[2]) >= 5 {
        1
    } else {
        0
    };
    digits_value(ip) * 100 + d0 * 10 + d1 + up
}

/// `n` zero digits.
pub open spec fn zeros(n: nat) -> Seq<char> {
    Seq::new(n, |i: int| '0')
}

/// The whole part and the fraction of the number `ip.fp` with its decimal
/// point moved `e` places to the right (to the left for a negative `e`).
pub open spec fn shift_point(ip: Seq<char>, fp: Seq<char>, e: int) -> (Seq<char>, Seq<char>) {
    let ds = ip + fp;
    let p = ip.len() + e;
    if p <= 0 {
        (Seq::empty(), zeros((-p) as nat) + ds)
    } else if p <= ds.len() {
        (ds.take(p), ds.skip(p))
    } else {
        (ds + zeros((p - ds.len()) as nat), Seq::empty())
    }
}

/// Where the exponent of a number text is marked: its first `e` or `E`.
pub open spec fn exp_mark(s: Seq<char>) -> Option<int> {
    match find_char(s, 'e') {
        Some(a) => match find_char(s, 'E') {
            Some(b) => Some(if a < b {
                a
            } else {
                b
            }),
            None => Some(a),
        },
        None => find_char(s, 'E'),
    }
}

/// The mantissa of a number text and its exponent (0 when none is marked;
/// `None` when the marked one is not a signed integer).
pub open spec fn split_exponent(body: Seq<char>) -> (Seq<char>, Option<int>) {
    match exp_mark(body) {
        Some(k) => (body.take(k), parse_signed(body.skip(k + 1))),
        None => (body, Some(0int)),
    }
}

/// The digits before and after the first point of a mantissa.
pub open spec fn split_point(mant: Seq<char>) -> (Seq<char>, Seq<char>) {
    match find_char(mant, '.') {
        Some(k) => (mant.take(k), mant.skip(k + 1)),
        None => (mant, Seq::<char>::empty()),
    }
}

/// A decimal text read as cents, in the form `str::parse::<f64>` reads a
/// finite number: an optional sign, digits with at most one point and at
/// least one digit, then optionally `e` or `E` and a signed integer
/// exponent; the amount rounded to the cent.
pub open spec fn decimal_cents(t: Seq<char>) -> Option<int> {
    if t.len() == 0 {
        None
    } else {
        let neg = t[0] == '-';
        let body = if t[0] == '-' || t[0] == '+' {
            t.drop_first()
        } else {
            t
        };
        let (mant, ex) = split_exponent(body);
        let (ip, fp) = split_point(mant);
        if ex is None || !all_digits(ip) || !all_digits(fp) || ip.len() + fp.len() == 0 {
            None
        } else {
            let (i2, f2) = shift_point(ip, fp, ex->0);
            if neg {
                Some(-cents_of(i2, f2))
            } else {
                Some(cents_of(i2, f2))
            }
        }
    }
}

/// What `gr2float` gives: the Greek number text read as cents, when it is a
/// number that fits an `i64`.
pub open spec fn gr2cents_spec(s: Seq<char>) -> Option<i64> {
    match decimal_cents(gr2strdec_spec(s)) {
        Some(v) => if i64::MIN <= v <= i64::MAX {
            Some(v as i64)
        } else {
            None
        },
        None => None,
    }
}

// ------------------------------------------------------------------ laws

pub proof fn lemma_replace_concat(a: Seq<char>, b: Seq<char>, c: char, r: Seq<char>)
    ensures
        replace_char(a + b, c, r) == replace_char(a, c, r) + replace_char(b, c, r),
    decreases b.len(),
{
    if b.len() == 0 {
        assert(a + b =~= a);
        assert(replace_char(a, c, r) + replace_char(b, c, r) =~= replace_char(a, c, r));
    } else {
        lemma_replace_concat(a, b.drop_last(), c, r);
        assert((a + b).drop_last() =~= a + b.drop_last());
        assert((a + b).last() == b.last());
    }
}

pub proof fn lemma_replace_absent(s: Seq<char>, c: char, r: Seq<char>)
    requires
        forall|i: int| 0 <= i < s.len() ==> s[i] != c,
    ensures
        replace_char(s, c, r) == s,
    decreases s.len(),
{
    if s.len() > 0 {
        lemma_replace_absent(s.drop_last(), c, r);
        assert(s.drop_last() + seq![s.last()] =~= s);
    }
}

pub proof fn lemma_replace_single(x: char, c: char, r: Seq<char>)
    ensures
        replace_char(seq![x], c, r) == (if x == c {
            r
        } else {
            seq![x]
        }),
{
    assert(seq![x].drop_last() =~= Seq::<char>::empty());
    assert(seq![x].last() == x);
    assert(replace_char(Seq::<char>::empty(), c, r) == Seq::<char>::empty());
    assert(Seq::<char>::empty() + r =~= r);
    assert(Seq::<char>::empty() + seq![x] =~= seq![x]);
}

/// Dropping the group dots gives the digits back; no comma appears.
proof fn lemma_grouped_prefix(ds: Seq<char>, i: nat)
    requires
        i <= ds.len(),
        all_digits(ds),
    ensures
        replace_char(grouped_prefix(ds, i), '.', Seq::empty()) == ds.take(i as int),
        forall|j: int| 0 <= j < grouped_prefix(ds, i).len() ==> grouped_prefix(ds, i)[j] != ',',
    decreases i,
{
    if i == 0 {
        assert(ds.take(0) =~= Seq::<char>::empty());
    } else {
        let k = (i - 1) as int;
        lemma_grouped_prefix(ds, (i - 1) as nat);
        let prev = grouped_prefix(ds, (i - 1) as nat);
        assert(is_digit(ds[k]));
        let piece = if k > 0 && (ds.len() - k) % 3 == 0 {
            seq!['.', ds[k]]
        } else {
            seq![ds[k]]
        };
        lemma_replace_concat(prev, piece, '.', Seq::empty());
        lemma_replace_single(ds[k], '.', Seq::empty());
        if k > 0 && (ds.len() - k) % 3 == 0 {
            lemma_replace_concat(seq!['.'], seq![ds[k]], '.', Seq::empty());
            assert(seq!['.'] + seq![ds[k]] =~= piece);
            lemma_replace_single('.', '.', Seq::empty());
            assert(Seq::<char>::empty() + seq![ds[k]] =~= seq![ds[k]]);
        }
        assert(ds.take(i as int) =~= ds.take(k) + seq![ds[k]]);
        assert(grouped_prefix(ds, i) == prev + piece);
    }
}

pub proof fn lemma_pad2(d: nat)
    requires
        d < 100,
    ensures
        pad2(d).len() == 2,
        all_digits(pad2(d)),
        digit_val(pad2(d)[0]) * 10 + digit_val(pad2(d)[1]) == d,
{
    if d >= 10 {
        assert(decimal(d / 10) == seq![digit_char(d / 10)]);
        assert(decimal(d) =~= seq![digit_char(d / 10), digit_char(d % 10)]);
    }
}

proof fn lemma_digits_free_of(s: Seq<char>, c: char)
    requires
        all_digits(s),
        !is_digit(c),
    ensures
        forall|i: int| 0 <= i < s.len() ==> s[i] != c,
{
    assert forall|i: int| 0 <= i < s.len() implies s[i] != c by {
        assert(is_digit(s[i]));
    }
}

/// `gr2strdec` of what `f2gr` writes: sign, plain digits, a point, the cents.
proof fn lemma_strdec_f2gr(c: int)
    requires
        c != 0,
    ensures
        gr2strdec_spec(f2gr_spec(c)) == sign_text(c) + decimal(abs(c) / 100) + seq!['.'] + pad2(
            abs(c) % 100,
        ),
{
    let ds = decimal(abs(c) / 100);
    let sg = sign_text(c);
    let p2 = pad2(abs(c) % 100);
    let e = Seq::<char>::empty();
    let f = sg + grouped(ds) + seq![','] + p2;
    lemma_decimal_digits(abs(c) / 100);
    lemma_pad2(abs(c) % 100);
    lemma_grouped_prefix(ds, ds.len());
    assert(ds.take(ds.len() as int) =~= ds);
    lemma_replace_concat(sg + grouped(ds) + seq![','], p2, '.', e);
    lemma_replace_concat(sg + grouped(ds), seq![','], '.', e);
    lemma_replace_concat(sg, grouped(ds), '.', e);
    lemma_replace_absent(sg, '.', e);
    lemma_replace_single(',', '.', e);
    lemma_digits_free_of(p2, '.');
    lemma_replace_absent(p2, '.', e);
    let nodots = sg + ds + seq![','] + p2;
    assert(replace_char(f, '.', e) == nodots);
    lemma_replace_concat(sg + ds + seq![','], p2, ',', seq!['.']);
    lemma_replace_concat(sg + ds, seq![','], ',', seq!['.']);
    lemma_replace_concat(sg, ds, ',', seq!['.']);
    lemma_replace_absent(sg, ',', seq!['.']);
    lemma_digits_free_of(ds, ',');
    lemma_replace_absent(ds, ',', seq!['.']);
    lemma_digits_free_of(p2, ',');
    lemma_replace_absent(p2, ',', seq!['.']);
    lemma_replace_single(',', ',', seq!['.']);
}

/// Every non-zero amount that `f2gr` writes reads back as the same amount.
pub proof fn lemma_f2gr_round_trip(c: i64)
    requires
        c != 0,
    ensures
        gr2cents_spec(f2gr_spec(c as int)) == Some(c),
{
    let ci = c as int;
    let u = abs(ci) / 100;
    let d = abs(ci) % 100;
    let ds = decimal(u);
    let p2 = pad2(d);
    lemma_decimal_digits(u);
    lemma_pad2(d);
    lemma_strdec_f2gr(ci);
    let t = sign_text(ci) + ds + seq!['.'] + p2;
    let body = ds + seq!['.'] + p2;
    if ci < 0 {
        assert(t =~= seq!['-'] + body);
        assert(t.drop_first() =~= body);
    } else {
        assert(t =~= body);
        assert(is_digit(ds[0]));
    }
    assert forall|j: int| 0 <= j < ds.len() implies body[j] != '.' by {
        assert(is_digit(ds[j]));
        assert(body[j] == ds[j]);
    }
    crate::text::lemma_find_char_is(body, '.', Some(ds.len() as int));
    assert forall|j: int| 0 <= j < body.len() implies body[j] != 'e' && body[j] != 'E' by {
        if j < ds.len() {
            assert(body[j] == ds[j]);
            assert(is_digit(ds[j]));
        } else if j > ds.len() {
            assert(body[j] == p2[j - ds.len() - 1]);
            assert(is_digit(p2[j - ds.len() - 1]));
        }
    }
    crate::text::lemma_find_char_is(body, 'e', None);
    crate::text::lemma_find_char_is(body, 'E', None);
    assert(exp_mark(body) is None);
    assert(body.take(ds.len() as int) =~= ds);
    assert(body.skip(ds.len() as int + 1) =~= p2);
    assert((ds + p2).take(ds.len() as int) =~= ds);
    assert((ds + p2).skip(ds.len() as int) =~= p2);
    assert(shift_point(ds, p2, 0) == (ds, p2));
    assert(cents_of(ds, p2) == u * 100 + d);
    assert(decimal_cents(t) == Some(ci));
}

/// `gr_num` writes what `f2gr` writes for a non-zero amount, with trailing
/// zero decimals blanked: ",00" becomes three spaces, a last "0" one space.
pub proof fn lemma_gr_num_from_f2gr(c: int)
    requires
        c != 0,
    ensures
        ({
            let f = f2gr_spec(c);
            let n = f.len() as int;
            gr_num_spec(c) == (if n >= 3 && f.subrange(n - 3, n) == seq![',', '0', '0'] {
                f.take(n - 3) + seq![' ', ' ', ' ']
            } else if n >= 1 && f.last() == '0' {
                f.take(n - 1) + seq![' ']
            } else {
                f
            })
        }),
{
    let d = abs(c) % 100;
    let d0 = d / 10;
    let d1 = d % 10;
    let pre = sign_text(c) + units_text(c);
    let p2 = pad2(d);
    assert(p2 =~= seq![digit_char(d0), digit_char(d1)]) by {
        if d >= 10 {
            assert(decimal(d / 10) == seq![digit_char(d / 10)]);
            assert(decimal(d) =~= seq![digit_char(d / 10), digit_char(d % 10)]);
        }
    }
    assert(digit_char(0) == '0');
    assert(d0 != 0 ==> digit_char(d0) != '0');
    assert(d1 != 0 ==> digit_char(d1) != '0');
    let f = f2gr_spec(c);
    let n = f.len() as int;
    assert(f =~= pre + seq![',', digit_char(d0), digit_char(d1)]);
    assert(f.subrange(n - 3, n) =~= seq![',', digit_char(d0), digit_char(d1)]);
    assert(f.take(n - 3) =~= pre);
    assert(f.take(n - 1) =~= pre + seq![',', digit_char(d0)]);
    if d1 != 0 {
        assert(gr_num_spec(c) =~= f);
    } else if d0 != 0 {
        assert(gr_num_spec(c) =~= f.take(n - 1) + seq![' ']);
    } else {
        assert(gr_num_spec(c) =~= f.take(n - 3) + seq![' ', ' ', ' ']);
    }
}

// ------------------------------------------------------------------ exec

fn grouped_exec(ds: &Vec<char>) -> (r: Vec<char>)
    ensures
        r@ == grouped(ds@),
{
    let n = ds.len();
    let mut out: Vec<char> = Vec::new();
    let mut i: usize = 0;
    while i < n
        invariant
            n == ds@.len(),
            i <= n,
            out@ == grouped_prefix(ds@, i as nat),
        decreases n - i,
    {
        if i > 0 && (n - i) % 3 == 0 {
            out.push('.');
        }
        out.push(ds[i]);
        i = i + 1;
        proof {
            let k = (i - 1) as int;
            if k > 0 && (ds@.len() - k) % 3 == 0 {
                assert(out@ =~= grouped_prefix(ds@, (i - 1) as nat) + seq!['.', ds@[k]]);
            } else {
                assert(out@ =~= grouped_prefix(ds@, (i - 1) as nat) + seq![ds@[k]]);
            }
        }
    }
    out
}

fn abs_u128(c: i128) -> (r: u128)
    ensures
        r == abs(c as int),
{
    if c < 0 {
        if c == i128::MIN {
            (i128::MAX as u128) + 1
        } else {
            (-c) as u128
        }
    } else {
        c as u128
    }
}

/// Sign and grouped whole units of an amount.
fn head_exec(c: i128) -> (r: Vec<char>)
    ensures
        r@ == sign_text(c as int) + units_text(c as int),
{
    let a = abs_u128(c);
    let ds = decimal_exec(a / 100);
    let g = grouped_exec(&ds);
    let mut out: Vec<char> = Vec::new();
    if c < 0 {
        out.push('-');
    }
    let mut i: usize = 0;
    let ghost start = out@;
    while i < g.len()
        invariant
            i <= g@.len(),
            out@ == start + g@.take(i as int),
        decreases g@.len() - i,
    {
        out.push(g[i]);
        i = i + 1;
        assert(out@ =~= start + g@.take(i as int));
    }
    assert(g@.take(g@.len() as int) =~= g@);
    proof {
        if c < 0 {
            assert(start =~= seq!['-']);
        } else {
            assert(start =~= Seq::<char>::empty());
        }
    }
    out
}

/// Format an amount of cents in Greek style: `1.234,56`; zero yields the
/// empty string.
pub fn f2gr(cents: i128) -> (r: String)
    ensures
        r@ == f2gr_spec(cents as int),
{
    if cents == 0 {
        return String::new();
    }
    let mut out = head_exec(cents);
    out.push(',');
    let d = pad2_exec(abs_u128(cents) % 100);
    let mut i: usize = 0;
    let ghost start = out@;
    while i < d.len()
        invariant
            i <= d@.len(),
            out@ == start + d@.take(i as int),
        decreases d@.len() - i,
    {
        out.push(d[i]);
        i = i + 1;
        assert(out@ =~= start + d@.take(i as int));
    }
    assert(d@.take(d@.len() as int) =~= d@);
    string_of(&out)
}

/// Format an amount of cents like `f2gr`, but zero is written "0   " and
/// trailing zero decimals are replaced by spaces: "1.010,34", "0,1 ", "-82   ".
pub fn gr_num(cents: i128) -> (r: String)
    ensures
        r@ == gr_num_spec(cents as int),
{
    let mut out = head_exec(cents);
    let d = abs_u128(cents) % 100;
    let d0 = (d / 10) as u32;
    let d1 = (d % 10) as u32;
    if d1 != 0 {
        out.push(',');
        out.push(char_of_digit(d0));
        out.push(char_of_digit(d1));
    } else if d0 != 0 {
        out.push(',');
        out.push(char_of_digit(d0));
        out.push(' ');
    } else {
        out.push(' ');
        out.push(' ');
        out.push(' ');
    }
    string_of(&out)
}

/// With its point far enough to the left, a number is less than half a
/// cent.
proof fn lemma_shift_far_left(ip: Seq<char>, fp: Seq<char>, e: int)
    requires
        ip.len() + e <= -3,
    ensures
        cents_of(shift_point(ip, fp, e).0, shift_point(ip, fp, e).1) == 0,
{
    let (i2, f2) = shift_point(ip, fp, e);
    assert(i2.len() == 0);
    assert(f2[0] == '0' && f2[1] == '0' && f2[2] == '0');
}

/// Zero digits give zero, wherever the point stands.
proof fn lemma_shift_zero(ip: Seq<char>, fp: Seq<char>, e: int)
    requires
        forall|i: int| 0 <= i < (ip + fp).len() ==> #[trigger] (ip + fp)[i] == '0',
    ensures
        cents_of(shift_point(ip, fp, e).0, shift_point(ip, fp, e).1) == 0,
{
    let ds = ip + fp;
    let (i2, f2) = shift_point(ip, fp, e);
    assert forall|i: int| 0 <= i < i2.len() implies #[trigger] i2[i] == '0' by {
        if ip.len() + e > ds.len() && i >= ds.len() {
        } else {
            assert(i2[i] == ds[i]);
        }
    }
    assert forall|i: int| 0 <= i < f2.len() implies #[trigger] f2[i] == '0' by {
        let p = ip.len() + e;
        if p <= 0 {
            if i >= -p {
                assert(f2[i] == ds[i + p]);
            }
        } else {
            assert(f2[i] == ds[i + p]);
        }
    }
    crate::num::lemma_digits_all_zero(i2);
}

/// With a non-zero digit at `z` and the point 18 places or more past it, the
/// whole part is at least 10^17.
proof fn lemma_shift_far_right(ip: Seq<char>, fp: Seq<char>, e: int, z: int)
    requires
        all_digits(ip + fp),
        0 <= z < (ip + fp).len(),
        (ip + fp)[z] != '0',
        ip.len() + e >= z + 18,
    ensures
        cents_of(shift_point(ip, fp, e).0, shift_point(ip, fp, e).1) >= 10_000_000_000_000_000_000,
{
    let ds = ip + fp;
    let p = ip.len() + e;
    let (i2, f2) = shift_point(ip, fp, e);
    assert(i2.len() == p);
    assert(i2[z] == ds[z]);
    assert(all_digits(i2)) by {
        assert forall|i: int| 0 <= i < i2.len() implies is_digit(#[trigger] i2[i]) by {
            if i < ds.len() {
                assert(i2[i] == ds[i]);
            } else {
                assert(i2[i] == '0');
            }
        }
    }
    let hd = i2.take(z + 1);
    let tl = i2.skip(z + 1);
    assert(hd + tl =~= i2);
    crate::num::lemma_digits_concat(hd, tl);
    assert(hd.last() == ds[z]);
    assert(is_digit(ds[z]));
    assert(digit_val(hd.last()) >= 1);
    assert(digits_value(hd) >= 1);
    crate::num::lemma_pow10_mono(17, tl.len());
    assert(pow10(17) == 100_000_000_000_000_000) by {
        reveal_with_fuel(pow10, 18);
    }
    assert(digits_value(hd) * pow10(tl.len()) >= pow10(tl.len())) by (nonlinear_arith)
        requires
            digits_value(hd) >= 1,
    ;
    assert(digits_value(i2) >= 100_000_000_000_000_000);
}

/// Where a number text marks its exponent: its first `e` or `E`.
fn exp_mark_exec(s: &[char]) -> (r: Option<usize>)
    ensures
        r matches Some(k) ==> exp_mark(s@) == Some(k as int) && k < s@.len(),
        r is None ==> exp_mark(s@) is None,
{
    match (find_char_exec(s, 'e'), find_char_exec(s, 'E')) {
        (Some(a), Some(b)) => Some(if a < b {
            a
        } else {
            b
        }),
        (Some(a), None) => Some(a),
        (None, Some(b)) => Some(b),
        (None, None) => None,
    }
}

/// An exponent text read as `parse_signed` reads it: `None` when it is not
/// one; else its sign, and its size when that fits a `u64`. A size past a
/// `u64` takes twenty digits at least.
fn exponent_of(s: &[char]) -> (r: Option<(bool, Option<u64>)>)
    ensures
        r is None <==> parse_signed(s@) is None,
        r matches Some((ng, m)) ==> ({
            let e = parse_signed(s@)->0;
            &&& ng ==> e <= 0
            &&& !ng ==> e >= 0
            &&& m matches Some(v) ==> (if ng {
                e == -(v as int)
            } else {
                e == v as int
            })
            &&& m is None ==> (e > u64::MAX || e < -(u64::MAX as int)) && s@.len() >= 20
        }),
{
    if s.len() == 0 {
        return None;
    }
    let ng = s[0] == '-';
    let start: usize = if s[0] == '-' || s[0] == '+' {
        1
    } else {
        0
    };
    let body = slice_from(s, start);
    proof {
        assert(s@.skip(0) =~= s@);
        assert(s@.skip(1) =~= s@.drop_first());
    }
    if body.len() == 0 || !all_digits_exec(&body) {
        return None;
    }
    match digits_value_upto(&body, u64::MAX) {
        Some(v) => Some((ng, Some(v))),
        None => {
            proof {
                crate::num::lemma_digits_lt_pow10(body@);
                if body@.len() < 20 {
                    crate::num::lemma_pow10_mono(body@.len(), 19);
                    assert(pow10(19) == 10_000_000_000_000_000_000) by {
                        reveal_with_fuel(pow10, 20);
                    }
                }
            }
            Some((ng, None))
        },
    }
}

/// The index of the first digit that is not zero.
fn first_nonzero(d: &[char]) -> (r: Option<usize>)
    ensures
        r matches Some(z) ==> z < d@.len() && d@[z as int] != '0',
        r is None ==> forall|i: int| 0 <= i < d@.len() ==> #[trigger] d@[i] == '0',
{
    let mut i: usize = 0;
    while i < d.len()
        invariant
            i <= d@.len(),
            forall|j: int| 0 <= j < i ==> #[trigger] d@[j] == '0',
        decreases d@.len() - i,
    {
        if d[i] != '0' {
            return Some(i);
        }
        i = i + 1;
    }
    None
}

/// Appends `n` zero digits.
fn push_zeros(v: &mut Vec<char>, n: usize)
    ensures
        final(v)@ == old(v)@ + zeros(n as nat),
{
    let ghost start = v@;
    let mut i: usize = 0;
    while i < n
        invariant
            i <= n,
            v@ == start + zeros(i as nat),
        decreases n - i,
    {
        v.push('0');
        i = i + 1;
        assert(v@ =~= start + zeros(i as nat));
    }
}

/// The cents of whole digits `ip` and fraction digits `fp`, with the sign,
/// when they fit an `i64`.
fn cents_in_i64(ip: &Vec<char>, fp: &Vec<char>, neg: bool) -> (r: Option<i64>)
    requires
        all_digits(ip@),
        all_digits(fp@),
    ensures
        r == ({
            let v = if neg {
                -cents_of(ip@, fp@)
            } else {
                cents_of(ip@, fp@)
            };
            if i64::MIN <= v <= i64::MAX {
                Some(v as i64)
            } else {
                None
            }
        }),
{
    // 2^63 cents is the largest magnitude that may still fit an i64.
    let units = match digits_value_upto(ip, 92233720368547758) {
        Some(u) => u,
        None => {
            proof {
                assert(cents_of(ip@, fp@) >= digits_value(ip@) * 100);
            }
            return None;
        },
    };
    let mut frac: u64 = 0;
    if fp.len() > 0 {
        frac = frac + digit_u64(fp[0]) * 10;
    }
    if fp.len() > 1 {
        frac = frac + digit_u64(fp[1]);
    }
    if fp.len() > 2 && digit_u64(fp[2]) >= 5 {
        frac = frac + 1;
    }
    let mag: u64 = units * 100 + frac;
    if neg {
        if mag > 9223372036854775808 {
            None
        } else if mag == 9223372036854775808 {
            Some(i64::MIN)
        } else {
            Some(-(mag as i64))
        }
    } else if mag > 9223372036854775807 {
        None
    } else {
        Some(mag as i64)
    }
}

/// The cents of the number `ip.fp` times ten to the power `e`, with the
/// sign, when they fit an `i64`; `e` comes as its sign and, when it fits a
/// `u64`, its size.
fn shifted_cents(ip: &Vec<char>, fp: &Vec<char>, eneg: bool, emag: Option<u64>, neg: bool, Ghost(e): Ghost<int>) -> (r: Option<i64>)
    requires
        all_digits(ip@),
        all_digits(fp@),
        eneg ==> e <= 0,
        !eneg ==> e >= 0,
        emag matches Some(v) ==> (if eneg {
            e == -(v as int)
        } else {
            e == v as int
        }),
        emag is None ==> (e > u64::MAX || e < -(u64::MAX as int)) && ip@.len() + fp@.len() + 21 <= usize::MAX,
    ensures
        r == ({
            let sh = shift_point(ip@, fp@, e);
            let v = if neg {
                -cents_of(sh.0, sh.1)
            } else {
                cents_of(sh.0, sh.1)
            };
            if i64::MIN <= v <= i64::MAX {
                Some(v as i64)
            } else {
                None
            }
        }),
{
    let mut ds: Vec<char> = Vec::new();
    crate::text::extend_chars(&mut ds, &ip);
    crate::text::extend_chars(&mut ds, &fp);
    assert(ds@ =~= ip@ + fp@);
    assert(all_digits(ds@)) by {
        assert forall|i: int| 0 <= i < ds@.len() implies is_digit(#[trigger] ds@[i]) by {
            if i < ip@.len() {
                assert(ds@[i] == ip@[i]);
            } else {
                assert(ds@[i] == fp@[i - ip@.len()]);
            }
        }
    }
    let z = match first_nonzero(&ds) {
        Some(z) => z,
        None => {
            proof {
                lemma_shift_zero(ip@, fp@, e);
            }
            return Some(0);
        },
    };
    let n = ds.len();
    let l = ip.len();
    let v: u64 = match emag {
        Some(v) => v,
        None => {
            proof {
                if eneg {
                    lemma_shift_far_left(ip@, fp@, e);
                } else {
                    lemma_shift_far_right(ip@, fp@, e, z as int);
                }
            }
            if eneg {
                return Some(0);
            } else {
                return None;
            }
        },
    };
    let p: i128 = if eneg {
        l as i128 - v as i128
    } else {
        l as i128 + v as i128
    };
    assert(p == ip@.len() + e);
    if p <= -3 {
        proof {
            lemma_shift_far_left(ip@, fp@, e);
        }
        return Some(0);
    }
    if p >= z as i128 + 18 {
        proof {
            lemma_shift_far_right(ip@, fp@, e, z as int);
        }
        return None;
    }
    let ghost sh = shift_point(ip@, fp@, e);
    let (i2, f2) = if p <= 0 {
        let mut f: Vec<char> = Vec::new();
        push_zeros(&mut f, (0 - p) as usize);
        crate::text::extend_chars(&mut f, &ds);
        (Vec::new(), f)
    } else if p <= n as i128 {
        (slice_range(&ds, 0, p as usize), slice_from(&ds, p as usize))
    } else {
        let mut w = slice_from(&ds, 0);
        push_zeros(&mut w, (p - n as i128) as usize);
        (w, Vec::new())
    };
    proof {
        assert(ds@.skip(0) =~= ds@);
        if 0 < p <= n {
            assert(ds@.subrange(0, p as int) =~= ds@.take(p as int));
        }
        assert(i2@ =~= sh.0);
        assert(f2@ =~= sh.1);
        assert(all_digits(i2@)) by {
            assert forall|i: int| 0 <= i < i2@.len() implies is_digit(#[trigger] i2@[i]) by {
                if i < ds@.len() {
                    assert(i2@[i] == ds@[i]);
                }
            }
        }
        assert(all_digits(f2@)) by {
            assert forall|i: int| 0 <= i < f2@.len() implies is_digit(#[trigger] f2@[i]) by {
                if p <= 0 {
                    if i >= -p {
                        assert(f2@[i] == ds@[i + p]);
                    }
                } else {
                    assert(f2@[i] == ds@[i + p]);
                }
            }
        }
    }
    cents_in_i64(&i2, &f2, neg)
}

/// Greek number text ("1.234,56") read as cents, as `str::parse::<f64>`
/// reads the text with its dots dropped and its comma made a point: an
/// exponent ("1,5e3") is read too. `None` when the text is not a finite
/// decimal number or the amount does not fit an `i64`. Digits past the cents
/// round half away from zero.
#[verifier::rlimit(50)]
pub fn gr2float(greek_number: &str) -> (r: Option<i64>)
    ensures
        r == gr2cents_spec(greek_number@),
{
    let plain = gr2strdec(greek_number);
    let t = chars_of(plain.as_str());
    if t.len() == 0 {
        return None;
    }
    let neg = t[0] == '-';
    let start: usize = if t[0] == '-' || t[0] == '+' {
        1
    } else {
        0
    };
    let body = slice_from(&t, start);
    proof {
        assert(t@.skip(0) =~= t@);
        assert(t@.skip(1) =~= t@.drop_first());
    }
    let mk = exp_mark_exec(&body);
    let mant = match mk {
        Some(k) => slice_range(&body, 0, k),
        None => slice_from(&body, 0),
    };
    let ex = match mk {
        Some(k) => exponent_of(&slice_from(&body, k + 1)),
        None => Some((false, Some(0u64))),
    };
    proof {
        assert(body@.skip(0) =~= body@);
        if let Some(k) = mk {
            assert(body@.subrange(0, k as int) =~= body@.take(k as int));
        }
    }
    assert(mant@ == split_exponent(body@).0);
    assert(ex is None <==> split_exponent(body@).1 is None);
    let (eneg, emag) = match ex {
        Some(x) => x,
        None => {
            assert(gr2cents_spec(greek_number@) is None);
            return None;
        },
    };
    let ghost e: int = split_exponent(body@).1->0;
    let (ip, fp) = match find_char_exec(&mant, '.') {
        Some(k) => (slice_range(&mant, 0, k), slice_from(&mant, k + 1)),
        None => (slice_from(&mant, 0), Vec::new()),
    };
    proof {
        assert(mant@.subrange(0, mant@.len() as int) =~= mant@);
        assert(mant@.skip(0) =~= mant@);
        if let Some(k) = find_char(mant@, '.') {
            assert(mant@.subrange(0, k) =~= mant@.take(k));
        }
    }
    assert((ip@, fp@) == split_point(mant@));
    if !all_digits_exec(&ip) || !all_digits_exec(&fp) || ip.len() + fp.len() == 0 {
        return None;
    }
    proof {
        // The mantissa and the exponent share the text.
        assert(ip@.len() + fp@.len() <= mant@.len());
        assert(t@.len() <= usize::MAX);
    }
    shifted_cents(&ip, &fp, eneg, emag, neg, Ghost(e))
}

fn digit_u64(c: char) -> (d: u64)
    requires
        is_digit(c),
    ensures
        d == digit_val(c),
        d <= 9,
{
    assert(48 <= (c as u32) <= 57);
    (c as u32 - 48) as u64
}

/// An amount of cents as `{:.2}` writes the units: sign, digits, a point
/// and two decimals ("-82.00").
pub open spec fn fixed2_spec(c: int) -> Seq<char> {
    sign_text(c) + decimal(abs(c) / 100) + seq!['.'] + pad2(abs(c) % 100)
}

/// An amount of cents written with two decimals and a point, no grouping.
pub fn fixed2(cents: i128) -> (r: String)
    ensures
        r@ == fixed2_spec(cents as int),
{
    let a = abs_u128(cents);
    let mut out: Vec<char> = Vec::new();
    if cents < 0 {
        out.push('-');
    }
    crate::text::extend_chars(&mut out, &decimal_exec(a / 100));
    out.push('.');
    crate::text::extend_chars(&mut out, &pad2_exec(a % 100));
    proof {
        if cents < 0 {
            assert(out@ =~= fixed2_spec(cents as int));
        } else {
            assert(out@ =~= fixed2_spec(cents as int));
        }
    }
    string_of(&out)
}

} // verus!
