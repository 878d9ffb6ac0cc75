//! One line of a double-entry transaction.

use vstd::prelude::*;

use crate::account::{cats_reverse, ChartOfAccounts};
use crate::money::{f2gr, f2gr_spec};
use crate::text::{chars_of, chars_eq, extend_chars, string_of, to_owned_string, trim, trim_chars};

verus! {

/// `a / b` rounded to the nearest integer, halves away from zero.
pub open spec fn round_div(a: int, b: int) -> int {
    if a >= 0 {
        (a + b / 2) / b
    } else {
        -((-a + b / 2) / b)
    }
}

/// Left-aligned in a field of `w` characters (`{:<w}`).
pub open spec fn pad_right(s: Seq<char>, w: nat) -> Seq<char> {
    if s.len() >= w {
        s
    } else {
        s + Seq::new((w - s.len()) as nat, |i: int| ' ')
    }
}

/// Right-aligned in a field of `w` characters (`{:>w}`).
pub open spec fn pad_left(s: Seq<char>, w: nat) -> Seq<char> {
    if s.len() >= w {
        s
    } else {
        Seq::new((w - s.len()) as nat, |i: int| ' ') + s
    }
}

/// A transaction line as data.
pub struct LineView {
    pub account: Seq<char>,
    pub value: int,
    pub sxolio: Seq<char>,
}

/// The value when positive, else zero.
pub open spec fn line_debit(l: LineView) -> int {
    if l.value > 0 {
        l.value
    } else {
        0
    }
}

/// The value's magnitude when negative, else zero.
pub open spec fn line_credit(l: LineView) -> int {
    if l.value < 0 {
        -l.value
    } else {
        0
    }
}

/// The value as shown for the account under the chart's categories.
pub open spec fn line_delta(cats: Seq<(Seq<char>, Seq<char>)>, l: LineView) -> int {
    if cats_reverse(cats, l.account) {
        -l.value
    } else {
        l.value
    }
}

/// One line of a double-entry transaction, in cents. The value's sign
/// decides debit (>0) or credit (<0); `delta` reverses the sign for income,
/// liabilities and capital accounts.
#[derive(Debug, Clone, PartialEq, Eq)]
pub struct TransactionLine {
    pub account_name: String,
    pub value: i64,
    pub sxolio: String,
}

impl View for TransactionLine {
    type V = LineView;

    open spec fn view(&self) -> LineView {
        LineView { account: self.account_name@, value: self.value as int, sxolio: self.sxolio@ }
    }
}

impl TransactionLine {
    pub open spec fn debit_spec(&self) -> int {
        line_debit(self@)
    }

    pub open spec fn credit_spec(&self) -> int {
        line_credit(self@)
    }

    pub open spec fn delta_spec(&self, chart: ChartOfAccounts) -> int {
        line_delta(chart@.cats, self@)
    }

    /// A line with its comment trimmed.
    pub fn new(account_name: &str, value: i64, sxolio: &str) -> (r: Self)
        ensures
            r.account_name@ == account_name@,
            r.value == value,
            r.sxolio@ == trim(sxolio@),
    {
        let s = chars_of(sxolio);
        let t = trim_chars(&s);
        TransactionLine { account_name: to_owned_string(account_name), value, sxolio: string_of(&t) }
    }

    /// The value when positive, else zero.
    pub fn debit(&self) -> (r: i128)
        ensures
            r == self.debit_spec(),
    {
        if self.value > 0 {
            self.value as i128
        } else {
            0
        }
    }

    /// The value's magnitude when negative, else zero.
    pub fn credit(&self) -> (r: i128)
        ensures
            r == self.credit_spec(),
    {
        if self.value < 0 {
            -(self.value as i128)
        } else {
            0
        }
    }

    /// The value as shown for the account: sign-reversed for income,
    /// liabilities and capital.
    pub fn delta(&self, chart: &ChartOfAccounts) -> (r: i128)
        ensures
            r == self.delta_spec(*chart),
    {
        if chart.is_reverse(self.account_name.as_str()) {
            -(self.value as i128)
        } else {
            self.value as i128
        }
    }

    /// The line with its value multiplied by `number` hundredths (150 is 1.5),
    /// rounded to the cent. The result must fit an `i64`.
    pub fn mul(&self, number: i64) -> (r: TransactionLine)
        requires
            i64::MIN <= round_div(self.value * number, 100) <= i64::MAX,
        ensures
            r.account_name == self.account_name,
            r.sxolio == self.sxolio,
            r.value == round_div(self.value * number, 100),
    {
        let p: i128 = (self.value as i128) * (number as i128);
        let v: i128 = if p >= 0 {
            (p + 50) / 100
        } else {
            -((-p + 50) / 100)
        };
        TransactionLine {
            account_name: self.account_name.clone(),
            value: v as i64,
            sxolio: self.sxolio.clone(),
        }
    }

    /// The sum of two lines of the same account; lines of different accounts
    /// cannot be added.
    pub fn checked_add(&self, other: &TransactionLine) -> (r: Result<TransactionLine, String>)
        requires
            self.account_name@ != other.account_name@ || i64::MIN <= self.value + other.value
                <= i64::MAX,
        ensures
            r is Ok <==> self.account_name@ == other.account_name@,
            r matches Err(e) ==> e@ == "For addition accounts must me the same"@,
            r matches Ok(l) ==> l.account_name == self.account_name && l.sxolio == self.sxolio
                && l.value == self.value + other.value,
    {
        let a = chars_of(self.account_name.as_str());
        let b = chars_of(other.account_name.as_str());
        if !chars_eq(&a, &b) {
            return Err(to_owned_string("For addition accounts must me the same"));
        }
        Ok(
            TransactionLine {
                account_name: self.account_name.clone(),
                value: self.value + other.value,
                sxolio: self.sxolio.clone(),
            },
        )
    }

    /// The line as one row of text: account and comment left-aligned in 30
    /// columns (the comment cut to 30 characters), debit and credit
    /// right-aligned in 14 columns, each separated by a space.
    pub fn to_display_string(&self) -> (r: String)
        ensures
            r@ == pad_right(self.account_name@, 30) + seq![' '] + pad_right(
                self.sxolio@.take(if self.sxolio@.len() < 30 {
                    self.sxolio@.len() as int
                } else {
                    30
                }),
                30,
            ) + seq![' '] + pad_left(f2gr_spec(self.debit_spec()), 14) + seq![' '] + pad_left(
                f2gr_spec(self.credit_spec()),
                14,
            ),
    {
        let acc = chars_of(self.account_name.as_str());
        let sx = chars_of(self.sxolio.as_str());
        let n: usize = if sx.len() < 30 {
            sx.len()
        } else {
            30
        };
        let sx30 = crate::num::slice_range(&sx, 0, n);
        let deb = f2gr(self.debit());
        let cre = f2gr(self.credit());
        let mut out: Vec<char> = Vec::new();
        push_padded(&mut out, &acc, 30, false);
        out.push(' ');
        push_padded(&mut out, &sx30, 30, false);
        out.push(' ');
        push_padded(&mut out, &chars_of(deb.as_str()), 14, true);
        out.push(' ');
        push_padded(&mut out, &chars_of(cre.as_str()), 14, true);
        proof {
            assert(sx@.subrange(0, n as int) =~= sx@.take(n as int));
        }
        string_of(&out)
    }
}

/// Appends `s` padded with spaces to `w` characters, on the left when
/// `right` (right alignment), else on the right.
fn push_padded(out: &mut Vec<char>, s: &Vec<char>, w: usize, right: bool)
    ensures
        final(out)@ == old(out)@ + (if right {
            pad_left(s@, w as nat)
        } else {
            pad_right(s@, w as nat)
        }),
{
    let mut spaces: Vec<char> = Vec::new();
    if s.len() < w {
        let n = w - s.len();
        let mut i: usize = 0;
        while i < n
            invariant
                i <= n,
                spaces@ == Seq::new(i as nat, |k: int| ' '),
            decreases n - i,
        {
            spaces.push(' ');
            i = i + 1;
            assert(spaces@ =~= Seq::new(i as nat, |k: int| ' '));
        }
    }
    if right {
        extend_chars(out, &spaces);
        extend_chars(out, s);
    } else {
        extend_chars(out, s);
        extend_chars(out, &spaces);
    }
    proof {
        if s.len() >= w {
            assert(spaces@ =~= Seq::<char>::empty());
        }
        if right {
            assert(old(out)@ + spaces@ + s@ =~= old(out)@ + (spaces@ + s@));
        } else {
            assert(old(out)@ + s@ + spaces@ =~= old(out)@ + (s@ + spaces@));
        }
    }
}

} // verus!
