//! Transactions: a dated document with balanced lines.

use vstd::prelude::*;

use crate::account::ChartOfAccounts;
use crate::date::{date_text, date_lt, lemma_date_valid, Date};
use crate::num::{decimal, decimal_exec, int_text, int_text_exec};
use crate::text::{
    chars_of, extend_chars, has_prefix, replace_char, replace_char_exec, str_starts_with,
    string_of, to_owned_string, trim, trim_chars,
};
use crate::transaction_line::{line_debit, round_div, LineView, TransactionLine};

verus! {

/// Sum of the line values.
pub open spec fn sum_values(ls: Seq<LineView>) -> int
    decreases ls.len(),
{
    if ls.len() == 0 {
        0
    } else {
        sum_values(ls.drop_last()) + ls.last().value
    }
}

/// Sum of the line debits.
pub open spec fn sum_debits(ls: Seq<LineView>) -> int
    decreases ls.len(),
{
    if ls.len() == 0 {
        0
    } else {
        sum_debits(ls.drop_last()) + line_debit(ls.last())
    }
}

/// The largest magnitude of a line value.
pub open spec fn max_line() -> int {
    0x8000_0000_0000_0000
}

/// The sum of the credit sides of the lines.
pub open spec fn sum_credits(ls: Seq<LineView>) -> int
    decreases ls.len(),
{
    if ls.len() == 0 {
        0
    } else {
        sum_credits(ls.drop_last()) + crate::transaction_line::line_credit(ls.last())
    }
}

pub proof fn lemma_sums_bounded(ls: Seq<LineView>)
    requires
        forall|i: int| 0 <= i < ls.len() ==> -max_line() <= #[trigger] ls[i].value < max_line(),
    ensures
        -(ls.len() * max_line()) <= sum_values(ls) <= ls.len() * max_line(),
        0 <= sum_debits(ls) <= ls.len() * max_line(),
        0 <= sum_credits(ls) <= ls.len() * max_line(),
    decreases ls.len(),
{
    if ls.len() > 0 {
        assert(-max_line() <= ls[ls.len() - 1].value < max_line());
        lemma_sums_bounded(ls.drop_last());
    }
}

/// A full kartella row: the transaction's fields, the line's figures and the
/// running totals up to and including this row.
#[derive(Debug, Clone)]
pub struct KartellaLine {
    pub id: i32,
    pub date: Date,
    pub parastatiko: String,
    pub perigrafi: String,
    pub account_name: String,
    pub sxolio: String,
    pub value: i64,
    pub delta: i128,
    pub debit: i128,
    pub credit: i128,
    pub tvalue: i128,
    pub tdebit: i128,
    pub tcredit: i128,
    pub tdelta: i128,
}

/// A dated accounting document and its lines.
#[derive(Debug, Clone)]
pub struct Transaction {
    pub id: i32,
    pub date: Date,
    pub parastatiko: String,
    pub perigrafi: String,
    pub lines: Vec<TransactionLine>,
}

/// A transaction as data.
pub struct TxView {
    pub id: int,
    pub date: (int, int, int),
    pub parastatiko: Seq<char>,
    pub perigrafi: Seq<char>,
    pub lines: Seq<LineView>,
}

impl View for Transaction {
    type V = TxView;

    open spec fn view(&self) -> TxView {
        TxView {
            id: self.id as int,
            date: self.date@,
            parastatiko: self.parastatiko@,
            perigrafi: self.perigrafi@,
            lines: self.lines@.map_values(|l: TransactionLine| l@),
        }
    }
}

/// The text of the error for a date that is not a real ISO date.
pub open spec fn bad_date_text(iso: Seq<char>) -> Seq<char> {
    seq!['\''] + iso + "' is not a valid ISO date"@
}

/// The text of the error for setting an id twice.
pub open spec fn id_taken_text(old_id: int, idv: int) -> Seq<char> {
    "Transaction "@ + int_text(old_id) + " already has an id, cannot set it to "@ + int_text(idv)
}

/// Tenths of the total (cents rounded to one decimal, halves to even) as
/// `{:.1}` writes them with the point removed.
pub open spec fn tenths_text(cents: nat) -> Seq<char> {
    let q = cents / 10;
    let r = cents % 10;
    let t = if r > 5 || (r == 5 && q % 2 == 1) {
        q + 1
    } else {
        q
    };
    decimal(t / 10) + decimal(t % 10)
}

impl Transaction {
    /// Sum of the line values.
    pub open spec fn rest_spec(&self) -> int {
        sum_values(self@.lines)
    }

    /// Total debit.
    pub open spec fn total_spec(&self) -> int {
        sum_debits(self@.lines)
    }

    /// Balanced: two lines at least, and the values sum to zero.
    pub open spec fn balanced_spec(&self) -> bool {
        self.lines@.len() >= 2 && self.rest_spec() == 0
    }

    /// A transaction without lines for an ISO date; fails on a date that is
    /// not a real ISO date rather than silently substituting one.
    pub fn try_new(iso_date: &str, parastatiko: &str, perigrafi: &str, idv: i32) -> (r: Result<
        Self,
        String,
    >)
        ensures
            r is Ok <==> Date::parse_iso_spec(iso_date@) is Some,
            r matches Err(e) ==> e@ == bad_date_text(iso_date@),
            r matches Ok(t) ==> t.id == idv && Some(t.date@) == Date::parse_iso_spec(iso_date@)
                && t.parastatiko@ == parastatiko@ && t.perigrafi@ == perigrafi@ && t.lines@.len()
                == 0,
    {
        match Date::parse_iso(iso_date) {
            None => {
                let mut v: Vec<char> = Vec::new();
                v.push('\'');
                extend_chars(&mut v, &chars_of(iso_date));
                extend_chars(&mut v, &chars_of("' is not a valid ISO date"));
                Err(string_of(&v))
            },
            Some(date) => Ok(
                Transaction {
                    id: idv,
                    date,
                    parastatiko: to_owned_string(parastatiko),
                    perigrafi: to_owned_string(perigrafi),
                    lines: Vec::new(),
                },
            ),
        }
    }

    /// Sets the id of a transaction that has none yet (id 0).
    pub fn set_id(&mut self, idv: i32) -> (r: Result<(), String>)
        ensures
            r is Ok <==> old(self).id == 0,
            r is Ok ==> *final(self) == (Transaction { id: idv, ..*old(self) }),
            r matches Err(e) ==> *final(self) == *old(self) && e@ == id_taken_text(
                old(self).id as int,
                idv as int,
            ),
    {
        if self.id != 0 {
            let mut v = chars_of("Transaction ");
            extend_chars(&mut v, &int_text_exec(self.id as i128));
            extend_chars(&mut v, &chars_of(" already has an id, cannot set it to "));
            extend_chars(&mut v, &int_text_exec(idv as i128));
            return Err(string_of(&v));
        }
        self.id = idv;
        Ok(())
    }

    /// Sum of all line values.
    pub fn rest(&self) -> (r: i128)
        ensures
            r == self.rest_spec(),
    {
        let mut acc: i128 = 0;
        let mut i: usize = 0;
        while i < self.lines.len()
            invariant
                i <= self.lines@.len(),
                acc == sum_values(self@.lines.take(i as int)),
            decreases self.lines@.len() - i,
        {
            proof {
                lemma_sums_bounded(self@.lines.take(i as int));
                assert(self@.lines.take(i + 1).drop_last() =~= self@.lines.take(i as int));
            }
            acc = acc + self.lines[i].value as i128;
            i = i + 1;
        }
        assert(self@.lines.take(self.lines@.len() as int) =~= self@.lines);
        acc
    }

    /// Total debit of the transaction.
    pub fn total(&self) -> (r: i128)
        ensures
            r == self.total_spec(),
    {
        let mut acc: i128 = 0;
        let mut i: usize = 0;
        while i < self.lines.len()
            invariant
                i <= self.lines@.len(),
                acc == sum_debits(self@.lines.take(i as int)),
            decreases self.lines@.len() - i,
        {
            proof {
                lemma_sums_bounded(self@.lines.take(i as int));
                assert(self@.lines.take(i + 1).drop_last() =~= self@.lines.take(i as int));
            }
            acc = acc + self.lines[i].debit();
            i = i + 1;
        }
        assert(self@.lines.take(self.lines@.len() as int) =~= self@.lines);
        acc
    }

    /// The total credit of the lines.
    pub fn total_credit(&self) -> (r: i128)
        ensures
            r == sum_credits(self@.lines),
    {
        let mut acc: i128 = 0;
        let mut i: usize = 0;
        while i < self.lines.len()
            invariant
                i <= self.lines@.len(),
                acc == sum_credits(self@.lines.take(i as int)),
            decreases self.lines@.len() - i,
        {
            proof {
                lemma_sums_bounded(self@.lines.take(i as int));
                assert(self@.lines.take(i + 1).drop_last() =~= self@.lines.take(i as int));
            }
            acc = acc + self.lines[i].credit();
            i = i + 1;
        }
        assert(self@.lines.take(self.lines@.len() as int) =~= self@.lines);
        acc
    }

    /// The transaction's value: its total debit.
    pub fn value(&self) -> (r: i128)
        ensures
            r == self.total_spec(),
    {
        self.total()
    }

    /// Two lines at least, and the values sum to zero.
    pub fn is_balanced(&self) -> (b: bool)
        ensures
            b == self.balanced_spec(),
    {
        self.lines.len() >= 2 && self.rest() == 0
    }

    /// A unique id text: the date as YYYYMMDD, the document number without
    /// spaces and the total with one decimal, its point removed.
    pub fn uid(&self) -> (r: String)
        ensures
            r@ == date_text(self.date@, "%Y%m%d"@) + replace_char(
                self.parastatiko@,
                ' ',
                Seq::empty(),
            ) + tenths_text(self.total_spec() as nat),
    {
        let date_part = self.date.format("%Y%m%d");
        let mut v = chars_of(date_part.as_str());
        let empty: Vec<char> = Vec::new();
        assert(empty@ =~= Seq::<char>::empty());
        extend_chars(&mut v, &replace_char_exec(&chars_of(self.parastatiko.as_str()), ' ', &empty));
        let total = self.total();
        proof {
            lemma_sums_bounded(self@.lines);
        }
        let cents = total as u128;
        let q = cents / 10;
        let rr = cents % 10;
        let t = if rr > 5 || (rr == 5 && q % 2 == 1) {
            q + 1
        } else {
            q
        };
        extend_chars(&mut v, &decimal_exec(t / 10));
        extend_chars(&mut v, &decimal_exec(t % 10));
        string_of(&v)
    }

    /// Appends a line; its comment is trimmed.
    pub fn add_line(&mut self, account_name: &str, value: i64, sxolio: &str)
        ensures
            final(self).id == old(self).id,
            final(self).date == old(self).date,
            final(self).parastatiko == old(self).parastatiko,
            final(self).perigrafi == old(self).perigrafi,
            final(self).lines@.len() == old(self).lines@.len() + 1,
            final(self).lines@.drop_last() == old(self).lines@,
            final(self).lines@.last().account_name@ == account_name@,
            final(self).lines@.last().value == value,
            final(self).lines@.last().sxolio@ == trim(sxolio@),
            final(self)@ == (TxView {
                lines: old(self)@.lines.push(
                    LineView { account: account_name@, value: value as int, sxolio: trim(sxolio@) },
                ),
                ..old(self)@
            }),
    {
        let l = TransactionLine::new(account_name, value, sxolio);
        self.lines.push(l);
        assert(self.lines@.drop_last() =~= old(self).lines@);
        assert(self@.lines =~= old(self)@.lines.push(l@));
    }

    /// Appends a line of `value` on `acc1` and one on `acc2` of `pososto`
    /// hundredths of a percent of it (2400 is 24%), rounded to the cent.
    pub fn add_connected_lines(&mut self, acc1: &str, acc2: &str, value: i64, pososto: i64)
        requires
            i64::MIN <= round_div(value * pososto, 10000) <= i64::MAX,
        ensures
            final(self).id == old(self).id,
            final(self).date == old(self).date,
            final(self).parastatiko == old(self).parastatiko,
            final(self).perigrafi == old(self).perigrafi,
            final(self).lines@.len() == old(self).lines@.len() + 2,
            final(self).lines@.subrange(0, old(self).lines@.len() as int) == old(self).lines@,
            final(self).lines@[old(self).lines@.len() as int].account_name@ == acc1@,
            final(self).lines@[old(self).lines@.len() as int].value == value,
            final(self).lines@.last().account_name@ == acc2@,
            final(self).lines@.last().value == round_div(value * pososto, 10000),
            final(self).lines@[old(self).lines@.len() as int].sxolio@ == Seq::<char>::empty(),
            final(self).lines@.last().sxolio@ == Seq::<char>::empty(),
    {
        proof {
            reveal_strlit("");
            assert(trim(""@) =~= Seq::<char>::empty());
        }
        self.add_line(acc1, value, "");
        let p: i128 = (value as i128) * (pososto as i128);
        let v: i128 = if p >= 0 {
            (p + 5000) / 10000
        } else {
            -((-p + 5000) / 10000)
        };
        let ghost mid = self.lines@;
        self.add_line(acc2, v as i64, "");
        proof {
            assert(self.lines@.drop_last() == mid);
            assert(self.lines@[old(self).lines@.len() as int] == mid.last());
            assert(self.lines@.subrange(0, old(self).lines@.len() as int) =~= old(self).lines@);
        }
    }

    /// Adds the balancing final line: its value is minus the sum of the
    /// others. Fails when the transaction already balances, or when that
    /// value does not fit a line.
    pub fn add_last_line(&mut self, account_name: &str, sxolio: &str) -> (r: Result<(), String>)
        ensures
            r is Ok <==> old(self).rest_spec() != 0 && i64::MIN <= -old(self).rest_spec()
                <= i64::MAX,
            r matches Err(e) ==> *final(self) == *old(self) && (if old(self).rest_spec() == 0 {
                e@ == "Transaction is already balanced"@
            } else {
                e@ == "Balancing amount out of range"@
            }),
            r is Ok ==> final(self).id == old(self).id && final(self).date == old(self).date,
            r is Ok ==> final(self).parastatiko == old(self).parastatiko,
            r is Ok ==> final(self).perigrafi == old(self).perigrafi,
            r is Ok ==> final(self).lines@.drop_last() == old(self).lines@,
            r is Ok ==> final(self).lines@.last().account_name@ == account_name@,
            r is Ok ==> final(self).lines@.last().value == -old(self).rest_spec(),
            r is Ok ==> final(self).lines@.last().sxolio@ == trim(sxolio@),
            r is Ok ==> final(self).rest_spec() == 0,
            r is Ok ==> final(self)@ == (TxView {
                lines: old(self)@.lines.push(
                    LineView {
                        account: account_name@,
                        value: -old(self).rest_spec(),
                        sxolio: trim(sxolio@),
                    },
                ),
                ..old(self)@
            }),
    {
        let rest = self.rest();
        if rest == 0 {
            return Err(to_owned_string("Transaction is already balanced"));
        }
        if rest > 9223372036854775808 || rest < -9223372036854775807 {
            return Err(to_owned_string("Balancing amount out of range"));
        }
        let ghost before = self.lines@;
        let sx = trim_chars(&chars_of(sxolio));
        self.lines.push(
            TransactionLine {
                account_name: to_owned_string(account_name),
                value: (-rest) as i64,
                sxolio: string_of(&sx),
            },
        );
        assert(self.lines@.drop_last() =~= before);
        assert(self@.lines.drop_last() =~= old(self)@.lines);
        assert(self@.lines =~= old(self)@.lines.push(self.lines@.last()@));
        Ok(())
    }

    /// The account of the last line.
    pub fn last_account(&self) -> (r: Result<&str, String>)
        ensures
            r is Ok <==> self.lines@.len() > 0,
            r matches Ok(a) ==> a@ == self.lines@.last().account_name@,
            r matches Err(e) ==> e@ == "Impossible value"@,
    {
        if self.lines.len() == 0 {
            return Err(to_owned_string("Impossible value"));
        }
        Ok(self.lines[self.lines.len() - 1].account_name.as_str())
    }

    /// The delta of the last line, zero when there are no lines.
    pub fn last_delta(&self, chart: &ChartOfAccounts) -> (r: i128)
        ensures
            r == (if self.lines@.len() == 0 {
                0
            } else {
                self.lines@.last().delta_spec(*chart)
            }),
    {
        if self.lines.len() == 0 {
            0
        } else {
            self.lines[self.lines.len() - 1].delta(chart)
        }
    }
}

/// The lines of the accounts whose name begins with `acc`, in order.
pub open spec fn lines_under(ls: Seq<LineView>, acc: Seq<char>) -> Seq<LineView>
    decreases ls.len(),
{
    if ls.len() == 0 {
        Seq::empty()
    } else {
        lines_under(ls.drop_last(), acc) + (if has_prefix(ls.last().account, acc) {
            seq![ls.last()]
        } else {
            Seq::empty()
        })
    }
}

/// The description shown for a line: the transaction's, then the line's
/// comment after a comma when there is one.
pub open spec fn line_description(t: TxView, l: LineView) -> Seq<char> {
    if l.sxolio.len() > 0 {
        t.perigrafi + ", "@ + l.sxolio
    } else {
        t.perigrafi
    }
}

/// A found row for line `l` of `t`, with the running total `run`.
pub open spec fn found_row(r: (i32, Date, String, String, i128, i128, i128), t: TxView, l: LineView, run: int) -> bool {
    &&& r.0 == t.id
    &&& r.1@ == t.date
    &&& r.2@ == t.parastatiko
    &&& r.3@ == line_description(t, l)
    &&& r.4 == line_debit(l)
    &&& r.5 == crate::transaction_line::line_credit(l)
    &&& r.6 == run
}

impl Transaction {
    /// Appends to `found` a row for each line of an account beginning with
    /// `account_part`: id, date, document, description (with the line's
    /// comment), debit, credit and the running total, which `running_total`
    /// carries from one call to the next.
    pub fn get_lines_by_account(
        &self,
        account_part: &str,
        running_total: &mut i128,
        found: &mut Vec<(i32, Date, String, String, i128, i128, i128)>,
    )
        requires
            -0x4000_0000_0000_0000_0000_0000_0000_0000 <= *old(running_total) <= 0x4000_0000_0000_0000_0000_0000_0000_0000,
            self.lines@.len() <= 0xffff_ffff,
        ensures
            ({
                let ls = lines_under(self@.lines, account_part@);
                &&& final(found)@.len() == old(found)@.len() + ls.len()
                &&& forall|k: int| 0 <= k < old(found)@.len() ==> #[trigger] final(found)@[k] == old(found)@[k]
                &&& forall|k: int|
                    0 <= k < ls.len() ==> found_row(
                        #[trigger] final(found)@[old(found)@.len() + k],
                        self@,
                        ls[k],
                        *old(running_total) + sum_values(ls.take(k + 1)),
                    )
                &&& *final(running_total) == *old(running_total) + sum_values(ls)
            }),
    {
        let ghost t = self@;
        let ghost acc = account_part@;
        let ghost start = *running_total;
        let ghost base = found@;
        let mut i: usize = 0;
        proof {
            assert(t.lines.take(0) =~= Seq::<LineView>::empty());
        }
        while i < self.lines.len()
            invariant
                i <= self.lines@.len(),
                t == self@,
                acc == account_part@,
                self.lines@.len() <= 0xffff_ffff,
                -0x4000_0000_0000_0000_0000_0000_0000_0000 <= start <= 0x4000_0000_0000_0000_0000_0000_0000_0000,
                ({
                    let ls = lines_under(t.lines.take(i as int), acc);
                    &&& ls.len() <= i
                    &&& found@.len() == base.len() + ls.len()
                    &&& forall|k: int| 0 <= k < base.len() ==> #[trigger] found@[k] == base[k]
                    &&& forall|k: int|
                        0 <= k < ls.len() ==> found_row(#[trigger] found@[base.len() + k], t, ls[k], start + sum_values(ls.take(k + 1)))
                    &&& *running_total == start + sum_values(ls)
                    &&& forall|k: int| 0 <= k < ls.len() ==> -max_line() <= #[trigger] ls[k].value < max_line()
                }),
            decreases self.lines@.len() - i,
        {
            let line = &self.lines[i];
            let ghost ls = lines_under(t.lines.take(i as int), acc);
            proof {
                assert(t.lines.take(i + 1).drop_last() =~= t.lines.take(i as int));
                assert(t.lines.take(i + 1).last() == line@);
                lemma_sums_bounded(ls);
                assert(ls.len() * max_line() <= 0xffff_ffff * max_line()) by (nonlinear_arith)
                    requires
                        ls.len() <= 0xffff_ffff,
                ;
            }
            if str_starts_with(line.account_name.as_str(), account_part) {
                let per = if chars_of(line.sxolio.as_str()).len() > 0 {
                    crate::text::concat_str(
                        crate::text::concat_str(self.perigrafi.as_str(), ", ").as_str(),
                        line.sxolio.as_str(),
                    )
                } else {
                    self.perigrafi.clone()
                };
                *running_total = *running_total + line.value as i128;
                found.push((self.id, self.date, self.parastatiko.clone(), per, line.debit(), line.credit(), *running_total));
                proof {
                    let ls2 = lines_under(t.lines.take(i + 1), acc);
                    assert(ls2 =~= ls.push(line@));
                    assert(ls2.take(ls2.len() as int) =~= ls2);
                    assert(ls2.drop_last() =~= ls);
                    assert forall|k: int| 0 <= k < ls2.len() implies found_row(
                        #[trigger] found@[base.len() + k],
                        t,
                        ls2[k],
                        start + sum_values(ls2.take(k + 1)),
                    ) by {
                        if k < ls.len() {
                            assert(ls2.take(k + 1) =~= ls.take(k + 1));
                        }
                    }
                }
            } else {
                proof {
                    let ls2 = lines_under(t.lines.take(i + 1), acc);
                    assert(ls2 =~= ls);
                }
            }
            i = i + 1;
        }
        assert(t.lines.take(self.lines@.len() as int) =~= t.lines);
    }
}

impl Default for Transaction {
    /// A transaction without id, lines or text, dated 1970-01-01.
    fn default() -> (r: Self)
        ensures
            r@ == (TxView {
                id: 0,
                date: (1970, 1, 1),
                parastatiko: Seq::empty(),
                perigrafi: Seq::empty(),
                lines: Seq::empty(),
            }),
    {
        let date = Date::from_ymd(1970, 1, 1).unwrap();
        let r = Transaction { id: 0, date, parastatiko: String::new(), perigrafi: String::new(), lines: Vec::new() };
        assert(r@.lines =~= Seq::<LineView>::empty());
        r
    }
}

/// Whether `a` comes before `b`: earlier date, or same date and lower id.
pub fn tx_before_exec(a: &Transaction, b: &Transaction) -> (r: bool)
    ensures
        r == crate::ledger::tx_before(a@, b@),
{
    a.date.is_before(&b.date) || (a.date.same_day(&b.date) && a.id < b.id)
}

/// The views of a sequence of transaction references.
pub open spec fn txs_view(ts: Seq<&Transaction>) -> Seq<TxView> {
    ts.map_values(|t: &Transaction| t@)
}

/// Sorting of transactions by date, then by id (the order of
/// `sorted(transactions)` in the ledger).
pub fn sort_transactions<'a>(transactions: Vec<&'a Transaction>) -> (r: Vec<&'a Transaction>)
    ensures
        txs_view(r@) == crate::ledger::sort_txs(txs_view(transactions@)),
{
    let mut out: Vec<&'a Transaction> = Vec::new();
    let mut i: usize = 0;
    while i < transactions.len()
        invariant
            i <= transactions@.len(),
            txs_view(out@) == crate::ledger::sort_txs(txs_view(transactions@).take(i as int)),
        decreases transactions@.len() - i,
    {
        let t = transactions[i];
        let ghost s = txs_view(out@);
        let mut j: usize = out.len();
        while j > 0 && tx_before_exec(t, out[j - 1])
            invariant
                j <= out@.len(),
                s == txs_view(out@),
                forall|k: int| j <= k < s.len() ==> crate::ledger::tx_before(t@, #[trigger] s[k]),
            decreases j,
        {
            j = j - 1;
        }
        proof {
            crate::ledger::lemma_insert_at(t@, s, j as int);
        }
        out.insert(j, t);
        proof {
            assert(txs_view(out@) =~= s.take(j as int).push(t@) + s.skip(j as int));
            let tv = txs_view(transactions@);
            assert(tv.take(i + 1).drop_last() =~= tv.take(i as int));
            assert(tv.take(i + 1).last() == t@);
        }
        i = i + 1;
    }
    assert(txs_view(transactions@).take(transactions@.len() as int) =~= txs_view(transactions@));
    out
}

} // verus!
