//! The book: a chart of accounts, its transactions by id, the balance checks
//! declared in the journals, and the reports built on them.

use vstd::prelude::*;

use crate::account::{ChartOfAccounts, ChartView};
use crate::date::{date_text, Date};
use crate::ledger::{
    any_entry, flat, in_span, keep, lemma_flat_len, lemma_keep_concat, lemma_keep_len,
    lemma_ktotal_push, lemma_line_entries, lemma_total_bound, lemma_total_concat, line_entries,
    line_limit, lines_limited, span_txs, total, tx_entries, under, value_of, Entry, ktotal,
    lemma_figs_bounded, debit_of, credit_of, delta_of, sort_txs, fig_bounded,
};
use crate::transaction_line::{line_credit, line_debit, line_delta};
use crate::num::{int_text, int_text_exec};
use crate::text::{chars_of, extend_chars, str_starts_with, string_of, to_owned_string};
use crate::transaction::{KartellaLine, id_taken_text, max_line, sort_transactions, txs_view, Transaction, TxView};
use crate::transaction_line::TransactionLine;
use crate::transaction_line::LineView;

verus! {

/// A book as data.
pub struct BookView {
    pub name: Seq<char>,
    pub chart: ChartView,
    pub txs: Seq<TxView>,
    pub validations: Seq<(Seq<char>, Seq<char>, int)>,
}

/// A book: its chart of accounts, its transactions (the one with id `k` at
/// position `k - 1`) and the balance checks its journals declare.
pub struct Book {
    pub name: String,
    pub chart: ChartOfAccounts,
    pub transactions: Vec<Transaction>,
    pub validations: Vec<(String, String, i64)>,
}

impl View for Book {
    type V = BookView;

    open spec fn view(&self) -> BookView {
        BookView {
            name: self.name@,
            chart: self.chart@,
            txs: self.transactions@.map_values(|t: Transaction| t@),
            validations: self.validations@.map_values(|v: (String, String, i64)| (v.0@, v.1@, v.2 as int)),
        }
    }
}

/// The text of the error for an unbalanced transaction.
pub open spec fn unbalanced_text(t: TxView) -> Seq<char> {
    "Transaction "@ + int_text(t.id) + seq![' '] + date_text(t.date, "%Y-%m-%d"@) + seq![' ']
        + t.perigrafi + " is not balanced"@
}

/// Balanced: two lines at least, and the values sum to zero.
pub open spec fn tx_balanced(t: TxView) -> bool {
    t.lines.len() >= 2 && crate::transaction::sum_values(t.lines) == 0
}

/// The optional date bound a text gives: `None` when absent or not a date.
pub open spec fn bound_of(s: Option<Seq<char>>) -> Option<(int, int, int)> {
    match s {
        Some(x) => Date::parse_iso_spec(x),
        None => None,
    }
}

pub open spec fn opt_view(s: Option<&str>) -> Option<Seq<char>> {
    match s {
        Some(x) => Some(x@),
        None => None,
    }
}

impl Book {
    /// Well formed: the chart lists each account once, the transaction at
    /// position `k` has id `k + 1`, ids fit an `i32`, and no transaction has
    /// more than `line_limit()` lines.
    pub open spec fn wf(&self) -> bool {
        &&& self.chart.wf()
        &&& self.transactions@.len() <= i32::MAX
        &&& forall|i: int| 0 <= i < self@.txs.len() ==> (#[trigger] self@.txs[i]).id == i + 1
        &&& lines_limited(self@.txs)
    }

    /// An empty book with a chart.
    pub fn new(name: &str, lsx: ChartOfAccounts) -> (r: Self)
        requires
            lsx.wf(),
        ensures
            r.wf(),
            r@.name == name@,
            r@.chart == lsx@,
            r@.txs.len() == 0,
            r@.validations.len() == 0,
    {
        Book { name: to_owned_string(name), chart: lsx, transactions: Vec::new(), validations: Vec::new() }
    }

    /// Assigns the next id and stores the transaction. Fails, leaving the
    /// book as it was, when the transaction already carries an id.
    pub fn add_transaction(&mut self, transaction: Transaction) -> (r: Result<i32, String>)
        requires
            old(self).wf(),
            old(self).transactions@.len() < i32::MAX,
            transaction.lines@.len() <= line_limit(),
        ensures
            final(self).wf(),
            r is Ok <==> transaction.id == 0,
            r matches Ok(id) ==> id == old(self)@.txs.len() + 1 && final(self)@ == (BookView {
                txs: old(self)@.txs.push(TxView { id: id as int, ..transaction@ }),
                ..old(self)@
            }),
            r matches Err(e) ==> final(self)@ == old(self)@ && e@ == id_taken_text(
                transaction.id as int,
                old(self)@.txs.len() as int + 1,
            ),
    {
        let mut transaction = transaction;
        let next = (self.transactions.len() + 1) as i32;
        match transaction.set_id(next) {
            Err(e) => Err(e),
            Ok(()) => {
                let ghost before = self@;
                self.transactions.push(transaction);
                proof {
                    assert(self@.txs =~= before.txs.push(TxView { id: next as int, ..transaction@ }));
                    assert forall|i: int| 0 <= i < self@.txs.len() implies #[trigger] self@.txs[i].lines.len() <= line_limit() by {
                        if i < before.txs.len() {
                            assert(self@.txs[i] == before.txs[i]);
                        }
                    }
                    assert forall|i: int| 0 <= i < self@.txs.len() implies (#[trigger] self@.txs[i]).id == i + 1 by {
                        if i < before.txs.len() {
                            assert(self@.txs[i] == before.txs[i]);
                        }
                    }
                }
                Ok(next)
            },
        }
    }

    /// The transaction with id `idv`, if any.
    pub fn get_transaction(&self, idv: i32) -> (r: Option<&Transaction>)
        requires
            self.wf(),
        ensures
            r is Some <==> 1 <= idv <= self@.txs.len(),
            r matches Some(t) ==> t@ == self@.txs[idv - 1],
    {
        if idv >= 1 && (idv as usize) <= self.transactions.len() {
            Some(&self.transactions[(idv - 1) as usize])
        } else {
            None
        }
    }

    /// The transaction with id `idv`, if any, for changing in place.
    pub fn get_transaction_mut(&mut self, idv: i32) -> (r: Option<&mut Transaction>)
        ensures
            r is Some <==> 1 <= idv <= old(self)@.txs.len(),
            r matches Some(t) ==> *t == old(self).transactions@[idv - 1] && final(self).transactions@
                == old(self).transactions@.update(idv - 1, *final(t)),
            r is None ==> *final(self) == *old(self),
            final(self).name == old(self).name,
            final(self).chart == old(self).chart,
            final(self).validations == old(self).validations,
    {
        if idv >= 1 && (idv as usize) <= self.transactions.len() {
            Some(&mut self.transactions[(idv - 1) as usize])
        } else {
            None
        }
    }

    /// Records a balance check: (date, account, expected balance).
    pub fn add_validation(&mut self, validation: (String, String, i64))
        ensures
            final(self).name == old(self).name,
            final(self).chart == old(self).chart,
            final(self).transactions == old(self).transactions,
            final(self)@.validations == old(self)@.validations.push(
                (validation.0@, validation.1@, validation.2 as int),
            ),
    {
        self.validations.push(validation);
        assert(self@.validations =~= old(self)@.validations.push((validation.0@, validation.1@, validation.2 as int)));
    }

    /// Ok when every transaction balances; else the error names the first
    /// one (by id) that does not.
    pub fn is_balanced(&self) -> (r: Result<(), String>)
        ensures
            r is Ok <==> forall|i: int| 0 <= i < self@.txs.len() ==> tx_balanced(#[trigger] self@.txs[i]),
            r matches Err(e) ==> exists|i: int|
                0 <= i < self@.txs.len() && !tx_balanced(#[trigger] self@.txs[i]) && e@ == unbalanced_text(
                    self@.txs[i],
                ) && forall|j: int| 0 <= j < i ==> tx_balanced(#[trigger] self@.txs[j]),
    {
        let mut i: usize = 0;
        while i < self.transactions.len()
            invariant
                i <= self.transactions@.len(),
                forall|j: int| 0 <= j < i ==> tx_balanced(#[trigger] self@.txs[j]),
            decreases self.transactions@.len() - i,
        {
            let trn = &self.transactions[i];
            if !trn.is_balanced() {
                let mut v = chars_of("Transaction ");
                extend_chars(&mut v, &int_text_exec(trn.id as i128));
                v.push(' ');
                extend_chars(&mut v, &chars_of(trn.date.format("%Y-%m-%d").as_str()));
                v.push(' ');
                extend_chars(&mut v, &chars_of(trn.perigrafi.as_str()));
                extend_chars(&mut v, &chars_of(" is not balanced"));
                assert(self@.txs[i as int] == trn@);
                return Err(string_of(&v));
            }
            assert(self@.txs[i as int] == trn@);
            i = i + 1;
        }
        Ok(())
    }
}

/// What `add_transaction` stores under the id it returns is what
/// `get_transaction` finds under that id: the transaction given, with the id.
pub proof fn lemma_added_transaction_found(b: BookView, t: TxView)
    ensures
        ({
            let id: int = b.txs.len() as int + 1;
            let after = BookView { txs: b.txs.push(TxView { id, ..t }), ..b };
            &&& 1 <= id <= after.txs.len()
            &&& after.txs[id - 1] == (TxView { id, ..t })
            &&& forall|k: int| 0 <= k < b.txs.len() ==> after.txs[k] == b.txs[k]
        }),
{
}

/// The views of a sequence of (transaction, line) references.
pub open spec fn entries_view(es: Seq<(&Transaction, &TransactionLine)>) -> Seq<Entry> {
    es.map_values(|e: (&Transaction, &TransactionLine)| (e.0@, e.1@))
}

/// Lines under an account prefix, or every line.
pub open spec fn sel_of(acc: Option<Seq<char>>) -> spec_fn(Entry) -> bool {
    match acc {
        Some(a) => under(a),
        None => any_entry(),
    }
}

/// The date a text bound denotes, if any.
pub fn bound_exec(s: Option<&str>) -> (r: Option<Date>)
    ensures
        match r {
            Some(d) => bound_of(opt_view(s)) == Some(d@),
            None => bound_of(opt_view(s)) is None,
        },
{
    match s {
        Some(x) => Date::parse_iso(x),
        None => None,
    }
}

fn in_span_exec(t: &Transaction, apo: Option<Date>, eos: Option<Date>) -> (b: bool)
    ensures
        b == in_span(
            t@,
            match apo {
                Some(d) => Some(d@),
                None => None,
            },
            match eos {
                Some(d) => Some(d@),
                None => None,
            },
        ),
{
    let after = match apo {
        Some(a) => !t.date.is_before(&a),
        None => true,
    };
    let before = match eos {
        Some(e) => !e.is_before(&t.date),
        None => true,
    };
    after && before
}

/// The selected lines of the transactions, transaction after transaction.
pub fn collect_entries<'a>(ts: &Vec<&'a Transaction>, acc: Option<&str>) -> (es: Vec<(&'a Transaction, &'a TransactionLine)>)
    ensures
        entries_view(es@) == keep(flat(txs_view(ts@)), sel_of(opt_view(acc))),
{
    let ghost tv = txs_view(ts@);
    let ghost p = sel_of(opt_view(acc));
    let mut es: Vec<(&'a Transaction, &'a TransactionLine)> = Vec::new();
    let mut i: usize = 0;
    while i < ts.len()
        invariant
            i <= ts@.len(),
            tv == txs_view(ts@),
            p == sel_of(opt_view(acc)),
            entries_view(es@) == keep(flat(tv.take(i as int)), p),
        decreases ts@.len() - i,
    {
        let t: &'a Transaction = ts[i];
        let ghost base = entries_view(es@);
        let mut j: usize = 0;
        while j < t.lines.len()
            invariant
                j <= t.lines@.len(),
                t@ == tv[i as int],
                p == sel_of(opt_view(acc)),
                entries_view(es@) == base + keep(line_entries(t@, j as nat), p),
            decreases t.lines@.len() - j,
        {
            let l: &'a TransactionLine = &t.lines[j];
            let take = match acc {
                Some(a) => str_starts_with(l.account_name.as_str(), a),
                None => true,
            };
            let ghost e: Entry = (t@, l@);
            proof {
                assert(t@.lines[j as int] == l@);
                assert(line_entries(t@, (j + 1) as nat).drop_last() == line_entries(t@, j as nat));
                assert(line_entries(t@, (j + 1) as nat).last() == e);
                assert(take == p(e));
            }
            if take {
                let ghost before = entries_view(es@);
                es.push((t, l));
                proof {
                    assert(entries_view(es@) =~= before.push(e));
                    assert(keep(line_entries(t@, (j + 1) as nat), p) == keep(line_entries(t@, j as nat), p) + seq![e]);
                    assert(entries_view(es@) =~= base + keep(line_entries(t@, (j + 1) as nat), p));
                }
            } else {
                proof {
                    assert(keep(line_entries(t@, j as nat), p) + Seq::<Entry>::empty() =~= keep(line_entries(t@, j as nat), p));
                }
            }
            j = j + 1;
        }
        proof {
            assert(tv.take(i + 1) =~= tv.take(i as int).push(t@));
            assert(tv.take(i + 1).drop_last() =~= tv.take(i as int));
            lemma_keep_concat(flat(tv.take(i as int)), tx_entries(t@), p);
        }
        i = i + 1;
    }
    assert(tv.take(ts@.len() as int) =~= tv);
    es
}

impl Book {
    /// The transactions dated within the optional bounds, by id. A bound
    /// that is not an ISO date bounds nothing.
    pub fn transactions_filter<'a>(&'a self, apo: Option<&str>, eos: Option<&str>) -> (r: Vec<
        &'a Transaction,
    >)
        ensures
            txs_view(r@) == span_txs(self@.txs, bound_of(opt_view(apo)), bound_of(opt_view(eos))),
    {
        let a = bound_exec(apo);
        let e = bound_exec(eos);
        let ghost av = match a {
            Some(d) => Some(d@),
            None => None,
        };
        let ghost ev = match e {
            Some(d) => Some(d@),
            None => None,
        };
        let mut r: Vec<&'a Transaction> = Vec::new();
        let mut i: usize = 0;
        while i < self.transactions.len()
            invariant
                i <= self.transactions@.len(),
                av == bound_of(opt_view(apo)),
                ev == bound_of(opt_view(eos)),
                av == (match a {
                    Some(d) => Some(d@),
                    None => None::<(int, int, int)>,
                }),
                ev == (match e {
                    Some(d) => Some(d@),
                    None => None::<(int, int, int)>,
                }),
                txs_view(r@) == span_txs(self@.txs.take(i as int), av, ev),
            decreases self.transactions@.len() - i,
        {
            let t = &self.transactions[i];
            proof {
                assert(self@.txs.take(i + 1).drop_last() =~= self@.txs.take(i as int));
                assert(self@.txs.take(i + 1).last() == t@);
            }
            if in_span_exec(t, a, e) {
                r.push(t);
                proof {
                    assert(txs_view(r@) =~= span_txs(self@.txs.take(i + 1), av, ev));
                }
            } else {
                proof {
                    assert(txs_view(r@) =~= span_txs(self@.txs.take(i + 1), av, ev));
                }
            }
            i = i + 1;
        }
        assert(self@.txs.take(self@.txs.len() as int) =~= self@.txs);
        r
    }

    /// Balance of the accounts whose name begins with `account_name`, over
    /// the transactions up to `eos`: the sum of their line values.
    pub fn ypoloipo(&self, account_name: &str, eos: Option<&str>) -> (r: i128)
        requires
            self.wf(),
        ensures
            r == ktotal(span_txs(self@.txs, None, bound_of(opt_view(eos))), under(account_name@), value_of()),
    {
        let ts = self.transactions_filter(None, eos);
        let es = collect_entries(&ts, Some(account_name));
        let ghost ev = entries_view(es@);
        proof {
            let f = span_txs(self@.txs, None, bound_of(opt_view(eos)));
            crate::ledger::lemma_span_txs(self@.txs, None, bound_of(opt_view(eos)));
            assert(lines_limited(f)) by {
                assert forall|i: int| 0 <= i < f.len() implies #[trigger] f[i].lines.len() <= line_limit() by {
                    let j = choose|j: int| 0 <= j < self@.txs.len() && self@.txs[j] == f[i];
                    assert(self@.txs[j].lines.len() <= line_limit());
                }
            }
            crate::ledger::lemma_entries_fit(f, under(account_name@));
            lemma_figs_bounded(self@.chart.cats);
        }
        let mut acc: i128 = 0;
        let mut i: usize = 0;
        while i < es.len()
            invariant
                i <= es@.len(),
                ev == entries_view(es@),
                es@.len() <= 0x7fff_ffff * line_limit(),
                acc == total(ev.take(i as int), value_of()),
                crate::ledger::fig_bounded(value_of()),
            decreases es@.len() - i,
        {
            proof {
                assert(ev.take(i + 1).drop_last() =~= ev.take(i as int));
                assert forall|k: int| 0 <= k < ev.take(i as int).len() implies -max_line() <= (#[trigger] ev.take(i as int)[k]).1.value < max_line() by {
                    assert(ev.take(i as int)[k] == (es@[k].0@, es@[k].1@));
                }
                lemma_total_bound(ev.take(i as int), value_of());
                assert(i * max_line() <= 0x7fff_ffff * line_limit() * max_line()) by (nonlinear_arith)
                    requires
                        i <= 0x7fff_ffff * line_limit(),
                ;
            }
            acc = acc + es[i].1.value as i128;
            i = i + 1;
        }
        assert(ev.take(es@.len() as int) =~= ev);
        acc
    }
}

/// The entries of the transactions within the span, sorted by date then id,
/// whose account begins with `acc`: the rows of an account card.
pub open spec fn card_entries(b: BookView, acc: Seq<char>, apo: Option<Seq<char>>, eos: Option<Seq<char>>) -> Seq<Entry> {
    keep(flat(sort_txs(span_txs(b.txs, bound_of(apo), bound_of(eos)))), under(acc))
}

/// Row `i` of an account card: the entry's fields and the running totals
/// over the first `i + 1` entries.
pub open spec fn card_row(row: KartellaLine, es: Seq<Entry>, i: int, cats: Seq<(Seq<char>, Seq<char>)>) -> bool {
    let (t, l) = es[i];
    &&& row.id == t.id
    &&& row.date@ == t.date
    &&& row.parastatiko@ == t.parastatiko
    &&& row.perigrafi@ == t.perigrafi
    &&& row.account_name@ == l.account
    &&& row.sxolio@ == l.sxolio
    &&& row.value == l.value
    &&& row.delta == line_delta(cats, l)
    &&& row.debit == line_debit(l)
    &&& row.credit == line_credit(l)
    &&& row.tvalue == total(es.take(i + 1), value_of())
    &&& row.tdebit == total(es.take(i + 1), debit_of())
    &&& row.tcredit == total(es.take(i + 1), credit_of())
    &&& row.tdelta == total(es.take(i + 1), delta_of(cats))
}

/// The entries of a book's transactions within a span (sorted or not) fit
/// the bounds that keep running totals within `i128`.
pub(crate) proof fn lemma_book_entries(b: BookView, apo: Option<(int, int, int)>, eos: Option<(int, int, int)>, sorted: bool, p: spec_fn(Entry) -> bool)
    requires
        lines_limited(b.txs),
        b.txs.len() <= i32::MAX,
    ensures
        ({
            let f = span_txs(b.txs, apo, eos);
            let s = if sorted { sort_txs(f) } else { f };
            &&& keep(flat(s), p).len() <= 0x7fff_ffff * line_limit()
            &&& lines_limited(s)
            &&& s.len() <= i32::MAX
        }),
{
    let f = span_txs(b.txs, apo, eos);
    crate::ledger::lemma_span_txs(b.txs, apo, eos);
    assert(lines_limited(f)) by {
        assert forall|i: int| 0 <= i < f.len() implies #[trigger] f[i].lines.len() <= line_limit() by {
            let j = choose|j: int| 0 <= j < b.txs.len() && b.txs[j] == f[i];
            assert(b.txs[j].lines.len() <= line_limit());
        }
    }
    let s = if sorted { sort_txs(f) } else { f };
    if sorted {
        crate::ledger::lemma_sort_members(f);
        assert(lines_limited(s)) by {
            assert forall|i: int| 0 <= i < s.len() implies #[trigger] s[i].lines.len() <= line_limit() by {
                let j = choose|j: int| 0 <= j < f.len() && f[j] == s[i];
                assert(f[j].lines.len() <= line_limit());
            }
        }
    }
    crate::ledger::lemma_entries_fit(s, p);
}

/// The lines selected from a span of a book's transactions are at most
/// `0x7fff_ffff * line_limit()` and each value fits an `i64`.
pub proof fn lemma_span_entries_bounded(
    b: &Book,
    apo: Option<(int, int, int)>,
    eos: Option<(int, int, int)>,
    p: spec_fn(Entry) -> bool,
)
    requires
        b.wf(),
    ensures
        crate::trial::entries_bounded(keep(flat(span_txs(b@.txs, apo, eos)), p)),
        keep(flat(span_txs(b@.txs, apo, eos)), p).len() <= 0x7fff_ffff * line_limit(),
{
    let f = span_txs(b@.txs, apo, eos);
    let fl = flat(f);
    let es = keep(fl, p);
    lemma_book_entries(b@, apo, eos, false, p);
    crate::ledger::lemma_span_txs(b@.txs, apo, eos);
    lemma_flat_len(f);
    lemma_keep_len(fl, p);
    assert forall|k: int| 0 <= k < es.len() implies -max_line() <= (#[trigger] es[k]).1.value < max_line() by {
        let j = choose|j: int| 0 <= j < fl.len() && fl[j] == es[k];
        let t = fl[j].0;
        assert(f.contains(fl[j].0));
        let q = choose|q: int| 0 <= q < f.len() && f[q] == t;
        assert(b@.txs.contains(f[q]));
        let i = choose|i: int| 0 <= i < b@.txs.len() && b@.txs[i] == f[q];
        assert(fl[j].0.lines.contains(fl[j].1));
        let m = choose|m: int| 0 <= m < t.lines.len() && t.lines[m] == es[k].1;
        assert(b@.txs[i] == b.transactions@[i]@);
        assert(t.lines[m] == b.transactions@[i].lines@[m]@);
    }
}

/// Running totals of up to `n` entries stay within `i128`.
proof fn lemma_running_bound(es: Seq<Entry>, i: int, f: spec_fn(LineView) -> int)
    requires
        0 <= i <= es.len(),
        es.len() <= 0x7fff_ffff * line_limit(),
        fig_bounded(f),
        forall|k: int| 0 <= k < es.len() ==> -max_line() <= (#[trigger] es[k]).1.value < max_line(),
    ensures
        -(0x7fff_ffff * line_limit() * max_line()) <= total(es.take(i), f) <= 0x7fff_ffff * line_limit() * max_line(),
{
    let t = es.take(i);
    assert forall|k: int| 0 <= k < t.len() implies -max_line() <= (#[trigger] t[k]).1.value < max_line() by {
        assert(t[k] == es[k]);
    }
    lemma_total_bound(t, f);
    assert(i * max_line() <= 0x7fff_ffff * line_limit() * max_line()) by (nonlinear_arith)
        requires
            i <= 0x7fff_ffff * line_limit(),
    ;
}

impl Book {
    /// The lines of the accounts under `account_name` within the span, in
    /// date order, each with the running totals up to it (the account card).
    pub fn kartella(&self, account_name: &str, apo: Option<&str>, eos: Option<&str>) -> (r: Vec<KartellaLine>)
        requires
            self.wf(),
        ensures
            r@.len() == card_entries(self@, account_name@, opt_view(apo), opt_view(eos)).len(),
            forall|i: int| 0 <= i < r@.len() ==> card_row(#[trigger] r@[i], card_entries(self@, account_name@, opt_view(apo), opt_view(eos)), i, self@.chart.cats),
    {
        let ts = sort_transactions(self.transactions_filter(apo, eos));
        let es = collect_entries(&ts, Some(account_name));
        let ghost ev = entries_view(es@);
        let ghost cats = self@.chart.cats;
        proof {
            lemma_book_entries(self@, bound_of(opt_view(apo)), bound_of(opt_view(eos)), true, under(account_name@));
            lemma_figs_bounded(cats);
            assert forall|k: int| 0 <= k < ev.len() implies -max_line() <= (#[trigger] ev[k]).1.value < max_line() by {
                assert(ev[k] == (es@[k].0@, es@[k].1@));
            }
        }
        let mut lines: Vec<KartellaLine> = Vec::new();
        let (mut tvalue, mut tdebit, mut tcredit, mut tdelta): (i128, i128, i128, i128) = (0, 0, 0, 0);
        let mut i: usize = 0;
        while i < es.len()
            invariant
                i <= es@.len(),
                ev == entries_view(es@),
                ev == card_entries(self@, account_name@, opt_view(apo), opt_view(eos)),
                cats == self@.chart.cats,
                es@.len() <= 0x7fff_ffff * line_limit(),
                forall|k: int| 0 <= k < ev.len() ==> -max_line() <= (#[trigger] ev[k]).1.value < max_line(),
                fig_bounded(value_of()),
                fig_bounded(debit_of()),
                fig_bounded(credit_of()),
                fig_bounded(delta_of(cats)),
                tvalue == total(ev.take(i as int), value_of()),
                tdebit == total(ev.take(i as int), debit_of()),
                tcredit == total(ev.take(i as int), credit_of()),
                tdelta == total(ev.take(i as int), delta_of(cats)),
                lines@.len() == i,
                forall|k: int| 0 <= k < i ==> card_row(#[trigger] lines@[k], ev, k, cats),
            decreases es@.len() - i,
        {
            let (trn, line) = es[i];
            proof {
                assert(ev[i as int] == (trn@, line@));
                assert(ev.take(i + 1).drop_last() =~= ev.take(i as int));
                lemma_running_bound(ev, i as int, value_of());
                lemma_running_bound(ev, i as int, debit_of());
                lemma_running_bound(ev, i as int, credit_of());
                lemma_running_bound(ev, i as int, delta_of(cats));
            }
            let delta = line.delta(&self.chart);
            let debit = line.debit();
            let credit = line.credit();
            tvalue = tvalue + line.value as i128;
            tdebit = tdebit + debit;
            tcredit = tcredit + credit;
            tdelta = tdelta + delta;
            lines.push(
                KartellaLine {
                    id: trn.id,
                    date: trn.date,
                    parastatiko: trn.parastatiko.clone(),
                    perigrafi: trn.perigrafi.clone(),
                    account_name: line.account_name.clone(),
                    sxolio: line.sxolio.clone(),
                    value: line.value,
                    delta,
                    debit,
                    credit,
                    tvalue,
                    tdebit,
                    tcredit,
                    tdelta,
                },
            );
            i = i + 1;
        }
        lines
    }
}

/// The running balance on the last row of an account card with no start
/// date is the account's balance up to the same end date.
pub proof fn lemma_kartella_ends_at_ypoloipo(b: BookView, acc: Seq<char>, eos: Option<Seq<char>>)
    requires
        card_entries(b, acc, None, eos).len() > 0,
    ensures
        ({
            let es = card_entries(b, acc, None, eos);
            total(es.take(es.len() as int), value_of()) == ktotal(span_txs(b.txs, None, bound_of(eos)), under(acc), value_of())
        }),
{
    let es = card_entries(b, acc, None, eos);
    assert(es.take(es.len() as int) =~= es);
    crate::ledger::lemma_ktotal_sort(span_txs(b.txs, None, bound_of(eos)), under(acc), value_of());
}

impl Book {
    /// The lines of the accounts under `account_name` within the span, in
    /// date order: (id, date, document, description, account, comment,
    /// value, delta, debit, credit).
    pub fn acclines(&self, account_name: &str, apo: Option<&str>, eos: Option<&str>) -> (r: Vec<
        (i32, Date, String, String, String, String, i64, i128, i128, i128),
    >)
        requires
            self.wf(),
        ensures
            r@.len() == card_entries(self@, account_name@, opt_view(apo), opt_view(eos)).len(),
            forall|i: int| 0 <= i < r@.len() ==> acc_line(#[trigger] r@[i], card_entries(self@, account_name@, opt_view(apo), opt_view(eos))[i], self@.chart.cats),
    {
        let ts = sort_transactions(self.transactions_filter(apo, eos));
        let es = collect_entries(&ts, Some(account_name));
        let ghost ev = entries_view(es@);
        let mut res: Vec<(i32, Date, String, String, String, String, i64, i128, i128, i128)> = Vec::new();
        let mut i: usize = 0;
        while i < es.len()
            invariant
                i <= es@.len(),
                ev == entries_view(es@),
                ev == card_entries(self@, account_name@, opt_view(apo), opt_view(eos)),
                res@.len() == i,
                forall|k: int| 0 <= k < i ==> acc_line(#[trigger] res@[k], ev[k], self@.chart.cats),
            decreases es@.len() - i,
        {
            let (trn, line) = es[i];
            assert(ev[i as int] == (trn@, line@));
            res.push(
                (
                    trn.id,
                    trn.date,
                    trn.parastatiko.clone(),
                    trn.perigrafi.clone(),
                    line.account_name.clone(),
                    line.sxolio.clone(),
                    line.value,
                    line.delta(&self.chart),
                    line.debit(),
                    line.credit(),
                ),
            );
            i = i + 1;
        }
        res
    }

    /// The account card as display rows, newest first: id, date, debit,
    /// credit, running balance, description, comment, document, delta.
    pub fn model_kartella(&self, account_name: &str, apo: Option<&str>, eos: Option<&str>) -> (r: Vec<[String; 9]>)
        requires
            self.wf(),
        ensures
            ({
                let es = card_entries(self@, account_name@, opt_view(apo), opt_view(eos));
                &&& r@.len() == es.len()
                &&& forall|i: int| 0 <= i < r@.len() ==> card_text(#[trigger] r@[i], es, es.len() - 1 - i, self@.chart.cats)
            }),
    {
        let lines = self.kartella(account_name, apo, eos);
        let ghost es = card_entries(self@, account_name@, opt_view(apo), opt_view(eos));
        let mut data: Vec<[String; 9]> = Vec::new();
        let mut k: usize = lines.len();
        while k > 0
            invariant
                k <= lines@.len(),
                lines@.len() == es.len(),
                es == card_entries(self@, account_name@, opt_view(apo), opt_view(eos)),
                forall|i: int| 0 <= i < lines@.len() ==> card_row(#[trigger] lines@[i], es, i, self@.chart.cats),
                data@.len() == lines@.len() - k,
                forall|i: int| 0 <= i < data@.len() ==> card_text(#[trigger] data@[i], es, es.len() - 1 - i, self@.chart.cats),
            decreases k,
        {
            k = k - 1;
            let lin = &lines[k];
            assert(card_row(lines@[k as int], es, k as int, self@.chart.cats));
            let row: [String; 9] = [
                string_of(&int_text_exec(lin.id as i128)),
                lin.date.format("%Y-%m-%d"),
                crate::money::f2gr(lin.debit),
                crate::money::f2gr(lin.credit),
                crate::money::f2gr(lin.tvalue),
                lin.perigrafi.clone(),
                lin.sxolio.clone(),
                lin.parastatiko.clone(),
                crate::money::fixed2(lin.delta),
            ];
            data.push(row);
        }
        data
    }
}

/// A line of `acclines` for an entry.
pub open spec fn acc_line(
    r: (i32, Date, String, String, String, String, i64, i128, i128, i128),
    e: Entry,
    cats: Seq<(Seq<char>, Seq<char>)>,
) -> bool {
    let (t, l) = e;
    &&& r.0 == t.id
    &&& r.1@ == t.date
    &&& r.2@ == t.parastatiko
    &&& r.3@ == t.perigrafi
    &&& r.4@ == l.account
    &&& r.5@ == l.sxolio
    &&& r.6 == l.value
    &&& r.7 == line_delta(cats, l)
    &&& r.8 == line_debit(l)
    &&& r.9 == line_credit(l)
}

/// The display row of card row `i`.
pub open spec fn card_text(row: [String; 9], es: Seq<Entry>, i: int, cats: Seq<(Seq<char>, Seq<char>)>) -> bool {
    let (t, l) = es[i];
    &&& row@[0]@ == int_text(t.id)
    &&& row@[1]@ == date_text(t.date, "%Y-%m-%d"@)
    &&& row@[2]@ == crate::money::f2gr_spec(line_debit(l))
    &&& row@[3]@ == crate::money::f2gr_spec(line_credit(l))
    &&& row@[4]@ == crate::money::f2gr_spec(total(es.take(i + 1), value_of()))
    &&& row@[5]@ == t.perigrafi
    &&& row@[6]@ == l.sxolio
    &&& row@[7]@ == t.parastatiko
    &&& row@[8]@ == crate::money::fixed2_spec(line_delta(cats, l))
}

/// The texts a card shows for one of its rows: id, date, debit, credit,
/// running balance, description, comment, document and the line's effect.
pub open spec fn line_text(row: [String; 9], line: KartellaLine) -> bool {
    &&& row@[0]@ == int_text(line.id as int)
    &&& row@[1]@ == date_text(line.date@, "%Y-%m-%d"@)
    &&& row@[2]@ == crate::money::f2gr_spec(line.debit as int)
    &&& row@[3]@ == crate::money::f2gr_spec(line.credit as int)
    &&& row@[4]@ == crate::money::f2gr_spec(line.tvalue as int)
    &&& row@[5]@ == line.perigrafi@
    &&& row@[6]@ == line.sxolio@
    &&& row@[7]@ == line.parastatiko@
    &&& row@[8]@ == crate::money::fixed2_spec(line.delta as int)
}

/// What `model_kartella` shows is the card that `kartella` gives, last row
/// first, each row written out as text.
pub proof fn lemma_model_kartella_is_kartella_reversed(
    b: BookView,
    acc: Seq<char>,
    apo: Option<Seq<char>>,
    eos: Option<Seq<char>>,
    k: Seq<KartellaLine>,
    m: Seq<[String; 9]>,
)
    requires
        k.len() == card_entries(b, acc, apo, eos).len(),
        forall|i: int| 0 <= i < k.len() ==> card_row(#[trigger] k[i], card_entries(b, acc, apo, eos), i, b.chart.cats),
        m.len() == card_entries(b, acc, apo, eos).len(),
        forall|i: int|
            0 <= i < m.len() ==> card_text(
                #[trigger] m[i],
                card_entries(b, acc, apo, eos),
                card_entries(b, acc, apo, eos).len() - 1 - i,
                b.chart.cats,
            ),
    ensures
        m.len() == k.len(),
        forall|i: int| 0 <= i < m.len() ==> line_text(#[trigger] m[i], k[k.len() - 1 - i]),
{
    let es = card_entries(b, acc, apo, eos);
    assert forall|i: int| 0 <= i < m.len() implies line_text(#[trigger] m[i], k[k.len() - 1 - i]) by {
        let j = k.len() - 1 - i;
        assert(card_row(k[j], es, j, b.chart.cats));
        assert(card_text(m[i], es, es.len() - 1 - i, b.chart.cats));
    }
}

} // verus!
