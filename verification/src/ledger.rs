//! The book as data: its lines taken one by one in transaction order, the
//! selections and totals over them, and the facts the reports rest on.

use vstd::prelude::*;

use crate::date::date_lt;
use crate::transaction::{max_line, TxView};
use crate::transaction_line::{line_credit, line_debit, line_delta, LineView};

verus! {

/// One line together with the transaction it belongs to.
pub type Entry = (TxView, LineView);

/// The most lines a transaction of a book may have.
pub open spec fn line_limit() -> int {
    0xffff_ffff
}

/// The first `n` lines of a transaction as entries.
pub open spec fn line_entries(t: TxView, n: nat) -> Seq<Entry>
    decreases n,
{
    if n == 0 {
        Seq::empty()
    } else {
        line_entries(t, (n - 1) as nat).push((t, t.lines[n - 1]))
    }
}

/// All lines of a transaction as entries.
pub open spec fn tx_entries(t: TxView) -> Seq<Entry> {
    line_entries(t, t.lines.len())
}

/// All lines of the transactions, transaction after transaction.
pub open spec fn flat(txs: Seq<TxView>) -> Seq<Entry>
    decreases txs.len(),
{
    if txs.len() == 0 {
        Seq::empty()
    } else {
        flat(txs.drop_last()) + tx_entries(txs.last())
    }
}

/// The entries that satisfy `p`, in order.
pub open spec fn keep(es: Seq<Entry>, p: spec_fn(Entry) -> bool) -> Seq<Entry>
    decreases es.len(),
{
    if es.len() == 0 {
        Seq::empty()
    } else {
        keep(es.drop_last(), p) + (if p(es.last()) {
            seq![es.last()]
        } else {
            Seq::empty()
        })
    }
}

/// The sum of a figure over the entries.
pub open spec fn total(es: Seq<Entry>, f: spec_fn(LineView) -> int) -> int
    decreases es.len(),
{
    if es.len() == 0 {
        0
    } else {
        total(es.drop_last(), f) + f(es.last().1)
    }
}

/// The line value.
pub open spec fn value_of() -> spec_fn(LineView) -> int {
    |l: LineView| l.value
}

/// The line debit.
pub open spec fn debit_of() -> spec_fn(LineView) -> int {
    |l: LineView| line_debit(l)
}

/// The line credit.
pub open spec fn credit_of() -> spec_fn(LineView) -> int {
    |l: LineView| line_credit(l)
}

/// The line value as shown for its account under the chart's categories.
pub open spec fn delta_of(cats: Seq<(Seq<char>, Seq<char>)>) -> spec_fn(LineView) -> int {
    |l: LineView| line_delta(cats, l)
}

/// Entries whose account name begins with `acc`.
pub open spec fn under(acc: Seq<char>) -> spec_fn(Entry) -> bool {
    |e: Entry| crate::text::has_prefix(e.1.account, acc)
}

/// Entries of exactly the account `acc`.
pub open spec fn named(acc: Seq<char>) -> spec_fn(Entry) -> bool {
    |e: Entry| e.1.account == acc
}

/// Every entry.
pub open spec fn any_entry() -> spec_fn(Entry) -> bool {
    |e: Entry| true
}

/// A transaction dated within the optional bounds (both inclusive).
pub open spec fn in_span(t: TxView, apo: Option<(int, int, int)>, eos: Option<(int, int, int)>) -> bool {
    &&& (match apo {
        Some(a) => !date_lt(t.date, a),
        None => true,
    })
    &&& (match eos {
        Some(e) => !date_lt(e, t.date),
        None => true,
    })
}

/// The transactions dated within the bounds, in order.
pub open spec fn span_txs(txs: Seq<TxView>, apo: Option<(int, int, int)>, eos: Option<(int, int, int)>) -> Seq<TxView>
    decreases txs.len(),
{
    if txs.len() == 0 {
        Seq::empty()
    } else {
        span_txs(txs.drop_last(), apo, eos) + (if in_span(txs.last(), apo, eos) {
            seq![txs.last()]
        } else {
            Seq::empty()
        })
    }
}

/// Order of transactions: by date, then by id.
pub open spec fn tx_before(a: TxView, b: TxView) -> bool {
    date_lt(a.date, b.date) || (a.date == b.date && a.id < b.id)
}

/// `t` inserted into a sorted sequence after every transaction not after it.
pub open spec fn insert_tx(t: TxView, s: Seq<TxView>) -> Seq<TxView>
    decreases s.len(),
{
    if s.len() == 0 {
        seq![t]
    } else if !tx_before(t, s.last()) {
        s.push(t)
    } else {
        insert_tx(t, s.drop_last()).push(s.last())
    }
}

/// The transactions sorted by date, then id (stable insertion sort).
pub open spec fn sort_txs(txs: Seq<TxView>) -> Seq<TxView>
    decreases txs.len(),
{
    if txs.len() == 0 {
        Seq::empty()
    } else {
        insert_tx(txs.last(), sort_txs(txs.drop_last()))
    }
}

/// Sum of figure `f` over the lines of `txs` selected by `p`.
pub open spec fn ktotal(txs: Seq<TxView>, p: spec_fn(Entry) -> bool, f: spec_fn(LineView) -> int) -> int {
    total(keep(flat(txs), p), f)
}

/// Every transaction has at most `line_limit()` lines.
pub open spec fn lines_limited(txs: Seq<TxView>) -> bool {
    forall|i: int| 0 <= i < txs.len() ==> #[trigger] txs[i].lines.len() <= line_limit()
}

/// Every figure of a line is at most 2^63 in magnitude.
pub open spec fn fig_bounded(f: spec_fn(LineView) -> int) -> bool {
    forall|l: LineView| -max_line() <= l.value < max_line() ==> -max_line() <= #[trigger] f(l) <= max_line()
}

// ------------------------------------------------------------------ lemmas

pub proof fn lemma_keep_concat(a: Seq<Entry>, b: Seq<Entry>, p: spec_fn(Entry) -> bool)
    ensures
        keep(a + b, p) == keep(a, p) + keep(b, p),
    decreases b.len(),
{
    if b.len() == 0 {
        assert(a + b =~= a);
        assert(keep(a, p) + keep(b, p) =~= keep(a, p));
    } else {
        lemma_keep_concat(a, b.drop_last(), p);
        assert((a + b).drop_last() =~= a + b.drop_last());
        assert((a + b).last() == b.last());
        assert(keep(a + b, p) =~= keep(a, p) + keep(b, p));
    }
}

pub proof fn lemma_total_concat(a: Seq<Entry>, b: Seq<Entry>, f: spec_fn(LineView) -> int)
    ensures
        total(a + b, f) == total(a, f) + total(b, f),
    decreases b.len(),
{
    if b.len() == 0 {
        assert(a + b =~= a);
    } else {
        lemma_total_concat(a, b.drop_last(), f);
        assert((a + b).drop_last() =~= a + b.drop_last());
        assert((a + b).last() == b.last());
    }
}

/// Adding a transaction at the end adds its selected lines to the total.
pub proof fn lemma_ktotal_push(s: Seq<TxView>, t: TxView, p: spec_fn(Entry) -> bool, f: spec_fn(LineView) -> int)
    ensures
        ktotal(s.push(t), p, f) == ktotal(s, p, f) + total(keep(tx_entries(t), p), f),
{
    assert(s.push(t).drop_last() =~= s);
    lemma_keep_concat(flat(s), tx_entries(t), p);
    lemma_total_concat(keep(flat(s), p), keep(tx_entries(t), p), f);
}

proof fn lemma_ktotal_insert(t: TxView, s: Seq<TxView>, p: spec_fn(Entry) -> bool, f: spec_fn(LineView) -> int)
    ensures
        ktotal(insert_tx(t, s), p, f) == ktotal(s, p, f) + total(keep(tx_entries(t), p), f),
    decreases s.len(),
{
    if s.len() == 0 {
        assert(seq![t] =~= Seq::<TxView>::empty().push(t));
        lemma_ktotal_push(Seq::empty(), t, p, f);
    } else if !tx_before(t, s.last()) {
        lemma_ktotal_push(s, t, p, f);
    } else {
        lemma_ktotal_insert(t, s.drop_last(), p, f);
        lemma_ktotal_push(insert_tx(t, s.drop_last()), s.last(), p, f);
        lemma_ktotal_push(s.drop_last(), s.last(), p, f);
        assert(s.drop_last().push(s.last()) =~= s);
    }
}

/// Sorting does not change any total.
pub proof fn lemma_ktotal_sort(s: Seq<TxView>, p: spec_fn(Entry) -> bool, f: spec_fn(LineView) -> int)
    ensures
        ktotal(sort_txs(s), p, f) == ktotal(s, p, f),
    decreases s.len(),
{
    if s.len() > 0 {
        lemma_ktotal_sort(s.drop_last(), p, f);
        lemma_ktotal_insert(s.last(), sort_txs(s.drop_last()), p, f);
        lemma_ktotal_push(s.drop_last(), s.last(), p, f);
        assert(s.drop_last().push(s.last()) =~= s);
    }
}

pub proof fn lemma_keep_len(es: Seq<Entry>, p: spec_fn(Entry) -> bool)
    ensures
        keep(es, p).len() <= es.len(),
        forall|i: int| 0 <= i < keep(es, p).len() ==> es.contains(#[trigger] keep(es, p)[i]),
    decreases es.len(),
{
    if es.len() > 0 {
        lemma_keep_len(es.drop_last(), p);
        let k = keep(es, p);
        assert forall|i: int| 0 <= i < k.len() implies es.contains(#[trigger] k[i]) by {
            if i < keep(es.drop_last(), p).len() {
                let x = keep(es.drop_last(), p)[i];
                assert(k[i] == x);
                let j = choose|j: int| 0 <= j < es.drop_last().len() && es.drop_last()[j] == x;
                assert(es[j] == x);
            } else {
                assert(k[i] == es.last());
                assert(es[es.len() - 1] == es.last());
            }
        }
    }
}

pub proof fn lemma_line_entries(t: TxView, n: nat)
    requires
        n <= t.lines.len(),
    ensures
        line_entries(t, n).len() == n,
        forall|i: int| 0 <= i < n ==> #[trigger] line_entries(t, n)[i] == (t, t.lines[i]),
    decreases n,
{
    if n > 0 {
        lemma_line_entries(t, (n - 1) as nat);
    }
}

/// How many lines the transactions hold, at most.
pub proof fn lemma_flat_len(txs: Seq<TxView>)
    requires
        lines_limited(txs),
    ensures
        flat(txs).len() <= txs.len() * line_limit(),
        forall|i: int| 0 <= i < flat(txs).len() ==> txs.contains(#[trigger] flat(txs)[i].0),
        forall|i: int| 0 <= i < flat(txs).len() ==> (#[trigger] flat(txs)[i]).0.lines.contains(flat(txs)[i].1),
    decreases txs.len(),
{
    if txs.len() > 0 {
        let s = txs.drop_last();
        let t = txs.last();
        assert(lines_limited(s)) by {
            assert forall|i: int| 0 <= i < s.len() implies #[trigger] s[i].lines.len() <= line_limit() by {
                assert(s[i] == txs[i]);
            }
        }
        lemma_flat_len(s);
        assert(txs[txs.len() - 1] == t);
        lemma_line_entries(t, t.lines.len());
        let fl = flat(txs);
        assert(fl == flat(s) + tx_entries(t));
        assert forall|i: int| 0 <= i < fl.len() implies txs.contains(#[trigger] fl[i].0) by {
            if i < flat(s).len() {
                assert(fl[i] == flat(s)[i]);
                let j = choose|j: int| 0 <= j < s.len() && s[j] == flat(s)[i].0;
                assert(txs[j] == s[j]);
            } else {
                assert(fl[i] == tx_entries(t)[i - flat(s).len()]);
                assert(txs[txs.len() - 1] == fl[i].0);
            }
        }
        assert forall|i: int| 0 <= i < fl.len() implies (#[trigger] fl[i]).0.lines.contains(fl[i].1) by {
            if i < flat(s).len() {
                assert(fl[i] == flat(s)[i]);
            } else {
                let k = i - flat(s).len();
                assert(fl[i] == tx_entries(t)[k]);
                assert(t.lines[k] == fl[i].1);
            }
        }
        assert(t.lines.len() <= line_limit());
        assert((txs.len() - 1) * line_limit() + line_limit() == txs.len() * line_limit()) by (nonlinear_arith);
    }
}

/// A total over entries is bounded by the number of entries times the bound of a figure.
pub proof fn lemma_total_bound(es: Seq<Entry>, f: spec_fn(LineView) -> int)
    requires
        fig_bounded(f),
        forall|i: int| 0 <= i < es.len() ==> -max_line() <= (#[trigger] es[i]).1.value < max_line(),
    ensures
        -(es.len() * max_line()) <= total(es, f) <= es.len() * max_line(),
    decreases es.len(),
{
    if es.len() > 0 {
        let l = es.last().1;
        assert(-max_line() <= es[es.len() - 1].1.value < max_line());
        assert(-max_line() <= f(l) <= max_line());
        lemma_total_bound(es.drop_last(), f);
    }
}

pub proof fn lemma_figs_bounded(cats: Seq<(Seq<char>, Seq<char>)>)
    ensures
        fig_bounded(value_of()),
        fig_bounded(debit_of()),
        fig_bounded(credit_of()),
        fig_bounded(delta_of(cats)),
{
}

pub proof fn lemma_flat_concat(a: Seq<TxView>, b: Seq<TxView>)
    ensures
        flat(a + b) == flat(a) + flat(b),
    decreases b.len(),
{
    if b.len() == 0 {
        assert(a + b =~= a);
        assert(flat(a) + flat(b) =~= flat(a));
    } else {
        lemma_flat_concat(a, b.drop_last());
        assert((a + b).drop_last() =~= a + b.drop_last());
        assert((a + b).last() == b.last());
        assert(flat(a + b) =~= flat(a) + flat(b));
    }
}

/// The transactions within a span are some of the transactions, in order.
pub proof fn lemma_span_txs(txs: Seq<TxView>, apo: Option<(int, int, int)>, eos: Option<(int, int, int)>)
    ensures
        span_txs(txs, apo, eos).len() <= txs.len(),
        forall|i: int| 0 <= i < span_txs(txs, apo, eos).len() ==> txs.contains(#[trigger] span_txs(txs, apo, eos)[i]),
        forall|i: int| 0 <= i < span_txs(txs, apo, eos).len() ==> in_span(#[trigger] span_txs(txs, apo, eos)[i], apo, eos),
    decreases txs.len(),
{
    if txs.len() > 0 {
        let s = txs.drop_last();
        lemma_span_txs(s, apo, eos);
        let r = span_txs(txs, apo, eos);
        let rs = span_txs(s, apo, eos);
        assert forall|i: int| 0 <= i < r.len() implies txs.contains(#[trigger] r[i]) && in_span(r[i], apo, eos) by {
            if i < rs.len() {
                assert(r[i] == rs[i]);
                let j = choose|j: int| 0 <= j < s.len() && s[j] == rs[i];
                assert(txs[j] == s[j]);
            } else {
                assert(r[i] == txs.last());
                assert(txs[txs.len() - 1] == txs.last());
            }
        }
    }
}

/// Members of an insertion are the inserted one and the old members.
pub proof fn lemma_insert_members(t: TxView, s: Seq<TxView>)
    ensures
        insert_tx(t, s).len() == s.len() + 1,
        forall|i: int| 0 <= i < insert_tx(t, s).len() ==> (#[trigger] insert_tx(t, s)[i] == t || s.contains(insert_tx(t, s)[i])),
    decreases s.len(),
{
    if s.len() > 0 && tx_before(t, s.last()) {
        lemma_insert_members(t, s.drop_last());
        let r = insert_tx(t, s);
        let r0 = insert_tx(t, s.drop_last());
        assert forall|i: int| 0 <= i < r.len() implies (#[trigger] r[i] == t || s.contains(r[i])) by {
            if i < r0.len() {
                assert(r[i] == r0[i]);
                if r0[i] != t {
                    let j = choose|j: int| 0 <= j < s.drop_last().len() && s.drop_last()[j] == r0[i];
                    assert(s[j] == r0[i]);
                }
            } else {
                assert(s[s.len() - 1] == r[i]);
            }
        }
    } else if s.len() > 0 {
        let r = insert_tx(t, s);
        assert forall|i: int| 0 <= i < r.len() implies (#[trigger] r[i] == t || s.contains(r[i])) by {
            if i < s.len() {
                assert(r[i] == s[i]);
            }
        }
    }
}

/// Sorting keeps the number of transactions and takes no new ones in.
pub proof fn lemma_sort_members(s: Seq<TxView>)
    ensures
        sort_txs(s).len() == s.len(),
        forall|i: int| 0 <= i < sort_txs(s).len() ==> s.contains(#[trigger] sort_txs(s)[i]),
    decreases s.len(),
{
    if s.len() > 0 {
        lemma_sort_members(s.drop_last());
        let r0 = sort_txs(s.drop_last());
        lemma_insert_members(s.last(), r0);
        let r = sort_txs(s);
        assert forall|i: int| 0 <= i < r.len() implies s.contains(#[trigger] r[i]) by {
            if r[i] == s.last() {
                assert(s[s.len() - 1] == r[i]);
            } else {
                assert(r0.contains(r[i]));
                let j = choose|j: int| 0 <= j < r0.len() && r0[j] == r[i];
                assert(s.drop_last().contains(r0[j]));
                let k = choose|k: int| 0 <= k < s.drop_last().len() && s.drop_last()[k] == r0[j];
                assert(s[k] == r[i]);
            }
        }
    }
}

/// Where a transaction goes in a sorted run: after every one not after it.
pub proof fn lemma_insert_at(t: TxView, s: Seq<TxView>, j: int)
    requires
        0 <= j <= s.len(),
        forall|k: int| j <= k < s.len() ==> tx_before(t, #[trigger] s[k]),
        j > 0 ==> !tx_before(t, s[j - 1]),
    ensures
        insert_tx(t, s) == s.take(j).push(t) + s.skip(j),
    decreases s.len(),
{
    if s.len() == 0 {
        assert(s.take(j).push(t) + s.skip(j) =~= seq![t]);
    } else if j == s.len() {
        assert(s.take(j) =~= s);
        assert(s.skip(j) =~= Seq::<TxView>::empty());
        assert(s.take(j).push(t) + s.skip(j) =~= s.push(t));
    } else {
        assert(tx_before(t, s[s.len() - 1]));
        let s0 = s.drop_last();
        assert forall|k: int| j <= k < s0.len() implies tx_before(t, #[trigger] s0[k]) by {
            assert(s0[k] == s[k]);
        }
        lemma_insert_at(t, s0, j);
        assert((s0.take(j).push(t) + s0.skip(j)).push(s.last()) =~= s.take(j).push(t) + s.skip(j));
    }
}

/// A bound on how many lines a book's transactions hold.
pub proof fn lemma_entries_fit(txs: Seq<TxView>, p: spec_fn(Entry) -> bool)
    requires
        lines_limited(txs),
        txs.len() <= i32::MAX,
    ensures
        keep(flat(txs), p).len() <= flat(txs).len(),
        flat(txs).len() <= 0x7fff_ffff * line_limit(),
{
    lemma_flat_len(txs);
    lemma_keep_len(flat(txs), p);
    assert(txs.len() * line_limit() <= 0x7fff_ffff * line_limit()) by (nonlinear_arith)
        requires
            txs.len() <= 0x7fff_ffff,
    ;
}

/// No entry satisfies `p`: nothing is kept.
pub proof fn lemma_keep_none(es: Seq<Entry>, p: spec_fn(Entry) -> bool)
    requires
        forall|j: int| 0 <= j < es.len() ==> !p(#[trigger] es[j]),
    ensures
        keep(es, p) == Seq::<Entry>::empty(),
    decreases es.len(),
{
    if es.len() > 0 {
        let s = es.drop_last();
        assert forall|j: int| 0 <= j < s.len() implies !p(#[trigger] s[j]) by {
            assert(s[j] == es[j]);
        }
        lemma_keep_none(s, p);
        assert(!p(es[es.len() - 1]));
        assert(keep(es, p) =~= Seq::<Entry>::empty());
    }
}

/// Every entry satisfies `p`: all are kept.
pub proof fn lemma_keep_all(es: Seq<Entry>, p: spec_fn(Entry) -> bool)
    requires
        forall|j: int| 0 <= j < es.len() ==> p(#[trigger] es[j]),
    ensures
        keep(es, p) == es,
    decreases es.len(),
{
    if es.len() > 0 {
        let s = es.drop_last();
        assert forall|j: int| 0 <= j < s.len() implies p(#[trigger] s[j]) by {
            assert(s[j] == es[j]);
        }
        lemma_keep_all(s, p);
        assert(p(es[es.len() - 1]));
        assert(keep(es, p) =~= es);
    }
}

/// Keeping over one more entry.
pub proof fn lemma_keep_push(es: Seq<Entry>, e: Entry, p: spec_fn(Entry) -> bool)
    ensures
        keep(es.push(e), p) == keep(es, p) + (if p(e) {
            seq![e]
        } else {
            Seq::<Entry>::empty()
        }),
        total(es.push(e), value_of()) == total(es, value_of()) + e.1.value,
{
    assert(es.push(e).drop_last() =~= es);
    assert(es.push(e).last() == e);
}

/// A total over one more entry.
pub proof fn lemma_total_push(es: Seq<Entry>, e: Entry, f: spec_fn(LineView) -> int)
    ensures
        total(es.push(e), f) == total(es, f) + f(e.1),
{
    assert(es.push(e).drop_last() =~= es);
}

/// Debit less credit is the value, entry by entry and so in total.
proof fn lemma_debit_credit(es: Seq<Entry>)
    ensures
        total(es, debit_of()) - total(es, credit_of()) == total(es, value_of()),
    decreases es.len(),
{
    if es.len() > 0 {
        lemma_debit_credit(es.drop_last());
    }
}

proof fn lemma_line_entries_total(t: TxView, n: nat)
    requires
        n <= t.lines.len(),
    ensures
        total(line_entries(t, n), value_of()) == crate::transaction::sum_values(t.lines.take(n as int)),
    decreases n,
{
    if n > 0 {
        lemma_line_entries_total(t, (n - 1) as nat);
        assert(t.lines.take(n as int).drop_last() =~= t.lines.take(n - 1));
        assert(line_entries(t, n).drop_last() == line_entries(t, (n - 1) as nat));
    } else {
        assert(t.lines.take(0) =~= Seq::<LineView>::empty());
    }
}

/// Double entry: when every transaction balances, the values of all their
/// lines sum to zero and total debit equals total credit, over the whole
/// book or any span of its dates.
pub proof fn lemma_balanced_books_sum_to_zero(txs: Seq<TxView>, apo: Option<(int, int, int)>, eos: Option<(int, int, int)>)
    requires
        forall|i: int| 0 <= i < txs.len() ==> crate::transaction::sum_values(#[trigger] txs[i].lines) == 0,
    ensures
        total(flat(span_txs(txs, apo, eos)), value_of()) == 0,
        total(flat(span_txs(txs, apo, eos)), debit_of()) == total(flat(span_txs(txs, apo, eos)), credit_of()),
{
    let f = span_txs(txs, apo, eos);
    lemma_span_txs(txs, apo, eos);
    assert forall|i: int| 0 <= i < f.len() implies crate::transaction::sum_values(#[trigger] f[i].lines) == 0 by {
        let j = choose|j: int| 0 <= j < txs.len() && txs[j] == f[i];
    }
    lemma_balanced_sum(f);
    lemma_debit_credit(flat(f));
}

proof fn lemma_balanced_sum(txs: Seq<TxView>)
    requires
        forall|i: int| 0 <= i < txs.len() ==> crate::transaction::sum_values(#[trigger] txs[i].lines) == 0,
    ensures
        total(flat(txs), value_of()) == 0,
    decreases txs.len(),
{
    if txs.len() > 0 {
        let s = txs.drop_last();
        let t = txs.last();
        assert forall|i: int| 0 <= i < s.len() implies crate::transaction::sum_values(#[trigger] s[i].lines) == 0 by {
            assert(s[i] == txs[i]);
        }
        lemma_balanced_sum(s);
        assert(crate::transaction::sum_values(txs[txs.len() - 1].lines) == 0);
        lemma_total_concat(flat(s), tx_entries(t), value_of());
        lemma_line_entries_total(t, t.lines.len());
        assert(t.lines.take(t.lines.len() as int) =~= t.lines);
    }
}

/// Transactions in date order, then id order: none comes before an earlier one.
pub open spec fn txs_sorted(s: Seq<TxView>) -> bool {
    forall|i: int, j: int| 0 <= i < j < s.len() ==> !tx_before(#[trigger] s[j], #[trigger] s[i])
}

/// Entries in date order.
pub open spec fn entries_dated(es: Seq<Entry>) -> bool {
    forall|i: int, j: int| 0 <= i < j < es.len() ==> !date_lt((#[trigger] es[j]).0.date, (#[trigger] es[i]).0.date)
}

proof fn lemma_insert_sorted(t: TxView, s: Seq<TxView>)
    requires
        txs_sorted(s),
    ensures
        txs_sorted(insert_tx(t, s)),
    decreases s.len(),
{
    if s.len() == 0 {
    } else if !tx_before(t, s.last()) {
        let r = s.push(t);
        assert forall|i: int, j: int| 0 <= i < j < r.len() implies !tx_before(#[trigger] r[j], #[trigger] r[i]) by {
            if j == s.len() {
                if i < s.len() - 1 {
                    assert(!tx_before(s[s.len() - 1], s[i]));
                }
            } else {
                assert(r[i] == s[i] && r[j] == s[j]);
            }
        }
    } else {
        let s0 = s.drop_last();
        assert forall|i: int, j: int| 0 <= i < j < s0.len() implies !tx_before(#[trigger] s0[j], #[trigger] s0[i]) by {
            assert(s0[i] == s[i] && s0[j] == s[j]);
        }
        lemma_insert_sorted(t, s0);
        lemma_insert_members(t, s0);
        let r0 = insert_tx(t, s0);
        let r = r0.push(s.last());
        assert forall|i: int, j: int| 0 <= i < j < r.len() implies !tx_before(#[trigger] r[j], #[trigger] r[i]) by {
            if j == r0.len() {
                assert(r[i] == r0[i]);
                if r0[i] != t {
                    let k = choose|k: int| 0 <= k < s0.len() && s0[k] == r0[i];
                    assert(!tx_before(s[s.len() - 1], s[k]));
                }
            } else {
                assert(r[i] == r0[i] && r[j] == r0[j]);
            }
        }
    }
}

/// Sorting gives the transactions in order.
pub proof fn lemma_sort_sorted(s: Seq<TxView>)
    ensures
        txs_sorted(sort_txs(s)),
    decreases s.len(),
{
    if s.len() > 0 {
        lemma_sort_sorted(s.drop_last());
        lemma_insert_sorted(s.last(), sort_txs(s.drop_last()));
    }
}

/// The lines of transactions in order are in date order.
proof fn lemma_flat_dated(s: Seq<TxView>)
    requires
        txs_sorted(s),
    ensures
        entries_dated(flat(s)),
        forall|i: int| 0 <= i < flat(s).len() ==> s.contains(#[trigger] flat(s)[i].0),
    decreases s.len(),
{
    if s.len() > 0 {
        let s0 = s.drop_last();
        let t = s.last();
        assert forall|i: int, j: int| 0 <= i < j < s0.len() implies !tx_before(#[trigger] s0[j], #[trigger] s0[i]) by {
            assert(s0[i] == s[i] && s0[j] == s[j]);
        }
        lemma_flat_dated(s0);
        lemma_line_entries(t, t.lines.len());
        let a = flat(s0);
        let b = tx_entries(t);
        let f = flat(s);
        assert(f == a + b);
        assert forall|i: int| 0 <= i < f.len() implies s.contains(#[trigger] f[i].0) by {
            if i < a.len() {
                assert(f[i] == a[i]);
                let k = choose|k: int| 0 <= k < s0.len() && s0[k] == a[i].0;
                assert(s[k] == s0[k]);
            } else {
                assert(f[i] == b[i - a.len()]);
                assert(s[s.len() - 1] == t);
            }
        }
        assert forall|i: int, j: int| 0 <= i < j < f.len() implies !date_lt((#[trigger] f[j]).0.date, (#[trigger] f[i]).0.date) by {
            if j < a.len() {
                assert(f[i] == a[i] && f[j] == a[j]);
            } else if i < a.len() {
                assert(f[i] == a[i]);
                assert(f[j] == b[j - a.len()]);
                let k = choose|k: int| 0 <= k < s0.len() && s0[k] == a[i].0;
                assert(s[k] == s0[k]);
                assert(!tx_before(s[s.len() - 1], s[k]));
            } else {
                assert(f[i] == b[i - a.len()] && f[j] == b[j - a.len()]);
            }
        }
    }
}

/// Keeping some entries keeps their order.
proof fn lemma_keep_dated(es: Seq<Entry>, p: spec_fn(Entry) -> bool)
    requires
        entries_dated(es),
    ensures
        entries_dated(keep(es, p)),
    decreases es.len(),
{
    if es.len() > 0 {
        let s = es.drop_last();
        let e = es.last();
        assert forall|i: int, j: int| 0 <= i < j < s.len() implies !date_lt((#[trigger] s[j]).0.date, (#[trigger] s[i]).0.date) by {
            assert(s[i] == es[i] && s[j] == es[j]);
        }
        lemma_keep_dated(s, p);
        lemma_keep_len(s, p);
        let k0 = keep(s, p);
        let k = keep(es, p);
        if p(e) {
            assert(k == k0 + seq![e]);
            assert forall|i: int, j: int| 0 <= i < j < k.len() implies !date_lt((#[trigger] k[j]).0.date, (#[trigger] k[i]).0.date) by {
                if j < k0.len() {
                    assert(k[i] == k0[i] && k[j] == k0[j]);
                } else {
                    assert(k[i] == k0[i]);
                    assert(k[j] == e);
                    let m = choose|m: int| 0 <= m < s.len() && s[m] == k0[i];
                    assert(es[m] == s[m]);
                    assert(es[es.len() - 1] == e);
                }
            }
        } else {
            assert(k =~= k0);
        }
    }
}

/// The card entries of sorted transactions come in date order, every one of
/// them from a transaction of the list.
pub proof fn lemma_card_dated(s: Seq<TxView>, p: spec_fn(Entry) -> bool)
    ensures
        entries_dated(keep(flat(sort_txs(s)), p)),
        forall|i: int| 0 <= i < keep(flat(sort_txs(s)), p).len() ==> s.contains(#[trigger] keep(flat(sort_txs(s)), p)[i].0),
{
    let st = sort_txs(s);
    lemma_sort_sorted(s);
    lemma_sort_members(s);
    lemma_flat_dated(st);
    lemma_keep_dated(flat(st), p);
    lemma_keep_len(flat(st), p);
    let k = keep(flat(st), p);
    assert forall|i: int| 0 <= i < k.len() implies s.contains(#[trigger] k[i].0) by {
        let j = choose|j: int| 0 <= j < flat(st).len() && flat(st)[j] == k[i];
        assert(st.contains(flat(st)[j].0));
        let q = choose|q: int| 0 <= q < st.len() && st[q] == flat(st)[j].0;
    }
}

/// Two tests that agree on every entry keep the same entries.
pub proof fn lemma_keep_agree(es: Seq<Entry>, p: spec_fn(Entry) -> bool, q: spec_fn(Entry) -> bool)
    requires
        forall|i: int| 0 <= i < es.len() ==> p(#[trigger] es[i]) == q(es[i]),
    ensures
        keep(es, p) == keep(es, q),
    decreases es.len(),
{
    if es.len() > 0 {
        let s = es.drop_last();
        assert forall|i: int| 0 <= i < s.len() implies p(#[trigger] s[i]) == q(s[i]) by {
            assert(s[i] == es[i]);
        }
        lemma_keep_agree(s, p, q);
        assert(p(es[es.len() - 1]) == q(es[es.len() - 1]));
    }
}

} // verus!
