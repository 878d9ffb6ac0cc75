//! The trial balance: totals per account, and per level of the account tree.

use vstd::prelude::*;

use crate::book::{bound_of, collect_entries, entries_view, lemma_book_entries, opt_view, Book, BookView};
use crate::ledger::{
    any_entry, credit_of, debit_of, delta_of, flat, keep, lemma_figs_bounded, lemma_keep_all,
    lemma_keep_len, lemma_keep_none, lemma_keep_push, lemma_total_bound, lemma_total_push,
    line_limit, named, span_txs, value_of, Entry,
};
use crate::text::{chars_of, lemma_text_lt_asym, string_of, text_lt};
use crate::totals::{line_tot, lists, tot4, tot_add, tot_at, tot_fits, upsert, IsoTotals};
use crate::transaction::{max_line, txs_view};
use crate::utils::{account_tree, tree_levels};

verus! {

/// The entries of the book's transactions dated within the span.
pub open spec fn span_entries(b: BookView, apo: Option<Seq<char>>, eos: Option<Seq<char>>) -> Seq<Entry> {
    flat(span_txs(b.txs, bound_of(apo), bound_of(eos)))
}

/// Some entry is on account `k`.
pub open spec fn has_entry_on(es: Seq<Entry>, k: Seq<char>) -> bool {
    exists|i: int| 0 <= i < es.len() && (#[trigger] es[i]).1.account == k
}

/// The totals of each account that has entries.
pub open spec fn plain_totals(es: Seq<Entry>, cats: Seq<(Seq<char>, Seq<char>)>) -> Map<Seq<char>, (int, int, int, int)> {
    Map::new(|k: Seq<char>| has_entry_on(es, k), |k: Seq<char>| tot4(keep(es, named(k)), cats))
}

/// `v` lists the map `m` in strictly increasing key order.
pub open spec fn listed(v: Seq<(String, IsoTotals)>, m: Map<Seq<char>, (int, int, int, int)>) -> bool {
    &&& forall|i: int, j: int| 0 <= i < j < v.len() ==> text_lt(#[trigger] v[i].0@, #[trigger] v[j].0@)
    &&& forall|i: int| 0 <= i < v.len() ==> m.contains_key(#[trigger] v[i].0@) && m[v[i].0@] == v[i].1@
    &&& forall|k: Seq<char>| m.contains_key(k) ==> exists|i: int| 0 <= i < v.len() && #[trigger] v[i].0@ == k
}

/// The levels of an account in the tree of the chart ("a", "a.b", "a.b.c").
pub open spec fn levels_of(a: Seq<char>) -> Seq<Seq<char>> {
    tree_levels(a, "."@)
}

/// Entries whose account has `k` among its levels.
pub open spec fn in_tree(k: Seq<char>) -> spec_fn(Entry) -> bool {
    |e: Entry| levels_of(e.1.account).contains(k)
}

/// Some entry's account has `k` among its levels.
pub open spec fn has_level(es: Seq<Entry>, k: Seq<char>) -> bool {
    exists|i: int| 0 <= i < es.len() && levels_of((#[trigger] es[i]).1.account).contains(k)
}

/// The totals of each level of the account tree: over all entries whose
/// account lies under it.
pub open spec fn tree_totals(es: Seq<Entry>, cats: Seq<(Seq<char>, Seq<char>)>) -> Map<Seq<char>, (int, int, int, int)> {
    Map::new(|k: Seq<char>| has_level(es, k), |k: Seq<char>| tot4(keep(es, in_tree(k)), cats))
}

/// Every account with entries is in the chart.
pub open spec fn all_registered(es: Seq<Entry>, names: Seq<Seq<char>>) -> bool {
    forall|i: int| 0 <= i < es.len() ==> names.contains((#[trigger] es[i]).1.account)
}

/// The text of the error for an account missing from the chart.
pub open spec fn missing_text(a: Seq<char>) -> Seq<char> {
    "Account "@ + a + " not fount in chart of accounts"@
}

/// `e` reports the first account (in text order) with entries that the chart lacks.
pub open spec fn tree_error(es: Seq<Entry>, names: Seq<Seq<char>>, e: Seq<char>) -> bool {
    exists|i: int|
        0 <= i < es.len() && !names.contains((#[trigger] es[i]).1.account) && e == missing_text(es[i].1.account)
            && forall|j: int|
            0 <= j < es.len() && !names.contains((#[trigger] es[j]).1.account) ==> !text_lt(
                es[j].1.account,
                es[i].1.account,
            )
}

/// The rows of the trial balance for the map `m`: key order, each key with
/// its balance written in Greek style.
pub open spec fn listed_rows(rows: Seq<[String; 2]>, m: Map<Seq<char>, (int, int, int, int)>) -> bool {
    &&& forall|i: int, j: int| 0 <= i < j < rows.len() ==> text_lt(#[trigger] rows[i]@[0]@, #[trigger] rows[j]@[0]@)
    &&& forall|i: int| 0 <= i < rows.len() ==> m.contains_key(#[trigger] rows[i]@[0]@)
        && rows[i]@[1]@ == crate::money::f2gr_spec(m[rows[i]@[0]@].0)
    &&& forall|k: Seq<char>| m.contains_key(k) ==> exists|i: int| 0 <= i < rows.len() && #[trigger] rows[i]@[0]@ == k
}

/// Every figure of every entry fits an `i64`.
pub open spec fn entries_bounded(es: Seq<Entry>) -> bool {
    forall|k: int| 0 <= k < es.len() ==> -max_line() <= (#[trigger] es[k]).1.value < max_line()
}

// ------------------------------------------------------------------ lemmas

proof fn lemma_tot4_fits(es: Seq<Entry>, cats: Seq<(Seq<char>, Seq<char>)>)
    requires
        es.len() <= 0x7fff_ffff * line_limit(),
        entries_bounded(es),
    ensures
        tot_fits(tot4(es, cats)),
{
    lemma_figs_bounded(cats);
    lemma_total_bound(es, value_of());
    lemma_total_bound(es, debit_of());
    lemma_total_bound(es, credit_of());
    lemma_total_bound(es, delta_of(cats));
    assert(es.len() * max_line() <= 0x7fff_ffff * line_limit() * max_line()) by (nonlinear_arith)
        requires
            es.len() <= 0x7fff_ffff * line_limit(),
    ;
}

proof fn lemma_kept_bounded(es: Seq<Entry>, p: spec_fn(Entry) -> bool)
    requires
        entries_bounded(es),
    ensures
        entries_bounded(keep(es, p)),
        keep(es, p).len() <= es.len(),
{
    lemma_keep_len(es, p);
    let k = keep(es, p);
    assert forall|i: int| 0 <= i < k.len() implies -max_line() <= (#[trigger] k[i]).1.value < max_line() by {
        let j = choose|j: int| 0 <= j < es.len() && es[j] == k[i];
    }
}

proof fn lemma_tot4_push(s: Seq<Entry>, e: Entry, cats: Seq<(Seq<char>, Seq<char>)>)
    ensures
        tot4(s.push(e), cats) == tot_add(tot4(s, cats), line_tot(cats, e.1)),
{
    lemma_total_push(s, e, value_of());
    lemma_total_push(s, e, debit_of());
    lemma_total_push(s, e, credit_of());
    lemma_total_push(s, e, delta_of(cats));
}

/// One more entry adds its figures to the totals of its account.
proof fn lemma_plain_step(es: Seq<Entry>, i: int, cats: Seq<(Seq<char>, Seq<char>)>)
    requires
        0 <= i < es.len(),
    ensures
        ({
            let a = es[i].1.account;
            let m = plain_totals(es.take(i), cats);
            plain_totals(es.take(i + 1), cats) == m.insert(a, tot_add(tot_at(m, a), line_tot(cats, es[i].1)))
        }),
{
    let s = es.take(i);
    let e = es[i];
    let t = es.take(i + 1);
    assert(t =~= s.push(e));
    let a = e.1.account;
    let m = plain_totals(s, cats);
    let m2 = plain_totals(t, cats);
    let lt = line_tot(cats, e.1);
    let m3 = m.insert(a, tot_add(tot_at(m, a), lt));
    assert forall|k: Seq<char>| #[trigger] m2.contains_key(k) == m3.contains_key(k) by {
        if k == a {
            assert(t[i] == e);
        }
        if m.contains_key(k) {
            let j = choose|j: int| 0 <= j < s.len() && (#[trigger] s[j]).1.account == k;
            assert(t[j] == s[j]);
        }
        if m2.contains_key(k) && k != a {
            let j = choose|j: int| 0 <= j < t.len() && (#[trigger] t[j]).1.account == k;
            assert(j < i);
            assert(s[j] == t[j]);
        }
    }
    assert forall|k: Seq<char>| m2.contains_key(k) implies m2[k] == m3[k] by {
        lemma_keep_push(s, e, named(k));
        let ks = keep(s, named(k));
        if k == a {
            assert(ks + seq![e] =~= ks.push(e));
            lemma_tot4_push(ks, e, cats);
            if !m.contains_key(a) {
                assert forall|j: int| 0 <= j < s.len() implies !named(a)(#[trigger] s[j]) by {}
                lemma_keep_none(s, named(a));
            }
        } else {
            assert(ks + Seq::<Entry>::empty() =~= ks);
        }
    }
    assert(m2 =~= m3);
}

/// The levels of an account are distinct: each is longer than the one before.
pub proof fn lemma_levels_distinct(a: Seq<char>)
    ensures
        levels_of(a).no_duplicates(),
        levels_of(a).len() >= 1,
        levels_of(a).contains(a),
{
    reveal_strlit(".");
    let sep = "."@;
    let parts = crate::text::split_on(a, sep);
    let lv = levels_of(a);
    crate::utils::lemma_tree_ends_with_account(a, sep);
    assert(lv[lv.len() - 1] == a);
    assert forall|j: int| 0 <= j < lv.len() - 1 implies (#[trigger] lv[j]).len() < lv[j + 1].len() by {
        assert(parts.take(j + 2) =~= parts.take(j + 1).push(parts[j + 1]));
        crate::text::lemma_join_push(parts.take(j + 1), parts[j + 1], sep);
    }
    assert forall|i: int, j: int| 0 <= i < j < lv.len() implies lv[i].len() < lv[j].len() by {
        lemma_lengths_grow(lv, i, j);
    }
}

proof fn lemma_lengths_grow(lv: Seq<Seq<char>>, i: int, j: int)
    requires
        0 <= i < j < lv.len(),
        forall|k: int| 0 <= k < lv.len() - 1 ==> (#[trigger] lv[k]).len() < lv[k + 1].len(),
    ensures
        lv[i].len() < lv[j].len(),
    decreases j - i,
{
    assert(lv[j - 1].len() < lv[j].len());
    if i < j - 1 {
        lemma_lengths_grow(lv, i, j - 1);
    }
}

/// The tree totals over `s`, with the first `j` levels `lv` of a further
/// entry of figures `lt` already added.
pub open spec fn tree_partial(
    s: Seq<Entry>,
    lv: Seq<Seq<char>>,
    j: int,
    lt: (int, int, int, int),
    cats: Seq<(Seq<char>, Seq<char>)>,
) -> Map<Seq<char>, (int, int, int, int)> {
    Map::new(
        |k: Seq<char>| has_level(s, k) || lv.take(j).contains(k),
        |k: Seq<char>|
            tot_add(
                tot4(keep(s, in_tree(k)), cats),
                if lv.take(j).contains(k) {
                    lt
                } else {
                    (0int, 0int, 0int, 0int)
                },
            ),
    )
}

proof fn lemma_tree_partial_start(s: Seq<Entry>, lv: Seq<Seq<char>>, lt: (int, int, int, int), cats: Seq<(Seq<char>, Seq<char>)>)
    ensures
        tree_partial(s, lv, 0, lt, cats) == tree_totals(s, cats),
{
    assert(lv.take(0) =~= Seq::<Seq<char>>::empty());
    assert(tree_partial(s, lv, 0, lt, cats) =~= tree_totals(s, cats));
}

proof fn lemma_tree_partial_end(s: Seq<Entry>, e: Entry, cats: Seq<(Seq<char>, Seq<char>)>)
    ensures
        tree_partial(s, levels_of(e.1.account), levels_of(e.1.account).len() as int, line_tot(cats, e.1), cats)
            == tree_totals(s.push(e), cats),
{
    let lv = levels_of(e.1.account);
    let t = s.push(e);
    let p = tree_partial(s, lv, lv.len() as int, line_tot(cats, e.1), cats);
    let q = tree_totals(t, cats);
    assert(lv.take(lv.len() as int) =~= lv);
    assert forall|k: Seq<char>| #[trigger] p.contains_key(k) == q.contains_key(k) by {
        if has_level(s, k) {
            let j = choose|j: int| 0 <= j < s.len() && levels_of((#[trigger] s[j]).1.account).contains(k);
            assert(t[j] == s[j]);
        }
        if lv.contains(k) {
            assert(t[s.len() as int] == e);
        }
        if q.contains_key(k) {
            let j = choose|j: int| 0 <= j < t.len() && levels_of((#[trigger] t[j]).1.account).contains(k);
            if j < s.len() {
                assert(s[j] == t[j]);
            }
        }
    }
    assert forall|k: Seq<char>| p.contains_key(k) implies p[k] == q[k] by {
        lemma_keep_push(s, e, in_tree(k));
        let ks = keep(s, in_tree(k));
        if lv.contains(k) {
            assert(ks + seq![e] =~= ks.push(e));
            lemma_tot4_push(ks, e, cats);
        } else {
            assert(ks + Seq::<Entry>::empty() =~= ks);
        }
    }
    assert(p =~= q);
}

proof fn lemma_tree_partial_step(
    s: Seq<Entry>,
    lv: Seq<Seq<char>>,
    j: int,
    lt: (int, int, int, int),
    cats: Seq<(Seq<char>, Seq<char>)>,
)
    requires
        0 <= j < lv.len(),
        lv.no_duplicates(),
    ensures
        ({
            let m = tree_partial(s, lv, j, lt, cats);
            tree_partial(s, lv, j + 1, lt, cats) == m.insert(lv[j], tot_add(tot_at(m, lv[j]), lt))
        }),
{
    let m = tree_partial(s, lv, j, lt, cats);
    let m2 = tree_partial(s, lv, j + 1, lt, cats);
    let k0 = lv[j];
    let m3 = m.insert(k0, tot_add(tot_at(m, k0), lt));
    assert(lv.take(j + 1) =~= lv.take(j).push(k0));
    assert(!lv.take(j).contains(k0)) by {
        if lv.take(j).contains(k0) {
            let t0 = lv.take(j);
            let q = choose|q: int| 0 <= q < t0.len() && #[trigger] t0[q] == k0;
            assert(lv[q] == lv[j]);
        }
    }
    assert forall|k: Seq<char>| #[trigger] m2.contains_key(k) == m3.contains_key(k) by {
        if lv.take(j + 1).contains(k) && k != k0 {
            let t1 = lv.take(j + 1);
                let q = choose|q: int| 0 <= q < t1.len() && #[trigger] t1[q] == k;
            assert(lv.take(j)[q] == k);
        }
        if lv.take(j).contains(k) {
            let t0 = lv.take(j);
                let q = choose|q: int| 0 <= q < t0.len() && #[trigger] t0[q] == k;
            assert(lv.take(j + 1)[q] == k);
        }
        if k == k0 {
            assert(lv.take(j + 1)[j] == k0);
        }
    }
    assert forall|k: Seq<char>| m2.contains_key(k) implies m2[k] == m3[k] by {
        if k == k0 {
            assert(lv.take(j + 1)[j] == k0);
            if !m.contains_key(k0) {
                assert forall|q: int| 0 <= q < s.len() implies !in_tree(k0)(#[trigger] s[q]) by {}
                lemma_keep_none(s, in_tree(k0));
            }
        } else {
            if lv.take(j + 1).contains(k) {
                let t1 = lv.take(j + 1);
                let q = choose|q: int| 0 <= q < t1.len() && #[trigger] t1[q] == k;
                assert(lv.take(j)[q] == k);
            }
            if lv.take(j).contains(k) {
                let t0 = lv.take(j);
                let q = choose|q: int| 0 <= q < t0.len() && #[trigger] t0[q] == k;
                assert(lv.take(j + 1)[q] == k);
            }
        }
    }
    assert(m2 =~= m3);
}

// ------------------------------------------------------------------ exec

/// The figures of a line as totals.
fn line_totals(line: &crate::transaction_line::TransactionLine, chart: &crate::account::ChartOfAccounts) -> (r: IsoTotals)
    ensures
        r@ == line_tot(chart@.cats, line@),
{
    IsoTotals { tvalue: line.value as i128, tdebit: line.debit(), tcredit: line.credit(), tdelta: line.delta(chart) }
}

/// The list as owned strings.
fn to_listed(acc: Vec<(Vec<char>, IsoTotals)>, Ghost(m): Ghost<Map<Seq<char>, (int, int, int, int)>>) -> (r: Vec<(String, IsoTotals)>)
    requires
        lists(acc@, m),
    ensures
        listed(r@, m),
{
    let mut r: Vec<(String, IsoTotals)> = Vec::new();
    let mut j: usize = 0;
    while j < acc.len()
        invariant
            j <= acc@.len(),
            r@.len() == j,
            forall|k: int| 0 <= k < j ==> (#[trigger] r@[k]).0@ == acc@[k].0@ && r@[k].1 == acc@[k].1,
        decreases acc@.len() - j,
    {
        r.push((string_of(&acc[j].0), acc[j].1));
        j = j + 1;
    }
    proof {
        assert forall|i: int, k: int| 0 <= i < k < r@.len() implies text_lt(#[trigger] r@[i].0@, #[trigger] r@[k].0@) by {
            assert(text_lt(acc@[i].0@, acc@[k].0@));
        }
        assert forall|i: int| 0 <= i < r@.len() implies m.contains_key(#[trigger] r@[i].0@) && m[r@[i].0@] == r@[i].1@ by {
            assert(m.contains_key(acc@[i].0@));
        }
        assert forall|k: Seq<char>| m.contains_key(k) implies exists|i: int| 0 <= i < r@.len() && #[trigger] r@[i].0@ == k by {
            let i = choose|i: int| 0 <= i < acc@.len() && #[trigger] acc@[i].0@ == k;
            assert(r@[i].0@ == k);
        }
    }
    r
}

impl Book {
    /// The entries of the transactions within the span, in book order, with
    /// the facts that bound their totals.
    fn span_lines<'a>(&'a self, apo: Option<&str>, eos: Option<&str>) -> (es: Vec<
        (&'a crate::transaction::Transaction, &'a crate::transaction_line::TransactionLine),
    >)
        requires
            self.wf(),
        ensures
            entries_view(es@) == span_entries(self@, opt_view(apo), opt_view(eos)),
            es@.len() <= 0x7fff_ffff * line_limit(),
            entries_bounded(entries_view(es@)),
    {
        let ts = self.transactions_filter(apo, eos);
        let es = collect_entries(&ts, None);
        proof {
            let f = flat(txs_view(ts@));
            assert forall|j: int| 0 <= j < f.len() implies any_entry()(#[trigger] f[j]) by {}
            lemma_keep_all(f, any_entry());
            lemma_book_entries(self@, bound_of(opt_view(apo)), bound_of(opt_view(eos)), false, any_entry());
            let ev = entries_view(es@);
            assert forall|k: int| 0 <= k < ev.len() implies -max_line() <= (#[trigger] ev[k]).1.value < max_line() by {
                assert(ev[k] == (es@[k].0@, es@[k].1@));
            }
        }
        es
    }

    /// The totals of each account with entries within the span, in account
    /// order: value, debit, credit and delta.
    pub fn isozygio_plain(&self, apo: Option<&str>, eos: Option<&str>) -> (r: Vec<(String, IsoTotals)>)
        requires
            self.wf(),
        ensures
            listed(r@, plain_totals(span_entries(self@, opt_view(apo), opt_view(eos)), self@.chart.cats)),
    {
        let es = self.span_lines(apo, eos);
        let ghost ev = entries_view(es@);
        let ghost cats = self@.chart.cats;
        let mut acc: Vec<(Vec<char>, IsoTotals)> = Vec::new();
        proof {
            assert(ev.take(0) =~= Seq::<Entry>::empty());
            assert(plain_totals(ev.take(0), cats) =~= Map::<Seq<char>, (int, int, int, int)>::empty());
        }
        let mut i: usize = 0;
        while i < es.len()
            invariant
                i <= es@.len(),
                ev == entries_view(es@),
                es@.len() <= 0x7fff_ffff * line_limit(),
                entries_bounded(ev),
                cats == self@.chart.cats,
                lists(acc@, plain_totals(ev.take(i as int), cats)),
            decreases es@.len() - i,
        {
            let (_trn, line) = es[i];
            let ghost m = plain_totals(ev.take(i as int), cats);
            let ghost a = line@.account;
            proof {
                assert(ev[i as int] == (_trn@, line@));
                lemma_plain_step(ev, i as int, cats);
                let t = ev.take(i + 1);
                assert forall|k: int| 0 <= k < t.len() implies -max_line() <= (#[trigger] t[k]).1.value < max_line() by {
                    assert(t[k] == ev[k]);
                }
                lemma_kept_bounded(t, named(a));
                lemma_tot4_fits(keep(t, named(a)), cats);
                assert(ev.take(i + 1)[i as int] == ev[i as int]);
                assert(plain_totals(t, cats).contains_key(a));
            }
            let add = line_totals(line, &self.chart);
            let key = chars_of(line.account_name.as_str());
            proof {
                let t = ev.take(i + 1);
                assert(plain_totals(t, cats)[a] == tot4(keep(t, named(a)), cats));
                assert(tot_add(tot_at(m, key@), add@) == plain_totals(t, cats)[a]);
            }
            upsert(&mut acc, &key, add, Ghost(m));
            i = i + 1;
        }
        assert(ev.take(es@.len() as int) =~= ev);
        to_listed(acc, Ghost(plain_totals(ev, cats)))
    }
}

impl Book {
    /// The totals of each level of the account tree ("a", "a.b", ...) over
    /// the entries within the span, in key order. Fails, naming the first
    /// such account in text order, when an account with entries is not in
    /// the chart.
    pub fn isozygio_tree(&self, apo: Option<&str>, eos: Option<&str>) -> (r: Result<Vec<(String, IsoTotals)>, String>)
        requires
            self.wf(),
        ensures
            ({
                let es = span_entries(self@, opt_view(apo), opt_view(eos));
                &&& (r is Ok <==> all_registered(es, self@.chart.names))
                &&& (r matches Ok(v) ==> listed(v@, tree_totals(es, self@.chart.cats)))
                &&& (r matches Err(e) ==> tree_error(es, self@.chart.names, e@))
            }),
    {
        let ghost es = span_entries(self@, opt_view(apo), opt_view(eos));
        let ghost cats = self@.chart.cats;
        let ghost names = self@.chart.names;
        let ghost pm = plain_totals(es, cats);
        let plain = self.isozygio_plain(apo, eos);
        let mut k: usize = 0;
        while k < plain.len()
            invariant
                k <= plain@.len(),
                es == span_entries(self@, opt_view(apo), opt_view(eos)),
                pm == plain_totals(es, cats),
                names == self@.chart.names,
                listed(plain@, pm),
                forall|q: int| 0 <= q < k ==> names.contains(#[trigger] plain@[q].0@),
            decreases plain@.len() - k,
        {
            if !self.chart.is_valid_account(plain[k].0.as_str()) {
                let e = crate::text::concat_str(
                    crate::text::concat_str("Account ", plain[k].0.as_str()).as_str(),
                    " not fount in chart of accounts",
                );
                proof {
                    let key = plain@[k as int].0@;
                    assert(pm.contains_key(key));
                    let i = choose|i: int| 0 <= i < es.len() && (#[trigger] es[i]).1.account == key;
                    assert forall|j: int| 0 <= j < es.len() && !names.contains((#[trigger] es[j]).1.account) implies !text_lt(
                        es[j].1.account,
                        es[i].1.account,
                    ) by {
                        let a = es[j].1.account;
                        assert(pm.contains_key(a));
                        let q = choose|q: int| 0 <= q < plain@.len() && #[trigger] plain@[q].0@ == a;
                        if q < k {
                            assert(names.contains(plain@[q].0@));
                        } else if q == k {
                            crate::text::lemma_text_lt_irrefl(a);
                        } else {
                            assert(text_lt(plain@[k as int].0@, plain@[q].0@));
                            lemma_text_lt_asym(key, a);
                        }
                    }
                    assert(e@ == missing_text(es[i].1.account));
                }
                return Err(e);
            }
            k = k + 1;
        }
        proof {
            assert forall|i: int| 0 <= i < es.len() implies names.contains((#[trigger] es[i]).1.account) by {
                let a = es[i].1.account;
                assert(pm.contains_key(a));
                let q = choose|q: int| 0 <= q < plain@.len() && #[trigger] plain@[q].0@ == a;
            }
        }
        let lines = self.span_lines(apo, eos);
        let ghost ev = entries_view(lines@);
        let mut acc: Vec<(Vec<char>, IsoTotals)> = Vec::new();
        proof {
            assert(ev.take(0) =~= Seq::<Entry>::empty());
            assert(tree_totals(ev.take(0), cats) =~= Map::<Seq<char>, (int, int, int, int)>::empty());
        }
        let mut i: usize = 0;
        while i < lines.len()
            invariant
                i <= lines@.len(),
                ev == entries_view(lines@),
                ev == es,
                all_registered(es, self@.chart.names),
                lines@.len() <= 0x7fff_ffff * line_limit(),
                entries_bounded(ev),
                cats == self@.chart.cats,
                lists(acc@, tree_totals(ev.take(i as int), cats)),
            decreases lines@.len() - i,
        {
            let (_trn, line) = lines[i];
            let lt = line_totals(line, &self.chart);
            let lvs = account_tree(line.account_name.as_str(), false, ".");
            let ghost s = ev.take(i as int);
            let ghost e: Entry = (_trn@, line@);
            let ghost t = ev.take(i + 1);
            let ghost lv = levels_of(line@.account);
            proof {
                assert(ev[i as int] == e);
                assert(t =~= s.push(e));
                lemma_levels_distinct(line@.account);
                lemma_tree_partial_start(s, lv, lt@, cats);
                assert forall|k: int| 0 <= k < t.len() implies -max_line() <= (#[trigger] t[k]).1.value < max_line() by {
                    assert(t[k] == ev[k]);
                }
            }
            let mut j: usize = 0;
            while j < lvs.len()
                invariant
                    j <= lvs@.len(),
                    lvs@.len() == lv.len(),
                    forall|q: int| 0 <= q < lvs@.len() ==> #[trigger] lvs@[q]@ == lv[q],
                    lv == levels_of(e.1.account),
                    lv.no_duplicates(),
                    t == s.push(e),
                    t.len() <= 0x7fff_ffff * line_limit(),
                    entries_bounded(t),
                    lt@ == line_tot(cats, e.1),
                    lists(acc@, tree_partial(s, lv, j as int, lt@, cats)),
                decreases lvs@.len() - j,
            {
                let key = chars_of(lvs[j].as_str());
                let ghost k0 = lv[j as int];
                let ghost m = tree_partial(s, lv, j as int, lt@, cats);
                proof {
                    lemma_tree_partial_step(s, lv, j as int, lt@, cats);
                    lemma_keep_push(s, e, in_tree(k0));
                    let ks = keep(s, in_tree(k0));
                    assert(lv[j as int] == k0);
                    assert(in_tree(k0)(e));
                    assert(ks + seq![e] =~= ks.push(e));
                    lemma_tot4_push(ks, e, cats);
                    lemma_kept_bounded(t, in_tree(k0));
                    lemma_tot4_fits(keep(t, in_tree(k0)), cats);
                    let m2 = tree_partial(s, lv, j + 1, lt@, cats);
                    assert(lv.take(j + 1)[j as int] == k0);
                    assert(m2.contains_key(k0));
                    assert(m2[k0] == tot_add(tot4(ks, cats), lt@));
                    assert(tot_add(tot_at(m, key@), lt@) == m2[k0]);
                }
                upsert(&mut acc, &key, lt, Ghost(m));
                j = j + 1;
            }
            proof {
                lemma_tree_partial_end(s, e, cats);
            }
            i = i + 1;
        }
        assert(ev.take(lines@.len() as int) =~= ev);
        Ok(to_listed(acc, Ghost(tree_totals(ev, cats))))
    }

    /// The trial balance as display rows: each level of the account tree
    /// with its balance written in Greek style, in key order.
    pub fn model_isozygio(&self, apo: Option<&str>, eos: Option<&str>) -> (r: Result<Vec<[String; 2]>, String>)
        requires
            self.wf(),
        ensures
            ({
                let es = span_entries(self@, opt_view(apo), opt_view(eos));
                &&& (r is Ok <==> all_registered(es, self@.chart.names))
                &&& (r matches Ok(rows) ==> listed_rows(rows@, tree_totals(es, self@.chart.cats)))
                &&& (r matches Err(e) ==> tree_error(es, self@.chart.names, e@))
            }),
    {
        let ghost m = tree_totals(span_entries(self@, opt_view(apo), opt_view(eos)), self@.chart.cats);
        match self.isozygio_tree(apo, eos) {
            Err(e) => Err(e),
            Ok(tree) => {
                let mut rows: Vec<[String; 2]> = Vec::new();
                let mut k: usize = 0;
                while k < tree.len()
                    invariant
                        k <= tree@.len(),
                        listed(tree@, m),
                        rows@.len() == k,
                        forall|q: int| 0 <= q < k ==> (#[trigger] rows@[q])@[0]@ == tree@[q].0@
                            && rows@[q]@[1]@ == crate::money::f2gr_spec(tree@[q].1.tvalue as int),
                    decreases tree@.len() - k,
                {
                    let row: [String; 2] = [tree[k].0.clone(), crate::money::f2gr(tree[k].1.tvalue)];
                    rows.push(row);
                    k = k + 1;
                }
                proof {
                    assert forall|i: int, j: int| 0 <= i < j < rows@.len() implies text_lt(#[trigger] rows@[i]@[0]@, #[trigger] rows@[j]@[0]@) by {
                        assert(text_lt(tree@[i].0@, tree@[j].0@));
                    }
                    assert forall|i: int| 0 <= i < rows@.len() implies m.contains_key(#[trigger] rows@[i]@[0]@)
                        && rows@[i]@[1]@ == crate::money::f2gr_spec(m[rows@[i]@[0]@].0) by {
                        assert(m.contains_key(tree@[i].0@));
                    }
                    assert forall|key: Seq<char>| m.contains_key(key) implies exists|i: int| 0 <= i < rows@.len() && #[trigger] rows@[i]@[0]@ == key by {
                        let i = choose|i: int| 0 <= i < tree@.len() && #[trigger] tree@[i].0@ == key;
                        assert(rows@[i]@[0]@ == key);
                    }
                }
                Ok(rows)
            },
        }
    }
}

/// The account of an entry.
pub open spec fn account_of() -> spec_fn(Entry) -> Seq<char> {
    |e: Entry| e.1.account
}

/// A level's total in the account tree is the sum of the totals of the
/// accounts under it, each account once: the tree adds its accounts up.
pub proof fn lemma_tree_sums_accounts(es: Seq<Entry>, ks: Seq<Seq<char>>, k: Seq<char>, f: spec_fn(crate::transaction_line::LineView) -> int)
    requires
        ks.no_duplicates(),
        forall|a: Seq<char>| #[trigger] ks.contains(a) <==> (has_entry_on(es, a) && levels_of(a).contains(k)),
    ensures
        crate::ledger::total(keep(es, in_tree(k)), f) == crate::series::key_sum(es, account_of(), ks, f),
{
    crate::series::lemma_key_sum(es, account_of(), ks, f);
    let p = crate::series::in_keys(account_of(), ks);
    assert forall|i: int| 0 <= i < es.len() implies p(#[trigger] es[i]) == in_tree(k)(es[i]) by {
        let a = es[i].1.account;
        assert(has_entry_on(es, a));
    }
    crate::ledger::lemma_keep_agree(es, p, in_tree(k));
}

/// The total of one account in the key sums is its plain total.
pub proof fn lemma_account_total_is_plain(es: Seq<Entry>, a: Seq<char>, f: spec_fn(crate::transaction_line::LineView) -> int)
    ensures
        crate::series::key_total(es, account_of(), a, f) == crate::ledger::total(keep(es, named(a)), f),
{
    assert(crate::series::key_is(account_of(), a) =~= named(a));
}

} // verus!
