//! Time series of an account: the movement of each period and the running
//! balance across periods.

use vstd::prelude::*;

use crate::book::{acc_line, card_entries, opt_view, Book};
use crate::date::{date_le, date_lt, days_list, last_date, lemma_date_valid, lemma_next_day_immediate, next_day, valid_ymd, Date};
use crate::date_groups::{group_key, Grouping};
use crate::ledger::{delta_of, flat, keep, ktotal, span_txs, under, value_of, lemma_keep_len, lemma_keep_push, lemma_total_bound, lemma_total_push, line_limit, total, Entry};
use crate::text::{chars_eq, chars_of, lemma_text_lt_irrefl, lemma_text_lt_total, lemma_text_lt_trans, string_of, text_less, text_lt};
use crate::transaction::max_line;
use crate::trial::entries_bounded;
use crate::transaction_line::LineView;

verus! {

// ------------------------------------------------------------------ keyed sums

/// Entries whose key is `k`.
pub open spec fn key_is(key_of: spec_fn(Entry) -> Seq<char>, k: Seq<char>) -> spec_fn(Entry) -> bool {
    |e: Entry| key_of(e) == k
}

/// Entries whose key is one of `ks`.
pub open spec fn in_keys(key_of: spec_fn(Entry) -> Seq<char>, ks: Seq<Seq<char>>) -> spec_fn(Entry) -> bool {
    |e: Entry| ks.contains(key_of(e))
}

/// The total of figure `f` over the entries of key `k`.
pub open spec fn key_total(es: Seq<Entry>, key_of: spec_fn(Entry) -> Seq<char>, k: Seq<char>, f: spec_fn(LineView) -> int) -> int {
    total(keep(es, key_is(key_of, k)), f)
}

/// The key totals of `ks`, added up.
pub open spec fn key_sum(es: Seq<Entry>, key_of: spec_fn(Entry) -> Seq<char>, ks: Seq<Seq<char>>, f: spec_fn(LineView) -> int) -> int
    decreases ks.len(),
{
    if ks.len() == 0 {
        0
    } else {
        key_sum(es, key_of, ks.drop_last(), f) + key_total(es, key_of, ks.last(), f)
    }
}

/// Keeping by either of two exclusive tests totals to the sum of both.
proof fn lemma_keep_or(es: Seq<Entry>, p: spec_fn(Entry) -> bool, q: spec_fn(Entry) -> bool, f: spec_fn(LineView) -> int)
    requires
        forall|e: Entry| !(#[trigger] p(e) && q(e)),
    ensures
        total(keep(es, |e: Entry| p(e) || q(e)), f) == total(keep(es, p), f) + total(keep(es, q), f),
    decreases es.len(),
{
    let pq = |e: Entry| p(e) || q(e);
    if es.len() > 0 {
        let s = es.drop_last();
        let e = es.last();
        lemma_keep_or(s, p, q, f);
        assert(s.push(e) =~= es);
        lemma_keep_push(s, e, pq);
        lemma_keep_push(s, e, p);
        lemma_keep_push(s, e, q);
        let a = keep(s, pq);
        let b = keep(s, p);
        let c = keep(s, q);
        if p(e) {
            assert(a + seq![e] =~= a.push(e));
            assert(b + seq![e] =~= b.push(e));
            assert(c + Seq::<Entry>::empty() =~= c);
            lemma_total_push(a, e, f);
            lemma_total_push(b, e, f);
        } else if q(e) {
            assert(a + seq![e] =~= a.push(e));
            assert(c + seq![e] =~= c.push(e));
            assert(b + Seq::<Entry>::empty() =~= b);
            lemma_total_push(a, e, f);
            lemma_total_push(c, e, f);
        } else {
            assert(a + Seq::<Entry>::empty() =~= a);
            assert(b + Seq::<Entry>::empty() =~= b);
            assert(c + Seq::<Entry>::empty() =~= c);
        }
    }
}

proof fn lemma_keep_same(es: Seq<Entry>, p: spec_fn(Entry) -> bool, q: spec_fn(Entry) -> bool)
    requires
        forall|e: Entry| #[trigger] p(e) == q(e),
    ensures
        keep(es, p) == keep(es, q),
{
    assert(p =~= q);
}

/// Over distinct keys, the key totals add up to the total of the entries
/// with any of the keys.
pub proof fn lemma_key_sum(es: Seq<Entry>, key_of: spec_fn(Entry) -> Seq<char>, ks: Seq<Seq<char>>, f: spec_fn(LineView) -> int)
    requires
        ks.no_duplicates(),
    ensures
        key_sum(es, key_of, ks, f) == total(keep(es, in_keys(key_of, ks)), f),
    decreases ks.len(),
{
    if ks.len() == 0 {
        crate::ledger::lemma_keep_none(es, in_keys(key_of, ks));
    } else {
        let k0 = ks.drop_last();
        let k = ks.last();
        assert(k0.no_duplicates());
        lemma_key_sum(es, key_of, k0, f);
        assert(!k0.contains(k)) by {
            if k0.contains(k) {
                let j = choose|j: int| 0 <= j < k0.len() && k0[j] == k;
                assert(ks[j] == ks[ks.len() - 1]);
            }
        }
        let p = in_keys(key_of, k0);
        let q = key_is(key_of, k);
        assert forall|e: Entry| !(#[trigger] p(e) && q(e)) by {}
        lemma_keep_or(es, p, q, f);
        assert forall|e: Entry| #[trigger] in_keys(key_of, ks)(e) == (p(e) || q(e)) by {
            let x = key_of(e);
            if ks.contains(x) && x != k {
                let j = choose|j: int| 0 <= j < ks.len() && ks[j] == x;
                assert(k0[j] == x);
            }
            if k0.contains(x) {
                let j = choose|j: int| 0 <= j < k0.len() && k0[j] == x;
                assert(ks[j] == x);
            }
            if x == k {
                assert(ks[ks.len() - 1] == x);
            }
        }
        lemma_keep_same(es, in_keys(key_of, ks), |e: Entry| p(e) || q(e));
    }
}

/// When every entry's key is among the keys, each key once, the key totals
/// add up to the total of all the entries: the last running total of a
/// series is the whole movement.
pub proof fn lemma_series_total(es: Seq<Entry>, key_of: spec_fn(Entry) -> Seq<char>, ks: Seq<Seq<char>>, f: spec_fn(LineView) -> int)
    requires
        ks.no_duplicates(),
        forall|i: int| 0 <= i < es.len() ==> ks.contains(key_of(#[trigger] es[i])),
    ensures
        key_sum(es, key_of, ks, f) == total(es, f),
{
    lemma_key_sum(es, key_of, ks, f);
    assert forall|j: int| 0 <= j < es.len() implies in_keys(key_of, ks)(#[trigger] es[j]) by {}
    crate::ledger::lemma_keep_all(es, in_keys(key_of, ks));
}

proof fn lemma_total_fits(es: Seq<Entry>, p: spec_fn(Entry) -> bool, cats: Seq<(Seq<char>, Seq<char>)>)
    requires
        es.len() <= 0x7fff_ffff * line_limit(),
        entries_bounded(es),
    ensures
        -(0x7fff_ffff * line_limit() * max_line()) <= total(keep(es, p), delta_of(cats)) <= 0x7fff_ffff * line_limit()
            * max_line(),
{
    let k = keep(es, p);
    lemma_keep_len(es, p);
    assert forall|i: int| 0 <= i < k.len() implies -max_line() <= (#[trigger] k[i]).1.value < max_line() by {
        let j = choose|j: int| 0 <= j < es.len() && es[j] == k[i];
    }
    crate::ledger::lemma_figs_bounded(cats);
    lemma_total_bound(k, delta_of(cats));
    assert(k.len() * max_line() <= 0x7fff_ffff * line_limit() * max_line()) by (nonlinear_arith)
        requires
            k.len() <= 0x7fff_ffff * line_limit(),
    ;
}

// ------------------------------------------------------------------ periods

/// The group key of an entry's date.
pub open spec fn group_of(g: Grouping) -> spec_fn(Entry) -> Seq<char> {
    |e: Entry| group_key(g, e.0.date)
}

/// The group keys of all real dates from `first` to `last`.
pub open spec fn span_keys(g: Grouping, first: (int, int, int), last: (int, int, int)) -> Set<Seq<char>> {
    Set::new(|k: Seq<char>| exists|d: (int, int, int)| valid_ymd(d) && date_le(first, d) && date_le(d, last) && #[trigger] group_key(g, d) == k)
}

/// The texts of a list of character vectors.
pub open spec fn keys_view(v: Seq<Vec<char>>) -> Seq<Seq<char>> {
    v.map_values(|x: Vec<char>| x@)
}

/// Keys strictly increasing in text order.
pub open spec fn strictly_sorted(ks: Seq<Seq<char>>) -> bool {
    forall|i: int, j: int| 0 <= i < j < ks.len() ==> text_lt(#[trigger] ks[i], #[trigger] ks[j])
}

/// The rows of a series over the entries: the keys `ks` in order, each with
/// the running total up to it and its own total of `f`.
pub open spec fn series_rows(
    v: Seq<(String, i128, i128)>,
    es: Seq<Entry>,
    key_of: spec_fn(Entry) -> Seq<char>,
    ks: Seq<Seq<char>>,
    f: spec_fn(LineView) -> int,
) -> bool {
    &&& v.len() == ks.len()
    &&& forall|i: int| 0 <= i < v.len() ==> (#[trigger] v[i]).0@ == ks[i]
    &&& forall|i: int| 0 <= i < v.len() ==> (#[trigger] v[i]).2 == key_total(es, key_of, ks[i], f)
    &&& forall|i: int| 0 <= i < v.len() ==> (#[trigger] v[i]).1 == key_sum(es, key_of, ks.take(i + 1), f)
}

/// The dates of a run of consecutive days from `first` to `last` include
/// every real date between them.
proof fn lemma_days_cover(r: Seq<(int, int, int)>, first: (int, int, int), last: (int, int, int), d: (int, int, int))
    requires
        r.len() > 0,
        r[0] == first,
        r.last() == last,
        forall|i: int| 0 <= i < r.len() ==> valid_ymd(#[trigger] r[i]),
        forall|i: int| 0 <= i < r.len() - 1 ==> #[trigger] r[i + 1] == next_day(r[i]),
        valid_ymd(d),
        date_le(first, d),
        date_le(d, last),
    ensures
        exists|i: int| 0 <= i < r.len() && r[i] == d,
{
    if forall|i: int| 0 <= i < r.len() ==> r[i] != d {
        lemma_days_below(r, d, r.len() - 1);
        assert(r[r.len() - 1] == last);
    }
}

proof fn lemma_days_below(r: Seq<(int, int, int)>, d: (int, int, int), n: int)
    requires
        0 <= n < r.len(),
        date_le(r[0], d),
        forall|i: int| 0 <= i < r.len() ==> valid_ymd(#[trigger] r[i]),
        forall|i: int| 0 <= i < r.len() - 1 ==> #[trigger] r[i + 1] == next_day(r[i]),
        forall|i: int| 0 <= i < r.len() ==> r[i] != d,
        valid_ymd(d),
    ensures
        date_lt(r[n], d),
    decreases n,
{
    if n > 0 {
        let k = n - 1;
        lemma_days_below(r, d, k);
        assert(r[k + 1] == next_day(r[k]));
        lemma_next_day_immediate(r[k], d);
        assert(r[n] != d);
    }
}

/// Every line of an account card falls in a period of its time series, so
/// the running total of the last period is the card's whole movement.
pub proof fn lemma_time_series_total(
    b: crate::book::BookView,
    acc: Seq<char>,
    apo: Option<Seq<char>>,
    eos: Option<Seq<char>>,
    g: Grouping,
    ks: Seq<Seq<char>>,
)
    requires
        forall|i: int| 0 <= i < b.txs.len() ==> valid_ymd(#[trigger] b.txs[i].date),
        card_entries(b, acc, apo, eos).len() > 0,
        ks.no_duplicates(),
        forall|k: Seq<char>|
            #[trigger] ks.contains(k) <==> span_keys(
                g,
                card_entries(b, acc, apo, eos)[0].0.date,
                card_entries(b, acc, apo, eos).last().0.date,
            ).contains(k),
    ensures
        key_sum(card_entries(b, acc, apo, eos), group_of(g), ks, delta_of(b.chart.cats)) == total(
            card_entries(b, acc, apo, eos),
            delta_of(b.chart.cats),
        ),
{
    let es = card_entries(b, acc, apo, eos);
    let f = span_txs(b.txs, crate::book::bound_of(apo), crate::book::bound_of(eos));
    crate::ledger::lemma_card_dated(f, under(acc));
    crate::ledger::lemma_span_txs(b.txs, crate::book::bound_of(apo), crate::book::bound_of(eos));
    let first = es[0].0.date;
    let last = es.last().0.date;
    assert forall|i: int| 0 <= i < es.len() implies ks.contains(group_of(g)(#[trigger] es[i])) by {
        let d = es[i].0.date;
        let q = choose|q: int| 0 <= q < f.len() && f[q] == es[i].0;
        let p = choose|p: int| 0 <= p < b.txs.len() && b.txs[p] == f[q];
        assert(valid_ymd(b.txs[p].date));
        if i > 0 {
            assert(!date_lt(es[i].0.date, es[0].0.date));
        }
        if i < es.len() - 1 {
            assert(!date_lt(es[es.len() - 1].0.date, es[i].0.date));
        }
        assert(date_le(first, d) && date_le(d, last));
        assert(span_keys(g, first, last).contains(group_key(g, d)));
    }
    lemma_series_total(es, group_of(g), ks, delta_of(b.chart.cats));
}

/// Puts `k` into a strictly sorted list of keys unless it is there already.
fn insert_key(keys: &mut Vec<Vec<char>>, k: Vec<char>)
    requires
        strictly_sorted(keys_view(old(keys)@)),
    ensures
        strictly_sorted(keys_view(final(keys)@)),
        forall|x: Seq<char>| #[trigger] keys_view(final(keys)@).contains(x) <==> (keys_view(old(keys)@).contains(x) || x == k@),
{
    let ghost s = keys_view(keys@);
    let mut i: usize = 0;
    while i < keys.len() && text_less(&keys[i], &k)
        invariant
            i <= keys@.len(),
            s == keys_view(keys@),
            keys@ == old(keys)@,
            forall|j: int| 0 <= j < i ==> text_lt(#[trigger] s[j], k@),
        decreases keys@.len() - i,
    {
        assert(s[i as int] == keys@[i as int]@);
        i = i + 1;
    }
    if i < keys.len() && chars_eq(&keys[i], &k) {
        assert(s[i as int] == k@);
        return;
    }
    proof {
        if i < s.len() {
            assert(s[i as int] == keys@[i as int]@);
            lemma_text_lt_total(s[i as int], k@);
        }
    }
    keys.insert(i, k);
    proof {
        let t = keys_view(keys@);
        assert(t =~= s.insert(i as int, k@));
        assert forall|a: int, b: int| 0 <= a < b < t.len() implies text_lt(#[trigger] t[a], #[trigger] t[b]) by {
            if b < i {
                assert(t[a] == s[a] && t[b] == s[b]);
            } else if b == i {
                assert(t[a] == s[a]);
            } else if a == i {
                assert(t[b] == s[b - 1]);
                if b - 1 > i {
                    lemma_text_lt_trans(k@, s[i as int], s[b - 1]);
                }
            } else if a < i {
                assert(t[a] == s[a] && t[b] == s[b - 1]);
            } else {
                assert(t[a] == s[a - 1] && t[b] == s[b - 1]);
            }
        }
        assert forall|x: Seq<char>| #[trigger] t.contains(x) <==> (s.contains(x) || x == k@) by {
            if t.contains(x) {
                let a = choose|a: int| 0 <= a < t.len() && t[a] == x;
                if a < i {
                    assert(s[a] == x);
                } else if a > i {
                    assert(s[a - 1] == x);
                }
            }
            if s.contains(x) {
                let a = choose|a: int| 0 <= a < s.len() && s[a] == x;
                if a < i {
                    assert(t[a] == x);
                } else {
                    assert(t[a + 1] == x);
                }
            }
            if x == k@ {
                assert(t[i as int] == x);
            }
        }
    }
}

/// A strictly sorted list has no repeated key.
pub proof fn lemma_sorted_distinct(ks: Seq<Seq<char>>)
    requires
        strictly_sorted(ks),
    ensures
        ks.no_duplicates(),
{
    assert forall|i: int, j: int| 0 <= i < ks.len() && 0 <= j < ks.len() && i != j implies ks[i] != ks[j] by {
        if i < j {
            assert(text_lt(ks[i], ks[j]));
            if ks[i] == ks[j] {
                lemma_text_lt_irrefl(ks[i]);
            }
        } else {
            assert(text_lt(ks[j], ks[i]));
            if ks[i] == ks[j] {
                lemma_text_lt_irrefl(ks[i]);
            }
        }
    }
}

/// The rows of a series: for each key, in the order given, the total of
/// the deltas of the entries with that key and the running total.
fn key_rows(
    entry_keys: &Vec<Vec<char>>,
    deltas: &Vec<i128>,
    keys: &Vec<Vec<char>>,
    Ghost(es): Ghost<Seq<Entry>>,
    Ghost(key_of): Ghost<spec_fn(Entry) -> Seq<char>>,
    Ghost(cats): Ghost<Seq<(Seq<char>, Seq<char>)>>,
) -> (out: Vec<(String, i128, i128)>)
    requires
        entry_keys@.len() == es.len(),
        deltas@.len() == es.len(),
        forall|k: int| 0 <= k < es.len() ==> #[trigger] entry_keys@[k]@ == key_of(es[k]),
        forall|k: int| 0 <= k < es.len() ==> #[trigger] deltas@[k] == crate::transaction_line::line_delta(cats, es[k].1),
        keys_view(keys@).no_duplicates(),
        es.len() <= 0x7fff_ffff * line_limit(),
        entries_bounded(es),
    ensures
        series_rows(out@, es, key_of, keys_view(keys@), delta_of(cats)),
{
    let ghost ksv = keys_view(keys@);
    let mut out: Vec<(String, i128, i128)> = Vec::new();
    let mut running: i128 = 0;
    let mut j: usize = 0;
    proof {
        assert(ksv.take(0) =~= Seq::<Seq<char>>::empty());
    }
    while j < keys.len()
        invariant
            j <= keys@.len(),
            ksv == keys_view(keys@),
            ksv.no_duplicates(),
            entry_keys@.len() == es.len(),
            deltas@.len() == es.len(),
            forall|k: int| 0 <= k < es.len() ==> #[trigger] entry_keys@[k]@ == key_of(es[k]),
            forall|k: int| 0 <= k < es.len() ==> #[trigger] deltas@[k] == crate::transaction_line::line_delta(cats, es[k].1),
            es.len() <= 0x7fff_ffff * line_limit(),
            entries_bounded(es),
            running == key_sum(es, key_of, ksv.take(j as int), delta_of(cats)),
            out@.len() == j,
            forall|k: int| 0 <= k < j ==> (#[trigger] out@[k]).0@ == ksv[k],
            forall|k: int| 0 <= k < j ==> (#[trigger] out@[k]).2 == key_total(es, key_of, ksv[k], delta_of(cats)),
            forall|k: int| 0 <= k < j ==> (#[trigger] out@[k]).1 == key_sum(es, key_of, ksv.take(k + 1), delta_of(cats)),
        decreases keys@.len() - j,
    {
        let key = &keys[j];
        let ghost kv = ksv[j as int];
        assert(key@ == kv);
        let mut gsum: i128 = 0;
        let mut i: usize = 0;
        proof {
            assert(es.take(0) =~= Seq::<Entry>::empty());
        }
        while i < entry_keys.len()
            invariant
                i <= es.len(),
                entry_keys@.len() == es.len(),
                deltas@.len() == es.len(),
                key@ == kv,
                es.len() <= 0x7fff_ffff * line_limit(),
                entries_bounded(es),
                forall|k: int| 0 <= k < es.len() ==> #[trigger] entry_keys@[k]@ == key_of(es[k]),
                forall|k: int| 0 <= k < es.len() ==> #[trigger] deltas@[k] == crate::transaction_line::line_delta(cats, es[k].1),
                gsum == total(keep(es.take(i as int), key_is(key_of, kv)), delta_of(cats)),
            decreases es.len() - i,
        {
            let ghost sq = es.take(i as int);
            let ghost e = es[i as int];
            proof {
                assert(es.take(i + 1) =~= sq.push(e));
                lemma_keep_push(sq, e, key_is(key_of, kv));
                let ks = keep(sq, key_is(key_of, kv));
                assert(ks + seq![e] =~= ks.push(e));
                assert(ks + Seq::<Entry>::empty() =~= ks);
                lemma_total_push(ks, e, delta_of(cats));
                let t = es.take(i + 1);
                assert forall|k: int| 0 <= k < t.len() implies -max_line() <= (#[trigger] t[k]).1.value < max_line() by {
                    assert(t[k] == es[k]);
                }
                lemma_total_fits(t, key_is(key_of, kv), cats);
            }
            if chars_eq(&entry_keys[i], key) {
                gsum = gsum + deltas[i];
            }
            i = i + 1;
        }
        proof {
            assert(es.take(es.len() as int) =~= es);
            let kt = ksv.take(j + 1);
            assert(kt.drop_last() =~= ksv.take(j as int));
            assert(kt.no_duplicates()) by {
                assert forall|a: int, b: int| 0 <= a < kt.len() && 0 <= b < kt.len() && a != b implies kt[a] != kt[b] by {
                    assert(kt[a] == ksv[a] && kt[b] == ksv[b]);
                }
            }
            lemma_key_sum(es, key_of, kt, delta_of(cats));
            lemma_total_fits(es, in_keys(key_of, kt), cats);
        }
        running = running + gsum;
        out.push((string_of(key), running, gsum));
        j = j + 1;
    }
    out
}

/// What a time series over the card entries `es` is: nothing without
/// entries; else the period keys of every day from the first entry's date to
/// the last one's, in order, each with its movement and the running total.
pub open spec fn series_result(
    r: Option<Vec<(String, i128, i128)>>,
    es: Seq<Entry>,
    g: Grouping,
    cats: Seq<(Seq<char>, Seq<char>)>,
) -> bool {
    &&& (r is None <==> es.len() == 0)
    &&& (r matches Some(v) ==> {
        let ks = v@.map_values(|x: (String, i128, i128)| x.0@);
        let span = span_keys(g, es[0].0.date, es.last().0.date);
        &&& strictly_sorted(ks)
        &&& (forall|k: Seq<char>| #[trigger] ks.contains(k) <==> span.contains(k))
        &&& series_rows(v@, es, group_of(g), ks, delta_of(cats))
    })
}

impl Book {
    /// The movement of the accounts under `account_name` grouped by period,
    /// in period order, each with the running balance up to it. The periods
    /// are those of every day from the first line's date to the last one's,
    /// so that a period without lines shows a zero movement. `None` when no
    /// line falls in the span.
    pub fn time_series(&self, account_name: &str, groupfn: Grouping, apo: Option<&str>, eos: Option<&str>) -> (r: Option<
        Vec<(String, i128, i128)>,
    >)
        requires
            self.wf(),
            ({
                let es = card_entries(self@, account_name@, opt_view(apo), opt_view(eos));
                es.len() > 0 ==> es.last().0.date != last_date()
            }),
        ensures
            series_result(r, card_entries(self@, account_name@, opt_view(apo), opt_view(eos)), groupfn, self@.chart.cats),
    {
        let ghost es = card_entries(self@, account_name@, opt_view(apo), opt_view(eos));
        let ghost cats = self@.chart.cats;
        let ghost key_of = group_of(groupfn);
        let rows = self.acclines(account_name, apo, eos);
        if rows.len() == 0 {
            return None;
        }
        proof {
            crate::book::lemma_book_entries(self@, crate::book::bound_of(opt_view(apo)), crate::book::bound_of(opt_view(eos)), true, crate::ledger::under(account_name@));
            assert forall|k: int| 0 <= k < es.len() implies -max_line() <= (#[trigger] es[k]).1.value < max_line() by {
                assert(acc_line(rows@[k], es[k], cats));
            }
        }
        let first = rows[0].1;
        let last = rows[rows.len() - 1].1;
        proof {
            assert(acc_line(rows@[0], es[0], cats));
            assert(acc_line(rows@[rows@.len() - 1], es[es.len() - 1], cats));
            lemma_date_valid(first);
            lemma_date_valid(last);
        }
        let days = days_list(first, last);
        // the period keys of all the days, sorted
        let mut keys: Vec<Vec<char>> = Vec::new();
        let mut q: usize = 0;
        while q < days.len()
            invariant
                q <= days@.len(),
                strictly_sorted(keys_view(keys@)),
                forall|x: Seq<char>| #[trigger] keys_view(keys@).contains(x) <==> exists|j: int|
                    0 <= j < q && group_key(groupfn, #[trigger] days@[j]@) == x,
            decreases days@.len() - q,
        {
            let k = chars_of(groupfn.group(days[q]).as_str());
            let ghost before = keys_view(keys@);
            insert_key(&mut keys, k);
            proof {
                let after = keys_view(keys@);
                assert forall|x: Seq<char>| #[trigger] after.contains(x) <==> exists|j: int|
                    0 <= j < q + 1 && group_key(groupfn, #[trigger] days@[j]@) == x by {
                    if after.contains(x) && !before.contains(x) {
                        assert(group_key(groupfn, days@[q as int]@) == x);
                    }
                    if exists|j: int| 0 <= j < q + 1 && group_key(groupfn, #[trigger] days@[j]@) == x {
                        let j = choose|j: int| 0 <= j < q + 1 && group_key(groupfn, #[trigger] days@[j]@) == x;
                        if j < q {
                            assert(before.contains(x));
                        }
                    }
                }
            }
            q = q + 1;
        }
        let ghost ksv = keys_view(keys@);
        proof {
            let span = span_keys(groupfn, es[0].0.date, es.last().0.date);
            let dv = days@.map_values(|d: Date| d@);
            assert forall|i: int| 0 <= i < dv.len() implies valid_ymd(#[trigger] dv[i]) by {
                lemma_date_valid(days@[i]);
            }
            assert forall|i: int| 0 <= i < dv.len() - 1 implies #[trigger] dv[i + 1] == next_day(dv[i]) by {
                assert(days@[i + 1]@ == next_day(days@[i]@));
            }
            assert(es[0].0.date == first@);
            assert(es.last().0.date == last@);
            assert forall|x: Seq<char>| #[trigger] ksv.contains(x) <==> span.contains(x) by {
                if ksv.contains(x) {
                    let j = choose|j: int| 0 <= j < days@.len() && group_key(groupfn, #[trigger] days@[j]@) == x;
                    lemma_date_valid(days@[j]);
                    assert(date_le(first@, days@[j]@) && date_le(days@[j]@, last@));
                }
                if span.contains(x) {
                    let d = choose|d: (int, int, int)| valid_ymd(d) && date_le(es[0].0.date, d) && date_le(d, es.last().0.date)
                        && #[trigger] group_key(groupfn, d) == x;
                    assert(!date_lt(last@, first@));
                    assert(dv.len() > 0);
                    assert(dv[0] == first@);
                    assert(dv.last() == last@);
                    lemma_days_cover(dv, first@, last@, d);
                    let i = choose|i: int| 0 <= i < dv.len() && dv[i] == d;
                    assert(group_key(groupfn, days@[i]@) == x);
                }
            }
            lemma_sorted_distinct(ksv);
        }
        // the period key and the delta of each line
        let mut row_keys: Vec<Vec<char>> = Vec::new();
        let mut deltas: Vec<i128> = Vec::new();
        let mut i: usize = 0;
        while i < rows.len()
            invariant
                i <= rows@.len(),
                rows@.len() == es.len(),
                forall|k: int| 0 <= k < rows@.len() ==> acc_line(#[trigger] rows@[k], es[k], cats),
                row_keys@.len() == i,
                deltas@.len() == i,
                forall|k: int| 0 <= k < i ==> #[trigger] row_keys@[k]@ == key_of(es[k]),
                forall|k: int| 0 <= k < i ==> #[trigger] deltas@[k] == crate::transaction_line::line_delta(cats, es[k].1),
                key_of == group_of(groupfn),
            decreases rows@.len() - i,
        {
            assert(acc_line(rows@[i as int], es[i as int], cats));
            row_keys.push(chars_of(groupfn.group(rows[i].1).as_str()));
            deltas.push(rows[i].7);
            i = i + 1;
        }
        let out = key_rows(&row_keys, &deltas, &keys, Ghost(es), Ghost(key_of), Ghost(cats));
        proof {
            let v = out@;
            let ks = v.map_values(|x: (String, i128, i128)| x.0@);
            assert(ks =~= ksv);
        }
        Some(out)
    }
}

// ------------------------------------------------------------------ months

/// Every character is ASCII.
pub open spec fn ascii_text(s: Seq<char>) -> bool {
    forall|i: int| 0 <= i < s.len() ==> ((#[trigger] s[i]) as u32) < 0x80
}

proof fn lemma_ascii_byte_prefix(s: Seq<char>, n: nat)
    requires
        ascii_text(s),
        n <= s.len(),
    ensures
        crate::utils::byte_prefix(s, n) == Some(s.take(n as int)),
    decreases n,
{
    if n == 0 {
        assert(s.take(0) =~= Seq::<char>::empty());
    } else {
        let t = s.drop_first();
        assert forall|i: int| 0 <= i < t.len() implies ((#[trigger] t[i]) as u32) < 0x80 by {
            assert(t[i] == s[i + 1]);
        }
        lemma_ascii_byte_prefix(t, (n - 1) as nat);
        assert((s[0] as u32) < 0x80);
        assert(seq![s[0]] + t.take(n - 1) =~= s.take(n as int));
    }
}

proof fn lemma_digits_ascii(s: Seq<char>)
    requires
        crate::num::all_digits(s),
    ensures
        ascii_text(s),
{
    assert forall|i: int| 0 <= i < s.len() implies ((#[trigger] s[i]) as u32) < 0x80 by {
        assert(crate::num::is_digit(s[i]));
    }
}

proof fn lemma_decimal_len(n: nat)
    ensures
        crate::num::decimal(n).len() >= 1,
        n >= 10 ==> crate::num::decimal(n).len() >= 2,
        n >= 100 ==> crate::num::decimal(n).len() >= 3,
        n >= 1000 ==> crate::num::decimal(n).len() >= 4,
    decreases n,
{
    if n >= 10 {
        lemma_decimal_len(n / 10);
    }
}

proof fn lemma_pad4(n: nat)
    ensures
        crate::num::all_digits(crate::date::pad4(n)),
        crate::date::pad4(n).len() >= 4,
{
    crate::num::lemma_decimal_digits(n);
    lemma_decimal_len(n);
    let d = crate::num::decimal(n);
    let p = crate::date::pad4(n);
    assert forall|i: int| 0 <= i < p.len() implies crate::num::is_digit(#[trigger] p[i]) by {
        if n < 10 {
            if i >= 3 {
                assert(p[i] == d[i - 3]);
            }
        } else if n < 100 {
            if i >= 2 {
                assert(p[i] == d[i - 2]);
            }
        } else if n < 1000 {
            if i >= 1 {
                assert(p[i] == d[i - 1]);
            }
        }
    }
}

proof fn lemma_concat_ascii(a: Seq<char>, b: Seq<char>)
    requires
        ascii_text(a),
        ascii_text(b),
    ensures
        ascii_text(a + b),
{
    assert forall|i: int| 0 <= i < (a + b).len() implies (((#[trigger] (a + b)[i]) as u32) < 0x80) by {
        if i < a.len() {
            assert((a + b)[i] == a[i]);
        } else {
            assert((a + b)[i] == b[i - a.len()]);
        }
    }
}

proof fn lemma_no_dash(s: Seq<char>)
    requires
        crate::num::all_digits(s),
    ensures
        crate::text::replace_char(s, '-', Seq::empty()) == s,
{
    assert forall|i: int| 0 <= i < s.len() implies s[i] != '-' by {
        assert(crate::num::is_digit(s[i]));
    }
    crate::money::lemma_replace_absent(s, '-', Seq::empty());
}

/// The year text is ASCII, four characters at least, and so it stays with
/// its dashes removed.
proof fn lemma_year_text(y: int)
    ensures
        ascii_text(crate::date::year_text(y)),
        crate::date::year_text(y).len() >= 4,
        ascii_text(crate::text::replace_char(crate::date::year_text(y), '-', Seq::empty())),
        crate::text::replace_char(crate::date::year_text(y), '-', Seq::empty()).len() >= 4,
{
    let yt = crate::date::year_text(y);
    let e = Seq::<char>::empty();
    if 0 <= y <= 9999 {
        lemma_pad4(y as nat);
        lemma_digits_ascii(yt);
        lemma_no_dash(yt);
    } else {
        let n: nat = if y < 0 {
            (-y) as nat
        } else {
            y as nat
        };
        let c = if y < 0 {
            '-'
        } else {
            '+'
        };
        let p = crate::date::pad4(n);
        lemma_pad4(n);
        lemma_digits_ascii(p);
        lemma_concat_ascii(seq![c], p);
        assert(yt == seq![c] + p);
        crate::money::lemma_replace_concat(seq![c], p, '-', e);
        crate::money::lemma_replace_single(c, '-', e);
        lemma_no_dash(p);
        if y < 0 {
            assert(e + p =~= p);
        } else {
            lemma_concat_ascii(seq![c], p);
        }
    }
}

/// The "%Y%m" key of a date has four bytes at its head to read a year from.
pub proof fn lemma_ym_key(d: (int, int, int))
    requires
        valid_ymd(d),
    ensures
        crate::utils::byte_prefix(crate::date::date_text(d, "%Y%m"@), 4) is Some,
{
    reveal_strlit("%Y%m");
    reveal_strlit("%Y%m%d");
    reveal_strlit("%Y-%m-%d");
    let yt = crate::date::year_text(d.0);
    let m = crate::num::pad2(d.1 as nat);
    lemma_year_text(d.0);
    crate::money::lemma_pad2(d.1 as nat);
    lemma_digits_ascii(m);
    lemma_concat_ascii(yt, m);
    assert("%Y%m"@.len() == 4);
    assert("%Y%m"@ != "%Y%m%d"@);
    assert("%Y%m"@ != "%Y-%m-%d"@);
    assert(crate::date::date_text(d, "%Y%m"@) == yt + m);
    lemma_ascii_byte_prefix(yt + m, 4);
}

/// Today's date written "%Y-%m-%d" and cut to its year and month leaves
/// four bytes at its head to read a year from.
pub proof fn lemma_today_ym(d: (int, int, int))
    requires
        valid_ymd(d),
    ensures
        crate::utils::byte_prefix(crate::utils::isodate2ym_spec(crate::date::date_text(d, "%Y-%m-%d"@)), 4) is Some,
{
    reveal_strlit("%Y%m");
    reveal_strlit("%Y%m%d");
    reveal_strlit("%Y-%m-%d");
    let e = Seq::<char>::empty();
    let yt = crate::date::year_text(d.0);
    let m = crate::num::pad2(d.1 as nat);
    let dd = crate::num::pad2(d.2 as nat);
    let t = crate::date::date_text(d, "%Y-%m-%d"@);
    assert("%Y-%m-%d"@.len() == 8);
    assert("%Y-%m-%d"@ != "%Y%m%d"@);
    assert(t == yt + seq!['-'] + m + seq!['-'] + dd);
    lemma_year_text(d.0);
    crate::money::lemma_pad2(d.1 as nat);
    crate::money::lemma_pad2(d.2 as nat);
    lemma_no_dash(m);
    lemma_no_dash(dd);
    crate::money::lemma_replace_single('-', '-', e);
    crate::money::lemma_replace_concat(yt + seq!['-'] + m + seq!['-'], dd, '-', e);
    crate::money::lemma_replace_concat(yt + seq!['-'] + m, seq!['-'], '-', e);
    crate::money::lemma_replace_concat(yt + seq!['-'], m, '-', e);
    crate::money::lemma_replace_concat(yt, seq!['-'], '-', e);
    let ryt = crate::text::replace_char(yt, '-', e);
    let u = crate::text::replace_char(t, '-', e);
    assert(u =~= ryt + m + dd);
    lemma_digits_ascii(m);
    lemma_digits_ascii(dd);
    lemma_concat_ascii(ryt, m);
    lemma_concat_ascii(ryt + m, dd);
    lemma_ascii_byte_prefix(u, 6);
    let v = u.take(6);
    assert(crate::utils::isodate2ym_spec(t) == v);
    assert forall|i: int| 0 <= i < v.len() implies ((#[trigger] v[i]) as u32) < 0x80 by {
        assert(v[i] == u[i]);
    }
    lemma_ascii_byte_prefix(v, 4);
}

proof fn lemma_int_text_inj(a: int, b: int)
    requires
        crate::num::int_text(a) == crate::num::int_text(b),
    ensures
        a == b,
{
    if a < 0 {
        crate::num::lemma_decimal_digits((-a) as nat);
    } else {
        crate::num::lemma_decimal_digits(a as nat);
    }
    if b < 0 {
        crate::num::lemma_decimal_digits((-b) as nat);
    } else {
        crate::num::lemma_decimal_digits(b as nat);
    }
    let ta = crate::num::int_text(a);
    if a < 0 && b >= 0 {
        assert(ta[0] == '-');
        assert(crate::num::is_digit(crate::num::decimal(b as nat)[0]));
    } else if a >= 0 && b < 0 {
        assert(crate::num::int_text(b)[0] == '-');
        assert(crate::num::is_digit(crate::num::decimal(a as nat)[0]));
    } else if a < 0 && b < 0 {
        assert(ta.drop_first() =~= crate::num::decimal((-a) as nat));
        assert(crate::num::int_text(b).drop_first() =~= crate::num::decimal((-b) as nat));
    }
}

proof fn lemma_ym_text_inj(y1: int, m1: int, y2: int, m2: int)
    requires
        1 <= m1 <= 12,
        1 <= m2 <= 12,
        crate::utils::ym_text(y1, m1) == crate::utils::ym_text(y2, m2),
    ensures
        y1 == y2 && m1 == m2,
{
    let a = crate::num::int_text(y1);
    let b = crate::num::int_text(y2);
    let p = crate::num::pad2(m1 as nat);
    let q = crate::num::pad2(m2 as nat);
    crate::money::lemma_pad2(m1 as nat);
    crate::money::lemma_pad2(m2 as nat);
    let s = a + p;
    assert(s == b + q);
    assert(p.len() == 2);
    assert(q.len() == 2);
    assert(s.len() == a.len() + 2);
    assert(a.len() == b.len());
    assert(a =~= s.take(a.len() as int));
    assert(b =~= (b + q).take(b.len() as int));
    assert(p =~= s.skip(a.len() as int));
    assert(q =~= (b + q).skip(b.len() as int));
    lemma_int_text_inj(y1, y2);
}

proof fn lemma_slot_inj(yapo: int, j1: int, j2: int)
    requires
        0 <= j1,
        0 <= j2,
        crate::utils::month_slot(yapo, j1) == crate::utils::month_slot(yapo, j2),
    ensures
        j1 == j2,
{
    vstd::arithmetic::div_mod::lemma_fundamental_div_mod(j1, 12);
    vstd::arithmetic::div_mod::lemma_fundamental_div_mod(j2, 12);
}

proof fn lemma_months_upto(yapo: int, mapo: int, yeos: int, meos: int, n: nat)
    ensures
        ({
            let ms = crate::utils::months_upto(yapo, mapo, yeos, meos, n);
            &&& ms.no_duplicates()
            &&& forall|i: int| 0 <= i < ms.len() ==> exists|j: int| 0 <= j < n && #[trigger] ms[i] == crate::utils::month_slot(yapo, j)
            &&& forall|i: int| 0 <= i < ms.len() ==> 1 <= (#[trigger] ms[i]).1 <= 12
        }),
    decreases n,
{
    if n > 0 {
        let k = (n - 1) as nat;
        lemma_months_upto(yapo, mapo, yeos, meos, k);
        let prev = crate::utils::months_upto(yapo, mapo, yeos, meos, k);
        let ms = crate::utils::months_upto(yapo, mapo, yeos, meos, n);
        let sl = crate::utils::month_slot(yapo, k as int);
        assert(sl.1 == (k as int) % 12 + 1);
        assert forall|i: int| 0 <= i < prev.len() implies #[trigger] prev[i] != sl by {
            let j = choose|j: int| 0 <= j < k && #[trigger] prev[i] == crate::utils::month_slot(yapo, j);
            if prev[i] == sl {
                lemma_slot_inj(yapo, j, k as int);
            }
        }
        assert forall|i: int| 0 <= i < ms.len() implies exists|j: int| 0 <= j < n && #[trigger] ms[i] == crate::utils::month_slot(yapo, j) by {
            if i < prev.len() {
                assert(ms[i] == prev[i]);
                let j = choose|j: int| 0 <= j < k && #[trigger] prev[i] == crate::utils::month_slot(yapo, j);
            } else {
                assert(ms[i] == sl);
            }
        }
        assert forall|i: int| 0 <= i < ms.len() implies 1 <= (#[trigger] ms[i]).1 <= 12 by {
            if i < prev.len() {
                assert(ms[i] == prev[i]);
            } else {
                assert(ms[i] == sl);
            }
        }
        assert forall|a: int, b: int| 0 <= a < ms.len() && 0 <= b < ms.len() && a != b implies ms[a] != ms[b] by {
            if a < prev.len() && b < prev.len() {
                assert(ms[a] == prev[a] && ms[b] == prev[b]);
            } else if a < prev.len() {
                assert(ms[a] == prev[a] && ms[b] == sl);
            } else {
                assert(ms[b] == prev[b] && ms[a] == sl);
            }
        }
    }
}

/// The "YYYYMM" texts of the months between two months.
pub open spec fn month_texts(yapo: int, mapo: int, yeos: int, meos: int) -> Seq<Seq<char>> {
    crate::utils::months_between_spec(yapo, mapo, yeos, meos).map_values(|p: (int, int)| crate::utils::ym_text(p.0, p.1))
}

/// No month is written twice.
pub proof fn lemma_month_texts_distinct(yapo: int, mapo: int, yeos: int, meos: int)
    ensures
        month_texts(yapo, mapo, yeos, meos).no_duplicates(),
{
    let ms = crate::utils::months_between_spec(yapo, mapo, yeos, meos);
    let ts = month_texts(yapo, mapo, yeos, meos);
    if yapo <= yeos {
        lemma_months_upto(yapo, mapo, yeos, meos, (12 * (yeos - yapo + 1)) as nat);
    }
    assert forall|a: int, b: int| 0 <= a < ts.len() && 0 <= b < ts.len() && a != b implies ts[a] != ts[b] by {
        assert(ms[a] != ms[b]);
        if ts[a] == ts[b] {
            lemma_ym_text_inj(ms[a].0, ms[a].1, ms[b].0, ms[b].1);
        }
    }
}

/// The "%Y%m" month of an entry's date.
pub open spec fn month_of() -> spec_fn(Entry) -> Seq<char> {
    |e: Entry| crate::date::date_text(e.0.date, "%Y%m"@)
}

/// The lines of the accounts under `acc` in the transactions up to `eos`,
/// in book order.
pub open spec fn month_entries(b: crate::book::BookView, acc: Seq<char>, eos: Option<Seq<char>>) -> Seq<Entry> {
    keep(flat(span_txs(b.txs, None, crate::book::bound_of(eos))), under(acc))
}

/// The balance of the accounts under `acc` up to `eos`.
pub open spec fn balance_up_to(b: crate::book::BookView, acc: Seq<char>, eos: Option<Seq<char>>) -> int {
    ktotal(span_txs(b.txs, None, crate::book::bound_of(eos)), under(acc), value_of())
}

/// `k` is the key of some entry, and no entry's key sorts before it.
pub open spec fn is_least_key(es: Seq<Entry>, key_of: spec_fn(Entry) -> Seq<char>, k: Seq<char>) -> bool {
    &&& exists|i: int| 0 <= i < es.len() && key_of(#[trigger] es[i]) == k
    &&& forall|i: int| 0 <= i < es.len() ==> !text_lt(key_of(#[trigger] es[i]), k)
}

/// `k` is the key of some entry, and no entry's key sorts after it.
pub open spec fn is_greatest_key(es: Seq<Entry>, key_of: spec_fn(Entry) -> Seq<char>, k: Seq<char>) -> bool {
    &&& exists|i: int| 0 <= i < es.len() && key_of(#[trigger] es[i]) == k
    &&& forall|i: int| 0 <= i < es.len() ==> !text_lt(k, key_of(#[trigger] es[i]))
}

/// The last month of the aggregation: with a balance left, the month of
/// `eos` or, without one, of `today`; else the last month with lines.
pub open spec fn end_month(
    b: crate::book::BookView,
    acc: Seq<char>,
    eos: Option<Seq<char>>,
    today: (int, int, int),
    last: Seq<char>,
) -> Seq<char> {
    if balance_up_to(b, acc, eos) != 0 {
        match eos {
            Some(x) => crate::utils::isodate2ym_spec(x),
            None => crate::utils::isodate2ym_spec(crate::date::date_text(today, "%Y-%m-%d"@)),
        }
    } else {
        last
    }
}

/// The months of the aggregation, from `first` to the end month.
pub open spec fn agg_months(
    b: crate::book::BookView,
    acc: Seq<char>,
    eos: Option<Seq<char>>,
    today: (int, int, int),
    first: Seq<char>,
    last: Seq<char>,
) -> Seq<Seq<char>> {
    let (ya, ma) = crate::utils::ym_parts(first);
    let (ye, me) = crate::utils::ym_parts(end_month(b, acc, eos, today, last));
    month_texts(ya, ma, ye, me)
}

/// What the monthly aggregation owes: nothing without lines; else one row
/// per month of `agg_months`.
pub open spec fn monthly_rows(
    r: Seq<(String, i128, i128)>,
    b: crate::book::BookView,
    acc: Seq<char>,
    eos: Option<Seq<char>>,
    today: (int, int, int),
) -> bool {
    let es = month_entries(b, acc, eos);
    &&& es.len() == 0 ==> r.len() == 0
    &&& es.len() > 0 ==> exists|first: Seq<char>, last: Seq<char>|
        is_least_key(es, month_of(), first) && is_greatest_key(es, month_of(), last) && series_rows(
            r,
            es,
            month_of(),
            #[trigger] agg_months(b, acc, eos, today, first, last),
            delta_of(b.chart.cats),
        )
}

/// Where the month of `eos` is read as the end month, it must have four
/// bytes at its head.
pub open spec fn eos_month_readable(b: crate::book::BookView, acc: Seq<char>, eos: Option<Seq<char>>) -> bool {
    match eos {
        Some(x) => balance_up_to(b, acc, eos) != 0 ==> crate::utils::byte_prefix(crate::utils::isodate2ym_spec(x), 4) is Some,
        None => true,
    }
}

impl Book {
    /// The monthly movement of the accounts under `account_name` up to `eos`,
    /// with the running total, from the first month with lines to the last
    /// one, or, while a balance is left, to the month of `eos` (of `today`
    /// without one).
    pub fn monthly_aggregation_on(&self, account_name: &str, eos: Option<&str>, today: Date) -> (r: Vec<(String, i128, i128)>)
        requires
            self.wf(),
            eos_month_readable(self@, account_name@, opt_view(eos)),
        ensures
            monthly_rows(r@, self@, account_name@, opt_view(eos), today@),
    {
        let ghost ev = month_entries(self@, account_name@, opt_view(eos));
        let ghost cats = self@.chart.cats;
        let ts = self.transactions_filter(None, eos);
        let es = crate::book::collect_entries(&ts, Some(account_name));
        assert(crate::book::entries_view(es@) == ev);
        if es.len() == 0 {
            return Vec::new();
        }
        proof {
            crate::book::lemma_book_entries(self@, None, crate::book::bound_of(opt_view(eos)), false, under(account_name@));
            assert forall|k: int| 0 <= k < ev.len() implies -max_line() <= (#[trigger] ev[k]).1.value < max_line() by {
                assert(ev[k] == (es@[k].0@, es@[k].1@));
            }
        }
        let mut keys: Vec<Vec<char>> = Vec::new();
        let mut deltas: Vec<i128> = Vec::new();
        let mut i: usize = 0;
        while i < es.len()
            invariant
                i <= es@.len(),
                ev == crate::book::entries_view(es@),
                cats == self@.chart.cats,
                keys@.len() == i,
                deltas@.len() == i,
                forall|k: int| 0 <= k < i ==> #[trigger] keys@[k]@ == month_of()(ev[k]),
                forall|k: int| 0 <= k < i ==> #[trigger] deltas@[k] == crate::transaction_line::line_delta(cats, ev[k].1),
                forall|k: int| 0 <= k < i ==> valid_ymd(#[trigger] ev[k].0.date),
            decreases es@.len() - i,
        {
            let (trn, line) = es[i];
            proof {
                assert(ev[i as int] == (trn@, line@));
                lemma_date_valid(trn.date);
            }
            keys.push(chars_of(trn.date.format("%Y%m").as_str()));
            deltas.push(line.delta(&self.chart));
            i = i + 1;
        }
        // the first and last months
        let mut lo: usize = 0;
        let mut hi: usize = 0;
        let mut i: usize = 1;
        proof {
            lemma_text_lt_irrefl(keys@[0]@);
        }
        while i < keys.len()
            invariant
                1 <= i <= keys@.len(),
                lo < i,
                hi < i,
                forall|k: int| 0 <= k < i ==> !text_lt(#[trigger] keys@[k]@, keys@[lo as int]@),
                forall|k: int| 0 <= k < i ==> !text_lt(keys@[hi as int]@, #[trigger] keys@[k]@),
            decreases keys@.len() - i,
        {
            if text_less(&keys[i], &keys[lo]) {
                proof {
                    assert forall|k: int| 0 <= k < i + 1 implies !text_lt(#[trigger] keys@[k]@, keys@[i as int]@) by {
                        if k < i && text_lt(keys@[k]@, keys@[i as int]@) {
                            lemma_text_lt_trans(keys@[k]@, keys@[i as int]@, keys@[lo as int]@);
                        }
                        if k == i {
                            lemma_text_lt_irrefl(keys@[k]@);
                        }
                    }
                }
                lo = i;
            }
            if text_less(&keys[hi], &keys[i]) {
                proof {
                    assert forall|k: int| 0 <= k < i + 1 implies !text_lt(keys@[i as int]@, #[trigger] keys@[k]@) by {
                        if k < i && text_lt(keys@[i as int]@, keys@[k]@) {
                            lemma_text_lt_trans(keys@[hi as int]@, keys@[i as int]@, keys@[k]@);
                        }
                        if k == i {
                            lemma_text_lt_irrefl(keys@[k]@);
                        }
                    }
                }
                hi = i;
            }
            i = i + 1;
        }
        let ghost first = keys@[lo as int]@;
        let ghost last = keys@[hi as int]@;
        proof {
            assert(is_least_key(ev, month_of(), first)) by {
                assert(month_of()(ev[lo as int]) == first);
                assert forall|k: int| 0 <= k < ev.len() implies !text_lt(month_of()(#[trigger] ev[k]), first) by {
                    assert(keys@[k]@ == month_of()(ev[k]));
                }
            }
            assert(is_greatest_key(ev, month_of(), last)) by {
                assert(month_of()(ev[hi as int]) == last);
                assert forall|k: int| 0 <= k < ev.len() implies !text_lt(last, month_of()(#[trigger] ev[k])) by {
                    assert(keys@[k]@ == month_of()(ev[k]));
                }
            }
            lemma_ym_key(ev[lo as int].0.date);
            lemma_ym_key(ev[hi as int].0.date);
            lemma_date_valid(today);
            lemma_today_ym(today@);
        }
        let apon = string_of(&keys[lo]);
        let bal = self.ypoloipo(account_name, eos);
        let eosn: String = if bal != 0 {
            match eos {
                Some(x) => crate::utils::isodate2ym(x),
                None => {
                    let t = today.format("%Y-%m-%d");
                    crate::utils::isodate2ym(t.as_str())
                },
            }
        } else {
            string_of(&keys[hi])
        };
        assert(eosn@ == end_month(self@, account_name@, opt_view(eos), today@, last));
        let months = crate::utils::months_between_ym(apon.as_str(), eosn.as_str());
        let ghost ms = agg_months(self@, account_name@, opt_view(eos), today@, first, last);
        let mut mkeys: Vec<Vec<char>> = Vec::new();
        let mut j: usize = 0;
        while j < months.len()
            invariant
                j <= months@.len(),
                months@.len() == ms.len(),
                forall|k: int| 0 <= k < months@.len() ==> #[trigger] months@[k]@ == ms[k],
                mkeys@.len() == j,
                forall|k: int| 0 <= k < j ==> #[trigger] mkeys@[k]@ == ms[k],
            decreases months@.len() - j,
        {
            mkeys.push(chars_of(months[j].as_str()));
            j = j + 1;
        }
        proof {
            assert(keys_view(mkeys@) =~= ms);
            let (ya, ma) = crate::utils::ym_parts(first);
            let (ye, me) = crate::utils::ym_parts(end_month(self@, account_name@, opt_view(eos), today@, last));
            lemma_month_texts_distinct(ya, ma, ye, me);
        }
        let out = key_rows(&keys, &deltas, &mkeys, Ghost(ev), Ghost(month_of()), Ghost(cats));
        out
    }

    /// `time_series`, once it is known that the day after the last line's
    /// date exists; `Err` names the overflow that stops the series otherwise.
    pub fn time_series_checked(&self, account_name: &str, groupfn: Grouping, apo: Option<&str>, eos: Option<&str>) -> (r:
        Result<Option<Vec<(String, i128, i128)>>, String>)
        requires
            self.wf(),
        ensures
            ({
                let es = card_entries(self@, account_name@, opt_view(apo), opt_view(eos));
                &&& (r is Err <==> es.len() > 0 && es.last().0.date == last_date())
                &&& (r matches Ok(v) ==> series_result(v, es, groupfn, self@.chart.cats))
            }),
    {
        let ghost es = card_entries(self@, account_name@, opt_view(apo), opt_view(eos));
        let rows = self.acclines(account_name, apo, eos);
        if rows.len() > 0 {
            let last = rows[rows.len() - 1].1;
            assert(acc_line(rows@[rows@.len() - 1], es[es.len() - 1], self@.chart.cats));
            if last.year() == crate::date::MAX_YEAR && last.month() == 12 && last.day() == 31 {
                return Err(crate::text::to_owned_string("`NaiveDate + TimeDelta` overflowed"));
            }
        }
        Ok(self.time_series(account_name, groupfn, apo, eos))
    }

    /// `monthly_aggregation`, once it is known that the month of `eos` can be
    /// read where it is needed; `Err` names the slice that fails otherwise,
    /// or says that the clock, where it is read, gives no date.
    pub fn monthly_aggregation_checked(&self, account_name: &str, eos: Option<&str>) -> (r: Result<
        Vec<(String, i128, i128)>,
        String,
    >)
        requires
            self.wf(),
        ensures
            !eos_month_readable(self@, account_name@, opt_view(eos)) ==> r is Err,
            r is Err && eos_month_readable(self@, account_name@, opt_view(eos)) ==> needs_clock(
                self@,
                account_name@,
                opt_view(eos),
            ),
            r matches Ok(v) ==> exists|today: (int, int, int)|
                valid_ymd(today) && monthly_rows(v@, self@, account_name@, opt_view(eos), today),
            !needs_clock(self@, account_name@, opt_view(eos)) ==> (r matches Ok(v) ==> forall|today: (int, int, int)|
                valid_ymd(today) ==> #[trigger] monthly_rows(v@, self@, account_name@, opt_view(eos), today)),
    {
        if let Some(x) = eos {
            let bal = self.ypoloipo(account_name, eos);
            if bal != 0 {
                let ym = chars_of(crate::utils::isodate2ym(x).as_str());
                if crate::utils::byte_prefix_len(&ym, 4).is_none() {
                    return Err(crate::text::to_owned_string("byte index 4 is out of bounds or not a char boundary"));
                }
            }
        }
        match self.monthly_aggregation(account_name, eos) {
            Some(v) => Ok(v),
            None => Err(crate::text::to_owned_string("system time before Unix epoch")),
        }
    }

    /// The monthly aggregation as of today's date (see
    /// `monthly_aggregation_on`). The clock is read only where the end month
    /// comes from it (no `eos` and a balance left): which day it gives, the
    /// clock decides, and `None` comes back when it gives none. Elsewhere the
    /// result does not depend on the day.
    pub fn monthly_aggregation(&self, account_name: &str, eos: Option<&str>) -> (r: Option<Vec<(String, i128, i128)>>)
        requires
            self.wf(),
            eos_month_readable(self@, account_name@, opt_view(eos)),
        ensures
            r is None ==> needs_clock(self@, account_name@, opt_view(eos)),
            r matches Some(v) ==> exists|today: (int, int, int)|
                valid_ymd(today) && monthly_rows(v@, self@, account_name@, opt_view(eos), today),
            !needs_clock(self@, account_name@, opt_view(eos)) ==> (r matches Some(v) ==> forall|today: (int, int, int)|
                valid_ymd(today) ==> #[trigger] monthly_rows(v@, self@, account_name@, opt_view(eos), today)),
    {
        let needs = eos.is_none() && self.ypoloipo(account_name, eos) != 0;
        let t: Date = if needs {
            match crate::date::today() {
                Some(t) => t,
                None => {
                    return None;
                },
            }
        } else {
            match Date::from_ymd(1970, 1, 1) {
                Some(t) => t,
                None => {
                    return None;
                },
            }
        };
        proof {
            lemma_date_valid(t);
        }
        let v = self.monthly_aggregation_on(account_name, eos, t);
        proof {
            if !needs_clock(self@, account_name@, opt_view(eos)) {
                assert forall|today: (int, int, int)| valid_ymd(today) implies #[trigger] monthly_rows(
                    v@,
                    self@,
                    account_name@,
                    opt_view(eos),
                    today,
                ) by {
                    lemma_rows_clock_free(v@, self@, account_name@, opt_view(eos), t@, today);
                }
            }
        }
        Some(v)
    }
}

/// The end month comes from the clock: no `eos` is given and a balance is
/// left.
pub open spec fn needs_clock(b: crate::book::BookView, acc: Seq<char>, eos: Option<Seq<char>>) -> bool {
    eos is None && balance_up_to(b, acc, eos) != 0
}

/// Where the end month does not come from the clock, the rows owed are the
/// same whichever day today is.
pub proof fn lemma_rows_clock_free(
    r: Seq<(String, i128, i128)>,
    b: crate::book::BookView,
    acc: Seq<char>,
    eos: Option<Seq<char>>,
    t1: (int, int, int),
    t2: (int, int, int),
)
    requires
        !needs_clock(b, acc, eos),
    ensures
        monthly_rows(r, b, acc, eos, t1) == monthly_rows(r, b, acc, eos, t2),
{
    let es = month_entries(b, acc, eos);
    if es.len() > 0 {
        if monthly_rows(r, b, acc, eos, t1) {
            let (first, last) = choose|first: Seq<char>, last: Seq<char>|
                is_least_key(es, month_of(), first) && is_greatest_key(es, month_of(), last) && series_rows(
                    r,
                    es,
                    month_of(),
                    #[trigger] agg_months(b, acc, eos, t1, first, last),
                    delta_of(b.chart.cats),
                );
            assert(end_month(b, acc, eos, t1, last) == end_month(b, acc, eos, t2, last));
            assert(agg_months(b, acc, eos, t1, first, last) == agg_months(b, acc, eos, t2, first, last));
        }
        if monthly_rows(r, b, acc, eos, t2) {
            let (first, last) = choose|first: Seq<char>, last: Seq<char>|
                is_least_key(es, month_of(), first) && is_greatest_key(es, month_of(), last) && series_rows(
                    r,
                    es,
                    month_of(),
                    #[trigger] agg_months(b, acc, eos, t2, first, last),
                    delta_of(b.chart.cats),
                );
            assert(end_month(b, acc, eos, t1, last) == end_month(b, acc, eos, t2, last));
            assert(agg_months(b, acc, eos, t1, first, last) == agg_months(b, acc, eos, t2, first, last));
        }
    }
}

} // verus!
