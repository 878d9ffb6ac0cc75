//! What the book's screens show: the rows of the account tree, the balance
//! checks and the small choices that pick a report.

use vstd::prelude::*;

use crate::account::ChartOfAccounts;
use crate::book::{bound_of, opt_view, Book, BookView};
use crate::date::Date;
use crate::date_groups::Grouping;
use crate::ledger::{ktotal, line_limit, span_txs, under, value_of};
use crate::text::{chars_of, has_prefix, join, split_on, split_on_exec, string_of, text_lt};
use crate::theme::{kind_of_types, Kind, Period};
use crate::totals::IsoTotals;
use crate::transaction::max_line;

verus! {

/// One row of the account tree.
pub struct AccountRow {
    pub name: String,
    /// The last dot-separated level only; the tree shows the hierarchy.
    pub leaf: String,
    pub depth: usize,
    pub has_children: bool,
    pub value: i128,
    pub kind: Kind,
}

/// The row shown for entry `i` of a trial balance tree.
pub open spec fn account_row(r: AccountRow, tree: Seq<(String, IsoTotals)>, i: int, chart: ChartOfAccounts) -> bool {
    let name = tree[i].0@;
    let parts = split_on(name, seq!['.']);
    &&& r.name@ == name
    &&& r.leaf@ == parts.last()
    &&& r.depth == parts.len() - 1
    &&& r.has_children == (i + 1 < tree.len() && has_prefix(tree[i + 1].0@, name + seq!['.']))
    &&& r.value == tree[i].1.tvalue
    &&& r.kind == kind_of_types(chart.types_of(name))
}

/// The rows of the account tree for a trial balance listed in key order.
/// Children follow their parent, as '.' sorts before any letter, so an
/// account has children when the next name continues it after a dot.
pub fn account_rows(tree: &Vec<(String, IsoTotals)>, chart: &ChartOfAccounts) -> (r: Vec<AccountRow>)
    ensures
        r@.len() == tree@.len(),
        forall|i: int| 0 <= i < r@.len() ==> account_row(#[trigger] r@[i], tree@, i, *chart),
{
    let mut rows: Vec<AccountRow> = Vec::new();
    let mut i: usize = 0;
    while i < tree.len()
        invariant
            i <= tree@.len(),
            rows@.len() == i,
            forall|k: int| 0 <= k < i ==> account_row(#[trigger] rows@[k], tree@, k, *chart),
        decreases tree@.len() - i,
    {
        let name = chars_of(tree[i].0.as_str());
        let mut dot: Vec<char> = Vec::new();
        dot.push('.');
        assert(dot@ =~= seq!['.']);
        let parts = split_on_exec(&name, &dot);
        proof {
            crate::text::lemma_split_nonempty(name@, seq!['.']);
        }
        let leaf = string_of(&parts[parts.len() - 1]);
        let has_children = if i + 1 < tree.len() {
            let mut child = chars_of(tree[i].0.as_str());
            child.push('.');
            let next = chars_of(tree[i + 1].0.as_str());
            crate::text::starts_with(&next, &child)
        } else {
            false
        };
        let types = chart.account_type(tree[i].0.as_str());
        proof {
            assert(types@.map_values(|s: String| s@) =~= chart.types_of(name@));
        }
        let sl = types.as_slice();
        assert(sl@ == types@);
        let kind = Kind::from_types(sl);
        let row = AccountRow {
            name: tree[i].0.clone(),
            leaf,
            depth: parts.len() - 1,
            has_children,
            value: tree[i].1.tvalue,
            kind,
        };
        proof {
            let nm = tree@[i as int].0@;
            assert(row.name@ == nm);
            assert(row.leaf@ == split_on(nm, seq!['.']).last());
            assert(row.depth == split_on(nm, seq!['.']).len() - 1);
            if i + 1 < tree@.len() {
                assert(nm.push('.') =~= nm + seq!['.']);
            }
            assert(row.has_children == (i + 1 < tree@.len() && has_prefix(tree@[i + 1].0@, nm + seq!['.'])));
            assert(row.kind == kind_of_types(chart.types_of(nm)));
        }
        rows.push(row);
        i = i + 1;
    }
    rows
}

/// The prefix under which a scan of the tree hides rows, as it stands before
/// row `k`: set after a shown row that has children and is collapsed, kept
/// while the rows fall under it, cleared at the first row that does not.
pub open spec fn hidden_under(rows: Seq<AccountRow>, collapsed: Seq<Seq<char>>, k: nat) -> Option<Seq<char>>
    decreases k,
{
    if k == 0 {
        None
    } else {
        let h = hidden_under(rows, collapsed, (k - 1) as nat);
        let row = rows[k - 1];
        if under_hidden(h, row.name@) {
            h
        } else if row.has_children && collapsed.contains(row.name@) {
            Some(row.name@ + seq!['.'])
        } else {
            None
        }
    }
}

/// The name falls under the hiding prefix, if there is one.
pub open spec fn under_hidden(h: Option<Seq<char>>, name: Seq<char>) -> bool {
    match h {
        Some(p) => has_prefix(name, p),
        None => false,
    }
}

/// Row `k` is shown in the tree when no search is typed.
pub open spec fn tree_shown(rows: Seq<AccountRow>, collapsed: Seq<Seq<char>>, k: int) -> bool {
    !under_hidden(hidden_under(rows, collapsed, k as nat), rows[k].name@)
}

/// The search text as it is matched: trimmed, then folded by `grup`.
pub open spec fn search_key(search: Seq<char>) -> Seq<char> {
    crate::utils::grup_spec(crate::text::trim(search))
}

/// Row `k` is shown: with a search typed, when its folded name contains the
/// folded search; else when no collapsed row above it hides it.
pub open spec fn row_shown(rows: Seq<AccountRow>, search: Seq<char>, collapsed: Seq<Seq<char>>, k: int) -> bool {
    if search_key(search).len() > 0 {
        crate::text::occurs_in(search_key(search), crate::utils::grup_spec(rows[k].name@))
    } else {
        tree_shown(rows, collapsed, k)
    }
}

/// Row `j` collapses what lies under it: it has children and its name is
/// among the collapsed ones.
pub open spec fn hides(rows: Seq<AccountRow>, collapsed: Seq<Seq<char>>, j: int) -> bool {
    rows[j].has_children && collapsed.contains(rows[j].name@)
}

/// Row `k` lies under a collapsing row above it.
pub open spec fn under_collapsed(rows: Seq<AccountRow>, collapsed: Seq<Seq<char>>, k: int) -> bool {
    exists|j: int| 0 <= j < k && #[trigger] hides(rows, collapsed, j) && has_prefix(rows[k].name@, rows[j].name@ + seq!['.'])
}

/// The rows under a row follow it without a break, as in a tree listed in
/// key order.
pub open spec fn tree_ordered(rows: Seq<AccountRow>) -> bool {
    forall|j: int, m: int, k: int|
        0 <= j < m < k < rows.len() && #[trigger] has_prefix(rows[k].name@, rows[j].name@ + seq!['.'])
            ==> #[trigger] has_prefix(rows[m].name@, rows[j].name@ + seq!['.'])
}

proof fn lemma_prefix_trans(a: Seq<char>, b: Seq<char>, c: Seq<char>)
    requires
        has_prefix(a, b),
        has_prefix(b, c),
    ensures
        has_prefix(a, c),
{
    assert(a.take(c.len() as int) =~= b.take(c.len() as int));
}

/// Where the hiding prefix stands, it was set by a collapsing row above.
proof fn lemma_hidden_set_by(rows: Seq<AccountRow>, collapsed: Seq<Seq<char>>, k: nat)
    requires
        k <= rows.len(),
    ensures
        hidden_under(rows, collapsed, k) matches Some(p) ==> exists|j: int|
            0 <= j < k && #[trigger] hides(rows, collapsed, j) && p == rows[j].name@ + seq!['.'],
    decreases k,
{
    if k > 0 {
        lemma_hidden_set_by(rows, collapsed, (k - 1) as nat);
        if !under_hidden(hidden_under(rows, collapsed, (k - 1) as nat), rows[k - 1].name@) {
            if rows[k - 1].has_children && collapsed.contains(rows[k - 1].name@) {
                assert(hides(rows, collapsed, k - 1));
            }
        }
    }
}

/// Past a collapsing row `j`, while the rows fall under it, the hiding
/// prefix stands at `j` or at a row that `j` lies under.
proof fn lemma_hidden_holds(rows: Seq<AccountRow>, collapsed: Seq<Seq<char>>, j: int, k: nat)
    requires
        0 <= j < k <= rows.len(),
        hides(rows, collapsed, j),
        forall|m: int| j < m < k ==> has_prefix(#[trigger] rows[m].name@, rows[j].name@ + seq!['.']),
    ensures
        hidden_under(rows, collapsed, k) matches Some(p) && has_prefix(rows[j].name@ + seq!['.'], p),
    decreases k,
{
    let nj = rows[j].name@ + seq!['.'];
    if j == k - 1 {
        let h = hidden_under(rows, collapsed, j as nat);
        if under_hidden(h, rows[j].name@) {
            let p = h->0;
            assert(nj.take(p.len() as int) =~= rows[j].name@.take(p.len() as int));
        } else {
            assert(nj.take(nj.len() as int) =~= nj);
        }
    } else {
        lemma_hidden_holds(rows, collapsed, j, (k - 1) as nat);
        let p = hidden_under(rows, collapsed, (k - 1) as nat)->0;
        lemma_prefix_trans(rows[k - 1].name@, nj, p);
    }
}

/// In a tree listed in key order, a row is shown, with no search typed,
/// exactly when no collapsing row above it has it underneath.
pub proof fn lemma_tree_shown_by_ancestors(rows: Seq<AccountRow>, collapsed: Seq<Seq<char>>, k: int)
    requires
        tree_ordered(rows),
        0 <= k < rows.len(),
    ensures
        tree_shown(rows, collapsed, k) <==> !under_collapsed(rows, collapsed, k),
{
    let h = hidden_under(rows, collapsed, k as nat);
    if under_collapsed(rows, collapsed, k) {
        let j = choose|j: int| 0 <= j < k && #[trigger] hides(rows, collapsed, j) && has_prefix(rows[k].name@, rows[j].name@ + seq!['.']);
        assert forall|m: int| j < m < k implies has_prefix(#[trigger] rows[m].name@, rows[j].name@ + seq!['.']) by {
            assert(has_prefix(rows[k].name@, rows[j].name@ + seq!['.']));
        }
        lemma_hidden_holds(rows, collapsed, j, k as nat);
        lemma_prefix_trans(rows[k].name@, rows[j].name@ + seq!['.'], h->0);
    }
    if !tree_shown(rows, collapsed, k) {
        lemma_hidden_set_by(rows, collapsed, k as nat);
        let j = choose|j: int| 0 <= j < k && #[trigger] hides(rows, collapsed, j) && h->0 == rows[j].name@ + seq!['.'];
        assert(has_prefix(rows[k].name@, rows[j].name@ + seq!['.']));
    }
}

/// The indices of the rows of the account tree that are shown, in order.
/// With a search typed (after trimming), a row is shown when its name,
/// folded by `grup`, contains the folded search. Without one, the rows under
/// a shown row that has children and whose name is in `collapsed` are hidden.
pub fn visible_rows(rows: &Vec<AccountRow>, search: &str, collapsed: &Vec<String>) -> (r: Vec<usize>)
    ensures
        forall|a: int, b: int| 0 <= a < b < r@.len() ==> r@[a] < r@[b],
        forall|a: int| 0 <= a < r@.len() ==> r@[a] < rows@.len(),
        forall|k: usize|
            k < rows@.len() ==> (r@.contains(k) <==> row_shown(
                rows@,
                search@,
                crate::parser_text::texts_view(collapsed@),
                k as int,
            )),
        search_key(search@).len() == 0 && tree_ordered(rows@) ==> forall|k: usize|
            k < rows@.len() ==> (r@.contains(k) <==> !under_collapsed(
                rows@,
                crate::parser_text::texts_view(collapsed@),
                k as int,
            )),
{
    let ghost cv = crate::parser_text::texts_view(collapsed@);
    let trimmed = string_of(&crate::text::trim_chars(&chars_of(search)));
    let q = chars_of(crate::utils::grup(trimmed.as_str()).as_str());
    assert(q@ == search_key(search@));
    let searching = q.len() > 0;
    let mut r: Vec<usize> = Vec::new();
    let mut hidden: Option<Vec<char>> = None;
    let mut i: usize = 0;
    while i < rows.len()
        invariant
            i <= rows@.len(),
            cv == crate::parser_text::texts_view(collapsed@),
            q@ == search_key(search@),
            searching == (q@.len() > 0),
            searching || (match hidden {
                Some(p) => hidden_under(rows@, cv, i as nat) == Some(p@),
                None => hidden_under(rows@, cv, i as nat) is None,
            }),
            forall|a: int, b: int| 0 <= a < b < r@.len() ==> r@[a] < r@[b],
            forall|a: int| 0 <= a < r@.len() ==> r@[a] < i,
            forall|k: usize| k < i ==> (r@.contains(k) <==> row_shown(rows@, search@, cv, k as int)),
        decreases rows@.len() - i,
    {
        let ghost r0 = r@;
        let shown: bool;
        if searching {
            let name = chars_of(crate::utils::grup(rows[i].name.as_str()).as_str());
            shown = crate::text::contains_chars(&name, &q);
        } else {
            let under = match &hidden {
                Some(p) => crate::text::starts_with(&chars_of(rows[i].name.as_str()), p),
                None => false,
            };
            assert(under == under_hidden(hidden_under(rows@, cv, i as nat), rows@[i as int].name@));
            shown = !under;
            if !under {
                if rows[i].has_children && crate::parser_text::contains_text(collapsed, rows[i].name.as_str()) {
                    let mut p = chars_of(rows[i].name.as_str());
                    p.push('.');
                    hidden = Some(p);
                } else {
                    hidden = None;
                }
            }
            proof {
                reveal_with_fuel(hidden_under, 2);
            }
        }
        assert(shown == row_shown(rows@, search@, cv, i as int));
        if shown {
            r.push(i);
        }
        proof {
            assert forall|k: usize| k < i + 1 implies (r@.contains(k) <==> row_shown(rows@, search@, cv, k as int)) by {
                if k < i {
                    if r@.contains(k) && !r0.contains(k) {
                        assert(r@.last() == k);
                    }
                    if r0.contains(k) {
                        let j = choose|j: int| 0 <= j < r0.len() && r0[j] == k;
                        assert(r@[j] == k);
                    }
                } else {
                    if shown {
                        assert(r@[r@.len() - 1] == k);
                    } else {
                        assert(r@ == r0);
                    }
                }
            }
        }
        i = i + 1;
    }
    proof {
        if !searching && tree_ordered(rows@) {
            assert forall|k: usize| k < rows@.len() implies (r@.contains(k) <==> !under_collapsed(rows@, cv, k as int)) by {
                lemma_tree_shown_by_ancestors(rows@, cv, k as int);
            }
        }
    }
    r
}

/// The figures shown above a chart of a series, in cents: the latest value,
/// the value of largest size (the first of them), the mean of the non-zero
/// values rounded to the cent, and the sum (`None` when it passes an `i128`).
pub struct SeriesStats {
    pub latest: i128,
    pub peak: i128,
    pub mean: i128,
    pub total: Option<i128>,
}

pub open spec fn abs_int(x: int) -> int {
    if x < 0 {
        -x
    } else {
        x
    }
}

/// The value of largest size, the first of them; 0 for no values.
pub open spec fn series_peak(s: Seq<i128>) -> int
    decreases s.len(),
{
    if s.len() == 0 {
        0
    } else {
        let a = series_peak(s.drop_last());
        let b = s.last() as int;
        if abs_int(b) > abs_int(a) {
            b
        } else {
            a
        }
    }
}

pub open spec fn series_sum(s: Seq<i128>) -> int
    decreases s.len(),
{
    if s.len() == 0 {
        0
    } else {
        series_sum(s.drop_last()) + s.last()
    }
}

/// How many of the values are not zero.
pub open spec fn nonzero_count(s: Seq<i128>) -> nat
    decreases s.len(),
{
    if s.len() == 0 {
        0
    } else {
        nonzero_count(s.drop_last()) + if s.last() != 0 {
            1nat
        } else {
            0nat
        }
    }
}

/// 2^64, the base of the two-limb sums below.
pub open spec fn limb() -> int {
    0x1_0000_0000_0000_0000
}

/// An `i128` as a high limb and a low limb of 64 bits: `v == h * 2^64 + l`.
fn split_i128(v: i128) -> (r: (i128, u64))
    ensures
        v == r.0 * limb() + r.1,
        -0x8000_0000_0000_0000 <= r.0 <= 0x7fff_ffff_ffff_ffff,
{
    if v >= 0 {
        let h: i128 = v / 0x1_0000_0000_0000_0000i128;
        let l: i128 = v % 0x1_0000_0000_0000_0000i128;
        proof {
            vstd::arithmetic::div_mod::lemma_fundamental_div_mod(v as int, limb());
        }
        assert(h <= 0x7fff_ffff_ffff_ffff) by (nonlinear_arith)
            requires
                v == limb() * h + l,
                0 <= l,
                v <= 0x7fff_ffff_ffff_ffff_ffff_ffff_ffff_ffff,
                limb() == 0x1_0000_0000_0000_0000,
        ;
        (h, l as u64)
    } else {
        let w: i128 = -(v + 1);
        let h: i128 = w / 0x1_0000_0000_0000_0000i128;
        let l: i128 = w % 0x1_0000_0000_0000_0000i128;
        proof {
            vstd::arithmetic::div_mod::lemma_fundamental_div_mod(w as int, limb());
        }
        assert(h <= 0x7fff_ffff_ffff_ffff) by (nonlinear_arith)
            requires
                w == limb() * h + l,
                0 <= l,
                w <= 0x7fff_ffff_ffff_ffff_ffff_ffff_ffff_ffff,
                limb() == 0x1_0000_0000_0000_0000,
        ;
        assert(h >= 0) by (nonlinear_arith)
            requires
                w == limb() * h + l,
                0 <= l < limb(),
                w >= 0,
                limb() == 0x1_0000_0000_0000_0000,
        ;
        let rh: i128 = -h - 1;
        let rl: i128 = 0xffff_ffff_ffff_ffffi128 - l;
        assert(v == rh * limb() + rl) by (nonlinear_arith)
            requires
                w == limb() * h + l,
                w == -(v + 1),
                rh == -h - 1,
                rl == 0xffff_ffff_ffff_ffff - l,
                limb() == 0x1_0000_0000_0000_0000,
        ;
        (rh, rl as u64)
    }
}

/// The size of a two-limb number `h * 2^64 + l` as two limbs.
fn magnitude(h: i128, l: u64) -> (r: (u128, u64))
    requires
        h >= -0x7fff_ffff_ffff_ffff_8000_0000_0000_0000,
    ensures
        r.0 * limb() + r.1 == abs_int(h * limb() + l),
        r.0 <= 0x8000_0000_0000_0000_0000_0000_0000_0000,
{
    if h >= 0 {
        assert(h * limb() + l >= 0) by (nonlinear_arith)
            requires
                h >= 0,
                l >= 0,
                limb() == 0x1_0000_0000_0000_0000,
        ;
        (h as u128, l)
    } else if l == 0 {
        assert(h * limb() + l < 0) by (nonlinear_arith)
            requires
                h < 0,
                l == 0,
                limb() == 0x1_0000_0000_0000_0000,
        ;
        assert((-h) * limb() == -(h * limb())) by (nonlinear_arith);
        ((-h) as u128, 0)
    } else {
        assert(h * limb() + l < 0) by (nonlinear_arith)
            requires
                h < 0,
                0 < l < limb(),
                limb() == 0x1_0000_0000_0000_0000,
        ;
        let mh: i128 = -h - 1;
        let ml: u64 = (0x1_0000_0000_0000_0000u128 - l as u128) as u64;
        assert(mh * limb() + ml == -(h * limb() + l)) by (nonlinear_arith)
            requires
                mh == -h - 1,
                ml == limb() - l,
                limb() == 0x1_0000_0000_0000_0000,
        ;
        (mh as u128, ml)
    }
}

/// `(m + c / 2) / c` for a two-limb `m = mh * 2^64 + ml`, by long division,
/// when the quotient fits 2^127.
fn round_div_wide(mh: u128, ml: u64, c: u128) -> (q: u128)
    requires
        1 <= c < limb(),
        mh <= 0x8000_0000_0000_0000_0000_0000_0000_0000,
        (mh * limb() + ml + c / 2) / (c as int) <= 0x8000_0000_0000_0000_0000_0000_0000_0000,
    ensures
        q == (mh * limb() + ml + c / 2) / (c as int),
{
    let a: u128 = ml as u128 + c / 2;
    let (h, l): (u128, u128) = if a >= 0x1_0000_0000_0000_0000u128 {
        (mh + 1, a - 0x1_0000_0000_0000_0000u128)
    } else {
        (mh, a)
    };
    assert(h * limb() + l == mh * limb() + ml + c / 2) by (nonlinear_arith)
        requires
            a == ml + c / 2,
            (a >= limb() && h == mh + 1 && l == a - limb()) || (a < limb() && h == mh && l == a),
    ;
    let q1: u128 = h / c;
    let r1: u128 = h % c;
    proof {
        vstd::arithmetic::div_mod::lemma_fundamental_div_mod(h as int, c as int);
    }
    assert(r1 * limb() + l < 0x1_0000_0000_0000_0000_0000_0000_0000_0000) by (nonlinear_arith)
        requires
            r1 < c,
            c < limb(),
            l < limb(),
            limb() == 0x1_0000_0000_0000_0000,
    ;
    let x: u128 = r1 * 0x1_0000_0000_0000_0000u128 + l;
    let q2: u128 = x / c;
    let r2: u128 = x % c;
    proof {
        vstd::arithmetic::div_mod::lemma_fundamental_div_mod(x as int, c as int);
        let n = h * limb() + l;
        assert(n == (q1 * limb() + q2) * c + r2) by (nonlinear_arith)
            requires
                h == c * q1 + r1,
                x == c * q2 + r2,
                x == r1 * limb() + l,
                n == h * limb() + l,
        ;
        vstd::arithmetic::div_mod::lemma_fundamental_div_mod_converse(n, c as int, q1 * limb() + q2, r2 as int);
        assert(q1 * limb() <= q1 * limb() + q2);
    }
    q1 * 0x1_0000_0000_0000_0000u128 + q2
}

/// The figures above the chart of a series of values. The sum is carried in
/// two limbs, so any series of `i128` values is taken.
pub fn series_stats(values: &Vec<i128>) -> (r: SeriesStats)
    ensures
        r.latest == (if values@.len() == 0 {
            0
        } else {
            values@.last() as int
        }),
        r.peak == series_peak(values@),
        r.total == (if i128::MIN <= series_sum(values@) <= i128::MAX {
            Some(series_sum(values@) as i128)
        } else {
            None
        }),
        r.mean == (if nonzero_count(values@) == 0 {
            0
        } else {
            crate::transaction_line::round_div(series_sum(values@), nonzero_count(values@) as int)
        }),
{
    let mut peak: i128 = 0;
    let mut hi: i128 = 0;
    let mut lo: u64 = 0;
    let mut count: usize = 0;
    let mut i: usize = 0;
    while i < values.len()
        invariant
            i <= values@.len(),
            peak == series_peak(values@.take(i as int)),
            hi * limb() + lo == series_sum(values@.take(i as int)),
            -(i * 0x8000_0000_0000_0000) <= hi <= i * 0x8000_0000_0000_0000,
            count == nonzero_count(values@.take(i as int)),
            count <= i,
            -(count * 0x8000_0000_0000_0000_0000_0000_0000_0000) <= series_sum(values@.take(i as int)),
            series_sum(values@.take(i as int)) <= count * 0x7fff_ffff_ffff_ffff_ffff_ffff_ffff_ffff,
        decreases values@.len() - i,
    {
        let v = values[i];
        proof {
            assert(values@.take(i + 1).drop_last() =~= values@.take(i as int));
        }
        let av: i128 = if v < 0 {
            if v == i128::MIN {
                i128::MAX
            } else {
                -v
            }
        } else {
            v
        };
        let ap: i128 = if peak < 0 {
            if peak == i128::MIN {
                i128::MAX
            } else {
                -peak
            }
        } else {
            peak
        };
        if v != i128::MIN && peak != i128::MIN && av > ap || v == i128::MIN && peak != i128::MIN {
            peak = v;
        }
        let (vh, vl) = split_i128(v);
        let s: u128 = lo as u128 + vl as u128;
        let carry: i128 = if s >= 0x1_0000_0000_0000_0000u128 {
            lo = (s - 0x1_0000_0000_0000_0000u128) as u64;
            1
        } else {
            lo = s as u64;
            0
        };
        hi = hi + vh + carry;
        if v != 0 {
            count = count + 1;
        }
        i = i + 1;
    }
    assert(values@.take(values@.len() as int) =~= values@);
    let ghost sum = series_sum(values@);
    let total: Option<i128> = if -0x8000_0000_0000_0000i128 <= hi && hi <= 0x7fff_ffff_ffff_ffffi128 {
        assert(i128::MIN <= sum <= i128::MAX) by (nonlinear_arith)
            requires
                hi * limb() + lo == sum,
                -0x8000_0000_0000_0000 <= hi <= 0x7fff_ffff_ffff_ffff,
                0 <= lo < limb(),
                limb() == 0x1_0000_0000_0000_0000,
        ;
        Some(hi * 0x1_0000_0000_0000_0000i128 + lo as i128)
    } else {
        assert(!(i128::MIN <= sum <= i128::MAX)) by (nonlinear_arith)
            requires
                hi * limb() + lo == sum,
                hi < -0x8000_0000_0000_0000 || hi > 0x7fff_ffff_ffff_ffff,
                0 <= lo < limb(),
                limb() == 0x1_0000_0000_0000_0000,
        ;
        None
    };
    let mean: i128 = if count == 0 {
        0
    } else {
        let (mh, ml) = magnitude(hi, lo);
        let c: u128 = count as u128;
        let ghost m = abs_int(sum);
        assert(m + c / 2 < c * 0x8000_0000_0000_0000_0000_0000_0000_0001) by (nonlinear_arith)
            requires
                m == abs_int(sum),
                -(c * 0x8000_0000_0000_0000_0000_0000_0000_0000) <= sum <= c * 0x7fff_ffff_ffff_ffff_ffff_ffff_ffff_ffff,
                c >= 1,
        ;
        assert((m + c / 2) / (c as int) <= 0x8000_0000_0000_0000_0000_0000_0000_0000) by (nonlinear_arith)
            requires
                0 <= m + c / 2 < c * 0x8000_0000_0000_0000_0000_0000_0000_0001,
                c >= 1,
        ;
        let q = round_div_wide(mh, ml, c);
        proof {
            if sum >= 0 {
                assert(m + c / 2 < c * 0x8000_0000_0000_0000_0000_0000_0000_0000) by (nonlinear_arith)
                    requires
                        m == sum,
                        sum <= c * 0x7fff_ffff_ffff_ffff_ffff_ffff_ffff_ffff,
                        c >= 1,
                ;
                assert(q <= 0x7fff_ffff_ffff_ffff_ffff_ffff_ffff_ffff) by (nonlinear_arith)
                    requires
                        q == (m + c / 2) / (c as int),
                        0 <= m + c / 2 < c * 0x8000_0000_0000_0000_0000_0000_0000_0000,
                        c >= 1,
                ;
            }
        }
        if hi >= 0 {
            assert(sum >= 0) by (nonlinear_arith)
                requires
                    hi * limb() + lo == sum,
                    hi >= 0,
                    lo >= 0,
                    limb() == 0x1_0000_0000_0000_0000,
            ;
            q as i128
        } else {
            assert(sum < 0) by (nonlinear_arith)
                requires
                    hi * limb() + lo == sum,
                    hi < 0,
                    lo < limb(),
                    limb() == 0x1_0000_0000_0000_0000,
            ;
            if q == 0x8000_0000_0000_0000_0000_0000_0000_0000u128 {
                i128::MIN
            } else {
                -(q as i128)
            }
        }
    };
    let latest: i128 = if values.len() == 0 {
        0
    } else {
        values[values.len() - 1]
    };
    SeriesStats { latest, peak, mean, total }
}

/// An amount in Greek style, or a dash for nothing.
pub open spec fn dash_text(c: int) -> Seq<char> {
    if c == 0 {
        "—"@
    } else {
        crate::money::f2gr_spec(c)
    }
}

/// An amount in Greek style, or a dash when it is zero.
pub fn fmt_or_dash(cents: i128) -> (r: String)
    ensures
        r@ == dash_text(cents as int),
{
    if cents == 0 {
        crate::text::to_owned_string("—")
    } else {
        crate::money::f2gr(cents)
    }
}

/// Families whose chart shows the running balance rather than the movement
/// of each period: assets and liabilities, against income and expenses.
pub open spec fn cumulative_kind(k: Kind) -> bool {
    k == Kind::Pagia || k == Kind::Apaitiseis || k == Kind::Ypoxreoseis || k == Kind::Kefalaio || k == Kind::Apothemata
}

/// The chart of an account kept under one category shows its running
/// balance exactly when the category is a balance-sheet one: fixed assets
/// (pagia), inventories (apothemata), receivables (apaitiseis), capital
/// (kefalaio) or liabilities (ypoxreoseis). Expenses (ejoda), income (esoda),
/// VAT (fpa) and the non-operating group (anorgana) show their movement.
pub proof fn lemma_cumulative_categories(t: Seq<char>)
    requires
        crate::account::is_kat(t),
    ensures
        cumulative_kind(kind_of_types(seq![t])) <==> (t == "pagia"@ || t == "apothemata"@ || t
            == "apaitiseis"@ || t == "kefalaio"@ || t == "ypoxreoseis"@),
        !cumulative_kind(kind_of_types(seq![t])) <==> (t == "ejoda"@ || t == "esoda"@ || t
            == "fpa"@ || t == "anorgana"@),
{
    assert(seq![t].last() == t);
    assert(seq![t].drop_last() =~= Seq::<Seq<char>>::empty());
    reveal_strlit("pagia");
    reveal_strlit("apothemata");
    reveal_strlit("apaitiseis");
    reveal_strlit("kefalaio");
    reveal_strlit("ypoxreoseis");
    reveal_strlit("ejoda");
    reveal_strlit("esoda");
    reveal_strlit("fpa");
    reveal_strlit("anorgana");
    assert("pagia"@ != "ejoda"@) by {
        assert("pagia"@[0] != "ejoda"@[0]);
    }
    assert("pagia"@ != "esoda"@) by {
        assert("pagia"@[0] != "esoda"@[0]);
    }
    assert("pagia"@ != "fpa"@) by {
        assert("pagia"@.len() != "fpa"@.len());
    }
    assert("pagia"@ != "anorgana"@) by {
        assert("pagia"@.len() != "anorgana"@.len());
    }
    assert("apothemata"@ != "ejoda"@) by {
        assert("apothemata"@.len() != "ejoda"@.len());
    }
    assert("apothemata"@ != "esoda"@) by {
        assert("apothemata"@.len() != "esoda"@.len());
    }
    assert("apothemata"@ != "fpa"@) by {
        assert("apothemata"@.len() != "fpa"@.len());
    }
    assert("apothemata"@ != "anorgana"@) by {
        assert("apothemata"@.len() != "anorgana"@.len());
    }
    assert("apaitiseis"@ != "ejoda"@) by {
        assert("apaitiseis"@.len() != "ejoda"@.len());
    }
    assert("apaitiseis"@ != "esoda"@) by {
        assert("apaitiseis"@.len() != "esoda"@.len());
    }
    assert("apaitiseis"@ != "fpa"@) by {
        assert("apaitiseis"@.len() != "fpa"@.len());
    }
    assert("apaitiseis"@ != "anorgana"@) by {
        assert("apaitiseis"@.len() != "anorgana"@.len());
    }
    assert("kefalaio"@ != "ejoda"@) by {
        assert("kefalaio"@.len() != "ejoda"@.len());
    }
    assert("kefalaio"@ != "esoda"@) by {
        assert("kefalaio"@.len() != "esoda"@.len());
    }
    assert("kefalaio"@ != "fpa"@) by {
        assert("kefalaio"@.len() != "fpa"@.len());
    }
    assert("kefalaio"@ != "anorgana"@) by {
        assert("kefalaio"@[0] != "anorgana"@[0]);
    }
    assert("ypoxreoseis"@ != "ejoda"@) by {
        assert("ypoxreoseis"@.len() != "ejoda"@.len());
    }
    assert("ypoxreoseis"@ != "esoda"@) by {
        assert("ypoxreoseis"@.len() != "esoda"@.len());
    }
    assert("ypoxreoseis"@ != "fpa"@) by {
        assert("ypoxreoseis"@.len() != "fpa"@.len());
    }
    assert("ypoxreoseis"@ != "anorgana"@) by {
        assert("ypoxreoseis"@.len() != "anorgana"@.len());
    }
}

/// Whether the chart of an account of this family shows its running balance.
pub fn is_cumulative(kind: Kind) -> (b: bool)
    ensures
        b == cumulative_kind(kind),
{
    match kind {
        Kind::Pagia | Kind::Apaitiseis | Kind::Ypoxreoseis | Kind::Kefalaio | Kind::Apothemata => true,
        _ => false,
    }
}

impl Period {
    /// The grouping of dates a period picks.
    pub fn grouping(self) -> (g: Grouping)
        ensures
            g == (match self {
                Period::Minas => Grouping::YearMonth,
                Period::Trimino => Grouping::Trimino,
                Period::Ejamino => Grouping::Ejamino,
                Period::Etos => Grouping::Year,
            }),
    {
        match self {
            Period::Minas => Grouping::YearMonth,
            Period::Trimino => Grouping::Trimino,
            Period::Ejamino => Grouping::Ejamino,
            Period::Etos => Grouping::Year,
        }
    }
}

/// The "up to" date in force: the filter's date when the filter is on and
/// the date is a real ISO date.
pub fn filter_eos(enabled: bool, date: &str) -> (r: Option<String>)
    ensures
        r is Some <==> enabled && Date::parse_iso_spec(date@) is Some,
        r matches Some(d) ==> d@ == date@,
{
    if enabled && Date::parse_iso(date).is_some() {
        Some(crate::text::to_owned_string(date))
    } else {
        None
    }
}

/// A balance check as shown: date, account, the balance found, the balance
/// expected, their difference and whether they agree.
pub open spec fn check_row(r: (String, String, i128, i64, i128, bool), b: BookView, v: (Seq<char>, Seq<char>, int)) -> bool {
    let found = ktotal(span_txs(b.txs, None, bound_of(Some(v.0))), under(v.1), value_of());
    &&& r.0@ == v.0
    &&& r.1@ == v.1
    &&& r.2 == found
    &&& r.3 == v.2
    &&& r.4 == found - v.2
    &&& r.5 == (found == v.2)
}

impl Book {
    /// Each balance check of the journals against the balance the book
    /// gives on its date.
    pub fn validation_rows(&self) -> (r: Vec<(String, String, i128, i64, i128, bool)>)
        requires
            self.wf(),
        ensures
            r@.len() == self@.validations.len(),
            forall|i: int| 0 <= i < r@.len() ==> check_row(#[trigger] r@[i], self@, self@.validations[i]),
    {
        let mut rows: Vec<(String, String, i128, i64, i128, bool)> = Vec::new();
        let mut i: usize = 0;
        while i < self.validations.len()
            invariant
                i <= self.validations@.len(),
                self.wf(),
                rows@.len() == i,
                forall|k: int| 0 <= k < i ==> check_row(#[trigger] rows@[k], self@, self@.validations[k]),
            decreases self.validations@.len() - i,
        {
            let v = &self.validations[i];
            let ypoloipo = self.ypoloipo(v.1.as_str(), Some(v.0.as_str()));
            proof {
                let f = span_txs(self@.txs, None, bound_of(Some(v.0@)));
                crate::book::lemma_span_entries_bounded(self, None, bound_of(Some(v.0@)), under(v.1@));
                let es = crate::ledger::keep(crate::ledger::flat(f), under(v.1@));
                crate::ledger::lemma_figs_bounded(self@.chart.cats);
                crate::ledger::lemma_total_bound(es, value_of());
                assert(es.len() * max_line() <= 0x7fff_ffff * line_limit() * max_line()) by (nonlinear_arith)
                    requires
                        es.len() <= 0x7fff_ffff * line_limit(),
                ;
                assert(self@.validations[i as int] == (v.0@, v.1@, v.2 as int));
            }
            let diff = ypoloipo - v.2 as i128;
            rows.push((v.0.clone(), v.1.clone(), ypoloipo, v.2, diff, ypoloipo == v.2 as i128));
            i = i + 1;
        }
        rows
    }
}

} // verus!
