//! Per-key totals kept as a list sorted by key: the shape of the trial
//! balance.

use vstd::prelude::*;

use crate::ledger::{credit_of, debit_of, delta_of, total, value_of, Entry};
use crate::text::{chars_eq, lemma_text_lt_asym, lemma_text_lt_irrefl, lemma_text_lt_total, lemma_text_lt_trans, text_less, text_lt};
use crate::transaction_line::{line_credit, line_debit, line_delta, LineView};

verus! {

/// Totals for one account (or group) of the trial balance, in cents.
#[derive(Debug, Clone, Copy)]
pub struct IsoTotals {
    pub tvalue: i128,
    pub tdebit: i128,
    pub tcredit: i128,
    pub tdelta: i128,
}

impl View for IsoTotals {
    type V = (int, int, int, int);

    open spec fn view(&self) -> (int, int, int, int) {
        (self.tvalue as int, self.tdebit as int, self.tcredit as int, self.tdelta as int)
    }
}

impl Default for IsoTotals {
    fn default() -> (r: Self)
        ensures
            r@ == (0int, 0int, 0int, 0int),
    {
        IsoTotals { tvalue: 0, tdebit: 0, tcredit: 0, tdelta: 0 }
    }
}

/// Componentwise sum.
pub open spec fn tot_add(a: (int, int, int, int), b: (int, int, int, int)) -> (int, int, int, int) {
    (a.0 + b.0, a.1 + b.1, a.2 + b.2, a.3 + b.3)
}

/// The four figures of a line.
pub open spec fn line_tot(cats: Seq<(Seq<char>, Seq<char>)>, l: LineView) -> (int, int, int, int) {
    (l.value, line_debit(l), line_credit(l), line_delta(cats, l))
}

/// The four totals over the entries: value, debit, credit and delta.
pub open spec fn tot4(es: Seq<Entry>, cats: Seq<(Seq<char>, Seq<char>)>) -> (int, int, int, int) {
    (total(es, value_of()), total(es, debit_of()), total(es, credit_of()), total(es, delta_of(cats)))
}

/// Each component within `i128`.
pub open spec fn tot_fits(t: (int, int, int, int)) -> bool {
    &&& i128::MIN <= t.0 <= i128::MAX
    &&& i128::MIN <= t.1 <= i128::MAX
    &&& i128::MIN <= t.2 <= i128::MAX
    &&& i128::MIN <= t.3 <= i128::MAX
}

/// The value stored for `k`, or zeros.
pub open spec fn tot_at(m: Map<Seq<char>, (int, int, int, int)>, k: Seq<char>) -> (int, int, int, int) {
    if m.contains_key(k) {
        m[k]
    } else {
        (0, 0, 0, 0)
    }
}

/// Keys strictly increasing.
pub open spec fn keys_sorted<T>(v: Seq<(Vec<char>, T)>) -> bool {
    forall|i: int, j: int| 0 <= i < j < v.len() ==> text_lt(#[trigger] v[i].0@, #[trigger] v[j].0@)
}

/// `v` lists the map `m` in key order.
pub open spec fn lists(v: Seq<(Vec<char>, IsoTotals)>, m: Map<Seq<char>, (int, int, int, int)>) -> bool {
    &&& keys_sorted(v)
    &&& forall|i: int| 0 <= i < v.len() ==> m.contains_key(#[trigger] v[i].0@) && m[v[i].0@] == v[i].1@
    &&& forall|k: Seq<char>| m.contains_key(k) ==> exists|i: int| 0 <= i < v.len() && #[trigger] v[i].0@ == k
}

/// Adds `add` to the totals of `key`, inserting the key in order when new.
pub(crate) fn upsert(v: &mut Vec<(Vec<char>, IsoTotals)>, key: &[char], add: IsoTotals, Ghost(m): Ghost<Map<Seq<char>, (int, int, int, int)>>)
    requires
        lists(old(v)@, m),
        tot_fits(tot_add(tot_at(m, key@), add@)),
    ensures
        lists(final(v)@, m.insert(key@, tot_add(tot_at(m, key@), add@))),
{
    let ghost m2 = m.insert(key@, tot_add(tot_at(m, key@), add@));
    let mut k: usize = 0;
    while k < v.len() && text_less(&v[k].0, key)
        invariant
            k <= v@.len(),
            v@ == old(v)@,
            forall|j: int| 0 <= j < k ==> text_lt(#[trigger] v@[j].0@, key@),
        decreases v@.len() - k,
    {
        k = k + 1;
    }
    if k < v.len() && chars_eq(&v[k].0, key) {
        let cur = v[k].1;
        let t = IsoTotals {
            tvalue: cur.tvalue + add.tvalue,
            tdebit: cur.tdebit + add.tdebit,
            tcredit: cur.tcredit + add.tcredit,
            tdelta: cur.tdelta + add.tdelta,
        };
        let name = v[k].0.clone();
        let ghost before = v@;
        v.set(k, (name, t));
        proof {
            assert(v@ == before.update(k as int, (name, t)));
            assert(name@ == key@);
            assert forall|i: int, j: int| 0 <= i < j < v@.len() implies text_lt(#[trigger] v@[i].0@, #[trigger] v@[j].0@) by {
                assert(before[i].0@ == v@[i].0@);
                assert(before[j].0@ == v@[j].0@);
            }
            assert forall|i: int| 0 <= i < v@.len() implies m2.contains_key(#[trigger] v@[i].0@) && m2[v@[i].0@] == v@[i].1@ by {
                if i != k {
                    assert(v@[i] == before[i]);
                    if v@[i].0@ == key@ {
                        if i < k {
                            lemma_text_lt_irrefl(key@);
                        } else {
                            lemma_text_lt_irrefl(key@);
                        }
                    }
                }
            }
            assert forall|kk: Seq<char>| m2.contains_key(kk) implies exists|i: int| 0 <= i < v@.len() && #[trigger] v@[i].0@ == kk by {
                if kk == key@ {
                    assert(v@[k as int].0@ == kk);
                } else {
                    let i = choose|i: int| 0 <= i < before.len() && #[trigger] before[i].0@ == kk;
                    assert(v@[i].0@ == before[i].0@);
                }
            }
        }
    } else {
        proof {
            assert(!m.contains_key(key@)) by {
                if m.contains_key(key@) {
                    let i = choose|i: int| 0 <= i < v@.len() && #[trigger] v@[i].0@ == key@;
                    if i < k {
                        lemma_text_lt_irrefl(key@);
                    } else if i == k {
                    } else {
                        // v[k] is not below key, and v[k] < v[i] == key
                        assert(text_lt(v@[k as int].0@, v@[i].0@));
                        if v@[k as int].0@ != key@ {
                            lemma_text_lt_total(v@[k as int].0@, key@);
                        }
                    }
                }
            }
        }
        let ghost before = v@;
        let entry = (crate::num::slice_range(key, 0, key.len()), add);
        assert(entry.0@ =~= key@);
        v.insert(k, entry);
        proof {
            assert(entry.0@ == key@);
            assert(v@ == before.insert(k as int, entry));
            assert forall|i: int| 0 <= i < v@.len() implies m2.contains_key(#[trigger] v@[i].0@) && m2[v@[i].0@] == v@[i].1@ by {
                if i < k {
                    assert(v@[i] == before[i]);
                    if v@[i].0@ == key@ {
                        lemma_text_lt_irrefl(key@);
                    }
                } else if i > k {
                    assert(v@[i] == before[i - 1]);
                    if v@[i].0@ == key@ {
                        assert(m.contains_key(before[i - 1].0@));
                    }
                } else {
                    assert(tot_at(m, key@) == (0int, 0int, 0int, 0int));
                }
            }
            assert forall|kk: Seq<char>| m2.contains_key(kk) implies exists|i: int| 0 <= i < v@.len() && #[trigger] v@[i].0@ == kk by {
                if kk == key@ {
                    assert(v@[k as int].0@ == kk);
                } else {
                    let i = choose|i: int| 0 <= i < before.len() && #[trigger] before[i].0@ == kk;
                    if i < k {
                        assert(v@[i] == before[i]);
                    } else {
                        assert(v@[i + 1] == before[i]);
                    }
                }
            }
            // key sits between its neighbours
            if k < before.len() {
                let nk = before[k as int].0@;
                if nk != key@ {
                    lemma_text_lt_total(nk, key@);
                }
                assert(nk != key@);
                assert(text_lt(key@, nk));
            }
            assert forall|i: int, j: int| 0 <= i < j < v@.len() implies text_lt(#[trigger] v@[i].0@, #[trigger] v@[j].0@) by {
                if j < k {
                    assert(v@[i] == before[i]);
                    assert(v@[j] == before[j]);
                } else if j == k {
                    assert(v@[i] == before[i]);
                } else if i == k {
                    assert(v@[j] == before[j - 1]);
                    if j - 1 > k {
                        assert(text_lt(before[k as int].0@, before[j - 1].0@));
                        lemma_text_lt_trans(key@, before[k as int].0@, before[j - 1].0@);
                    }
                } else if i < k {
                    assert(v@[i] == before[i]);
                    assert(v@[j] == before[j - 1]);
                    if i < j - 1 {
                    } else {
                    }
                } else {
                    assert(v@[i] == before[i - 1]);
                    assert(v@[j] == before[j - 1]);
                }
            }
        }
    }
}

} // verus!
