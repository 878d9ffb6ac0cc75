//! The chart of accounts: account-name prefixes mapped to categories, and the
//! accounts that a book declares.

use vstd::prelude::*;

use crate::text::{concat_str, has_prefix, str_eq, str_starts_with, to_owned_string};
use crate::utils::{account_tree, account_tree_spec};

verus! {

/// The default Greek chart categories: (account prefix, category).
pub const OMADES_TYPES_GR: [(&'static str, &'static str); 9] = [
    ("1", "pagia"),
    ("2", "apothemata"),
    ("3", "apaitiseis"),
    ("4", "kefalaio"),
    ("5", "ypoxreoseis"),
    ("54.00", "fpa"),
    ("6", "ejoda"),
    ("7", "esoda"),
    ("8", "anorgana"),
];

/// The categories a chart may use.
pub const KATS: [&'static str; 9] = [
    "pagia",
    "apothemata",
    "apaitiseis",
    "kefalaio",
    "ypoxreoseis",
    "esoda",
    "ejoda",
    "anorgana",
    "fpa",
];

/// The categories a chart may use.
pub open spec fn is_kat(t: Seq<char>) -> bool {
    t == "pagia"@ || t == "apothemata"@ || t == "apaitiseis"@ || t == "kefalaio"@ || t
        == "ypoxreoseis"@ || t == "esoda"@ || t == "ejoda"@ || t == "anorgana"@ || t == "fpa"@
}

/// Whether `t` is one of the categories a chart may use.
pub fn is_kat_exec(t: &str) -> (b: bool)
    ensures
        b == is_kat(t@),
{
    str_eq(t, "pagia") || str_eq(t, "apothemata") || str_eq(t, "apaitiseis") || str_eq(
        t,
        "kefalaio",
    ) || str_eq(t, "ypoxreoseis") || str_eq(t, "esoda") || str_eq(t, "ejoda") || str_eq(
        t,
        "anorgana",
    ) || str_eq(t, "fpa")
}

/// A single account (only its name; the chart carries the semantics).
#[derive(Debug, Clone)]
pub struct Account {
    pub name: String,
}

impl Account {
    /// The hierarchical levels of the account's name.
    pub fn tree(&self, splitter: &str) -> (r: Vec<String>)
        ensures
            r@.len() == account_tree_spec(self.name@, false, splitter@).len(),
            forall|i: int|
                0 <= i < r@.len() ==> #[trigger] r@[i]@ == account_tree_spec(
                    self.name@,
                    false,
                    splitter@,
                )[i],
    {
        account_tree(self.name.as_str(), false, splitter)
    }
}

/// A named chart of accounts.
#[derive(Debug, Clone)]
pub struct ChartOfAccounts {
    pub name: String,
    /// Ordered list of (account-prefix, category) pairs.
    pub categories: Vec<(String, String)>,
    /// The accounts, each name once, in the order they were added.
    pub accounts: Vec<Account>,
}

/// The text of the error for an account that fits no category.
pub open spec fn bad_account_text(name: Seq<char>) -> Seq<char> {
    "Error account name: "@ + name
}

/// A chart of accounts as data: its name, its (prefix, category) pairs and
/// the registered account names.
pub struct ChartView {
    pub name: Seq<char>,
    pub cats: Seq<(Seq<char>, Seq<char>)>,
    pub names: Seq<Seq<char>>,
}

impl View for ChartOfAccounts {
    type V = ChartView;

    open spec fn view(&self) -> ChartView {
        ChartView {
            name: self.name@,
            cats: self.categories@.map_values(|c: (String, String)| (c.0@, c.1@)),
            names: self.accounts@.map_values(|a: Account| a.name@),
        }
    }
}

/// Whether some category prefix begins `name`.
pub open spec fn cats_fit(cats: Seq<(Seq<char>, Seq<char>)>, name: Seq<char>) -> bool {
    exists|i: int| 0 <= i < cats.len() && has_prefix(name, #[trigger] cats[i].0)
}

/// Categories whose prefix begins `name`, in chart order, among the first `n`.
pub open spec fn cats_types_upto(cats: Seq<(Seq<char>, Seq<char>)>, name: Seq<char>, n: nat) -> Seq<
    Seq<char>,
>
    decreases n,
{
    if n == 0 {
        Seq::empty()
    } else {
        let c = cats[n - 1];
        cats_types_upto(cats, name, (n - 1) as nat) + (if has_prefix(name, c.0) {
            seq![c.1]
        } else {
            Seq::empty()
        })
    }
}

/// All categories whose prefix begins `name`, in chart order.
pub open spec fn cats_types(cats: Seq<(Seq<char>, Seq<char>)>, name: Seq<char>) -> Seq<Seq<char>> {
    cats_types_upto(cats, name, cats.len())
}

/// A value-side account (income, liabilities or capital), whose values
/// change sign for display.
pub open spec fn cats_reverse(cats: Seq<(Seq<char>, Seq<char>)>, name: Seq<char>) -> bool {
    cats_types(cats, name).contains("esoda"@) || cats_types(cats, name).contains("ypoxreoseis"@)
        || cats_types(cats, name).contains("kefalaio"@)
}

/// The chart after registering `name`, when it fits a category.
pub open spec fn chart_add(c: ChartView, name: Seq<char>) -> ChartView {
    if cats_fit(c.cats, name) && !c.names.contains(name) {
        ChartView { names: c.names.push(name), ..c }
    } else {
        c
    }
}

impl ChartOfAccounts {
    /// The account names, in order.
    pub open spec fn names(&self) -> Seq<Seq<char>> {
        self@.names
    }

    /// Well formed: no account name appears twice.
    pub open spec fn wf(&self) -> bool {
        self.names().no_duplicates()
    }

    /// Whether `name` is a registered account.
    pub open spec fn has_account(&self, name: Seq<char>) -> bool {
        self.names().contains(name)
    }

    /// Whether some category prefix begins `name`.
    pub open spec fn fits_category(&self, name: Seq<char>) -> bool {
        cats_fit(self@.cats, name)
    }

    /// Categories whose prefix begins `name`, in chart order, among the first `n`.
    pub open spec fn types_upto(&self, name: Seq<char>, n: nat) -> Seq<Seq<char>> {
        cats_types_upto(self@.cats, name, n)
    }

    /// All categories whose prefix begins `name`, in chart order.
    pub open spec fn types_of(&self, name: Seq<char>) -> Seq<Seq<char>> {
        cats_types(self@.cats, name)
    }

    /// Whether values of `name` change sign for display.
    pub open spec fn reverse_spec(&self, name: Seq<char>) -> bool {
        cats_reverse(self@.cats, name)
    }

    /// Creates an empty chart. Every category must be one of the known ones.
    pub fn new(name: &str, types: Vec<(String, String)>) -> (r: Self)
        requires
            forall|i: int| 0 <= i < types@.len() ==> is_kat(#[trigger] types@[i].1@),
        ensures
            r.name@ == name@,
            r.categories@ == types@,
            r.accounts@.len() == 0,
            r.wf(),
    {
        ChartOfAccounts { name: to_owned_string(name), categories: types, accounts: Vec::new() }
    }

    /// Whether some category prefix begins the name.
    fn fits_exec(&self, account_name: &str) -> (b: bool)
        ensures
            b == self.fits_category(account_name@),
    {
        let mut i: usize = 0;
        while i < self.categories.len()
            invariant
                i <= self.categories@.len(),
                forall|j: int| 0 <= j < i ==> !has_prefix(account_name@, #[trigger] self.categories@[j].0@),
            decreases self.categories@.len() - i,
        {
            if str_starts_with(account_name, self.categories[i].0.as_str()) {
                assert(self@.cats[i as int].0 == self.categories@[i as int].0@);
                return true;
            }
            i = i + 1;
        }
        proof {
            if cats_fit(self@.cats, account_name@) {
                let j = choose|j: int| 0 <= j < self@.cats.len() && has_prefix(account_name@, #[trigger] self@.cats[j].0);
                assert(self@.cats[j].0 == self.categories@[j].0@);
            }
        }
        false
    }

    /// Position of the account called `account_name`, if registered.
    fn position(&self, account_name: &str) -> (r: Option<usize>)
        ensures
            r matches Some(i) ==> i < self.accounts@.len() && self.names()[i as int] == account_name@,
            r is None ==> !self.has_account(account_name@),
    {
        let mut i: usize = 0;
        while i < self.accounts.len()
            invariant
                i <= self.accounts@.len(),
                forall|j: int| 0 <= j < i ==> #[trigger] self.names()[j] != account_name@,
            decreases self.accounts@.len() - i,
        {
            if str_eq(self.accounts[i].name.as_str(), account_name) {
                return Some(i);
            }
            i = i + 1;
        }
        proof {
            if self.has_account(account_name@) {
                let j = choose|j: int| 0 <= j < self.names().len() && self.names()[j] == account_name@;
                assert(self.names()[j] != account_name@);
            }
        }
        None
    }

    /// Adds an account if its name starts with one of the category prefixes.
    pub fn add_account(&mut self, account_name: &str) -> (r: Result<(), String>)
        requires
            old(self).wf(),
        ensures
            final(self).wf(),
            final(self).name == old(self).name,
            final(self).categories == old(self).categories,
            final(self)@ == chart_add(old(self)@, account_name@),
            r is Ok <==> old(self).fits_category(account_name@),
            r matches Err(e) ==> e@ == bad_account_text(account_name@) && final(self).names() == old(
                self,
            ).names(),
            r is Ok ==> final(self).names() == (if old(self).has_account(account_name@) {
                old(self).names()
            } else {
                old(self).names().push(account_name@)
            }),
    {
        if !self.fits_exec(account_name) {
            return Err(concat_str("Error account name: ", account_name));
        }
        match self.position(account_name) {
            Some(_) => {},
            None => {
                let ghost before = self.names();
                self.accounts.push(Account { name: to_owned_string(account_name) });
                proof {
                    assert(self.names() =~= before.push(account_name@));
                    assert(self@.cats =~= old(self)@.cats);
                    assert forall|i: int, j: int|
                        0 <= i < self.names().len() && 0 <= j < self.names().len() && i != j implies self.names()[i]
                        != self.names()[j] by {
                        if i < before.len() && j < before.len() {
                        } else if i == before.len() {
                            assert(!before.contains(account_name@));
                            assert(before[j] == self.names()[j]);
                        } else {
                            assert(!before.contains(account_name@));
                            assert(before[i] == self.names()[i]);
                        }
                    }
                }
            },
        }
        Ok(())
    }

    /// Builds a chart from a name, its categories and its accounts.
    pub fn full(bname: &str, acc_types: Vec<(String, String)>, accountlist: &[String]) -> (r: Result<
        Self,
        String,
    >)
        requires
            forall|i: int| 0 <= i < acc_types@.len() ==> is_kat(#[trigger] acc_types@[i].1@),
        ensures
            r is Ok <==> (forall|i: int|
                0 <= i < accountlist@.len() ==> acc_types_fit(acc_types@, #[trigger] accountlist@[i]@)),
            r matches Ok(c) ==> c.wf() && c.name@ == bname@ && c.categories@ == acc_types@ && (forall|
                n: Seq<char>,
            | c.has_account(n) <==> exists|i: int| 0 <= i < accountlist@.len() && #[trigger] accountlist@[i]@ == n),
            r matches Err(e) ==> exists|i: int|
                0 <= i < accountlist@.len() && !acc_types_fit(acc_types@, #[trigger] accountlist@[i]@)
                    && e@ == bad_account_text(accountlist@[i]@) && forall|j: int|
                    0 <= j < i ==> acc_types_fit(acc_types@, #[trigger] accountlist@[j]@),
    {
        let mut new_ls = ChartOfAccounts::new(bname, acc_types);
        match new_ls.add_accounts_from_list(accountlist) {
            Ok(()) => Ok(new_ls),
            Err(e) => Err(e),
        }
    }

    /// Adds the accounts in order, stopping at the first one that fits no category.
    pub fn add_accounts_from_list(&mut self, acclist: &[String]) -> (r: Result<(), String>)
        requires
            old(self).wf(),
        ensures
            final(self).wf(),
            final(self).name == old(self).name,
            final(self).categories == old(self).categories,
            r is Ok <==> (forall|i: int|
                0 <= i < acclist@.len() ==> old(self).fits_category(#[trigger] acclist@[i]@)),
            r is Ok ==> forall|n: Seq<char>|
                final(self).has_account(n) <==> (old(self).has_account(n) || exists|i: int|
                    0 <= i < acclist@.len() && #[trigger] acclist@[i]@ == n),
            r matches Err(e) ==> exists|i: int|
                0 <= i < acclist@.len() && !old(self).fits_category(#[trigger] acclist@[i]@)
                    && e@ == bad_account_text(acclist@[i]@) && (forall|j: int|
                    0 <= j < i ==> old(self).fits_category(#[trigger] acclist@[j]@)) && (forall|n: Seq<char>|
                    final(self).has_account(n) <==> (old(self).has_account(n) || exists|j: int|
                        0 <= j < i && #[trigger] acclist@[j]@ == n)),
    {
        let mut i: usize = 0;
        while i < acclist.len()
            invariant
                i <= acclist@.len(),
                self.wf(),
                self.name == old(self).name,
                self.categories == old(self).categories,
                forall|j: int| 0 <= j < i ==> old(self).fits_category(#[trigger] acclist@[j]@),
                forall|n: Seq<char>|
                    self.has_account(n) <==> (old(self).has_account(n) || exists|j: int|
                        0 <= j < i && #[trigger] acclist@[j]@ == n),
            decreases acclist@.len() - i,
        {
            let ghost before = *self;
            let r = self.add_account(acclist[i].as_str());
            proof {
                assert(self.fits_category(acclist@[i as int]@) == old(self).fits_category(acclist@[i as int]@));
            }
            match r {
                Err(e) => {
                    proof {
                        assert(self.names() == before.names());
                        assert forall|n: Seq<char>| self.has_account(n) == before.has_account(n) by {}
                        assert(!old(self).fits_category(acclist@[i as int]@));
                    }
                    return Err(e);
                },
                Ok(()) => {
                    proof {
                        assert forall|n: Seq<char>|
                            self.has_account(n) <==> (old(self).has_account(n) || exists|j: int|
                                0 <= j < i + 1 && #[trigger] acclist@[j]@ == n) by {
                            if n == acclist@[i as int]@ {
                                if !before.has_account(n) {
                                    assert(self.names().last() == n);
                                }
                            } else if self.has_account(n) && !before.has_account(n) {
                                let k = choose|k: int| 0 <= k < self.names().len() && self.names()[k] == n;
                                assert(self.names() == before.names().push(acclist@[i as int]@));
                                assert(k < before.names().len());
                                assert(before.names()[k] == n);
                            } else if before.has_account(n) {
                                let k = choose|k: int| 0 <= k < before.names().len() && before.names()[k] == n;
                                if !before.has_account(acclist@[i as int]@) {
                                    assert(self.names()[k] == n);
                                }
                            }
                        }
                    }
                },
            }
            i = i + 1;
        }
        Ok(())
    }

    /// The account called `account_name`, if registered.
    pub fn get_account(&self, account_name: &str) -> (r: Option<&Account>)
        ensures
            r matches Some(a) ==> a.name@ == account_name@ && self.has_account(account_name@),
            r is None ==> !self.has_account(account_name@),
    {
        match self.position(account_name) {
            Some(i) => Some(&self.accounts[i]),
            None => None,
        }
    }

    /// Whether an account of that name is registered.
    pub fn is_valid_account(&self, account_name: &str) -> (b: bool)
        ensures
            b == self.has_account(account_name@),
    {
        self.position(account_name).is_some()
    }

    /// All categories whose prefix the account name starts with, in chart
    /// order. For "54.00.00.013" with the default types this is
    /// ["ypoxreoseis", "fpa"].
    pub fn account_type(&self, account_name: &str) -> (r: Vec<String>)
        ensures
            r@.len() == self.types_of(account_name@).len(),
            forall|i: int| 0 <= i < r@.len() ==> #[trigger] r@[i]@ == self.types_of(account_name@)[i],
    {
        let mut typs: Vec<String> = Vec::new();
        let mut i: usize = 0;
        while i < self.categories.len()
            invariant
                i <= self.categories@.len(),
                typs@.len() == self.types_upto(account_name@, i as nat).len(),
                forall|k: int| 0 <= k < typs@.len() ==> #[trigger] typs@[k]@ == self.types_upto(account_name@, i as nat)[k],
            decreases self.categories@.len() - i,
        {
            if str_starts_with(account_name, self.categories[i].0.as_str()) {
                typs.push(self.categories[i].1.clone());
            }
            i = i + 1;
        }
        typs
    }

    /// Whether the account is a VAT account.
    pub fn is_fpa(&self, account_name: &str) -> (b: bool)
        ensures
            b == self.types_of(account_name@).contains("fpa"@),
    {
        let t = self.account_type(account_name);
        let mut i: usize = 0;
        while i < t.len()
            invariant
                i <= t@.len(),
                t@.len() == self.types_of(account_name@).len(),
                forall|k: int| 0 <= k < t@.len() ==> #[trigger] t@[k]@ == self.types_of(account_name@)[k],
                forall|k: int| 0 <= k < i ==> self.types_of(account_name@)[k] != "fpa"@,
            decreases t@.len() - i,
        {
            if str_eq(t[i].as_str(), "fpa") {
                return true;
            }
            i = i + 1;
        }
        false
    }

    /// True when the account belongs to esoda, ypoxreoseis or kefalaio, so
    /// that values change sign for display.
    pub fn is_reverse(&self, account_name: &str) -> (b: bool)
        ensures
            b == self.reverse_spec(account_name@),
    {
        let t = self.account_type(account_name);
        let ghost ts = self.types_of(account_name@);
        let mut i: usize = 0;
        while i < t.len()
            invariant
                i <= t@.len(),
                t@.len() == ts.len(),
                ts == self.types_of(account_name@),
                forall|k: int| 0 <= k < t@.len() ==> #[trigger] t@[k]@ == ts[k],
                forall|k: int|
                    0 <= k < i ==> ts[k] != "esoda"@ && ts[k] != "ypoxreoseis"@ && ts[k] != "kefalaio"@,
            decreases t@.len() - i,
        {
            let s = t[i].as_str();
            if str_eq(s, "esoda") || str_eq(s, "ypoxreoseis") || str_eq(s, "kefalaio") {
                return true;
            }
            i = i + 1;
        }
        false
    }
}

/// Whether some prefix among `types` begins `name`.
pub open spec fn acc_types_fit(types: Seq<(String, String)>, name: Seq<char>) -> bool {
    cats_fit(types.map_values(|c: (String, String)| (c.0@, c.1@)), name)
}

} // verus!
