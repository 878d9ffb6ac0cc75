//! Display themes, account families and the labels shown for them.

use vstd::prelude::*;

use crate::parser_text::utf8_len;
use crate::text::{chars_of, extend_chars, str_eq, string_of};
use crate::utils::{byte_prefix, byte_prefix_len};

verus! {

/// The selectable themes: two light, three dark.
#[derive(Clone, Copy, PartialEq, Eq, Debug, Structural)]
pub enum ThemeId {
    /// Cool white with a blue accent.
    Clean,
    /// Warm paper with a teal accent.
    Paper,
    /// Neutral charcoal.
    Night,
    /// Deep navy with a brighter blue.
    Ocean,
    /// The Dracula scheme.
    Dracula,
}

/// The key a theme is stored under in the settings.
pub open spec fn theme_key(t: ThemeId) -> Seq<char> {
    match t {
        ThemeId::Clean => "clean"@,
        ThemeId::Paper => "paper"@,
        ThemeId::Night => "night"@,
        ThemeId::Ocean => "ocean"@,
        ThemeId::Dracula => "dracula"@,
    }
}

/// The name a theme is shown with.
pub open spec fn theme_label(t: ThemeId) -> Seq<char> {
    match t {
        ThemeId::Clean => "Καθαρό"@,
        ThemeId::Paper => "Χαρτί"@,
        ThemeId::Night => "Νύχτα"@,
        ThemeId::Ocean => "Ωκεανός"@,
        ThemeId::Dracula => "Dracula"@,
    }
}

/// The dark themes.
pub open spec fn theme_dark(t: ThemeId) -> bool {
    t == ThemeId::Night || t == ThemeId::Ocean || t == ThemeId::Dracula
}

impl ThemeId {
    /// Stable identifier for the settings file; the label is free to change.
    pub fn key(self) -> (r: &'static str)
        ensures
            r@ == theme_key(self),
    {
        match self {
            ThemeId::Clean => "clean",
            ThemeId::Paper => "paper",
            ThemeId::Night => "night",
            ThemeId::Ocean => "ocean",
            ThemeId::Dracula => "dracula",
        }
    }

    /// The theme stored under `key`, if any.
    pub fn from_key(key: &str) -> (r: Option<ThemeId>)
        ensures
            r matches Some(t) ==> theme_key(t) == key@,
            r is None ==> forall|t: ThemeId| theme_key(t) != key@,
    {
        if str_eq(key, ThemeId::Clean.key()) {
            Some(ThemeId::Clean)
        } else if str_eq(key, ThemeId::Paper.key()) {
            Some(ThemeId::Paper)
        } else if str_eq(key, ThemeId::Night.key()) {
            Some(ThemeId::Night)
        } else if str_eq(key, ThemeId::Ocean.key()) {
            Some(ThemeId::Ocean)
        } else if str_eq(key, ThemeId::Dracula.key()) {
            Some(ThemeId::Dracula)
        } else {
            proof {
                assert forall|t: ThemeId| theme_key(t) != key@ by {
                    match t {
                        ThemeId::Clean => {},
                        ThemeId::Paper => {},
                        ThemeId::Night => {},
                        ThemeId::Ocean => {},
                        ThemeId::Dracula => {},
                    }
                }
            }
            None
        }
    }

    /// The name shown for the theme.
    pub fn label(self) -> (r: &'static str)
        ensures
            r@ == theme_label(self),
    {
        match self {
            ThemeId::Clean => "Καθαρό",
            ThemeId::Paper => "Χαρτί",
            ThemeId::Night => "Νύχτα",
            ThemeId::Ocean => "Ωκεανός",
            ThemeId::Dracula => "Dracula",
        }
    }

    /// Whether the theme is a dark one.
    pub fn is_dark(self) -> (b: bool)
        ensures
            b == theme_dark(self),
    {
        match self {
            ThemeId::Night | ThemeId::Ocean | ThemeId::Dracula => true,
            _ => false,
        }
    }
}

/// Account families, taken from the chart's categories rather than from
/// name prefixes, so that the colouring works for any book.
#[derive(Clone, Copy, PartialEq, Eq, Debug, Structural)]
pub enum Kind {
    Pagia,
    Apothemata,
    Apaitiseis,
    Kefalaio,
    Ypoxreoseis,
    Fpa,
    Ejoda,
    Esoda,
    Anorgana,
    Other,
}

/// The family a category names, if it names one.
pub open spec fn kind_of_type(t: Seq<char>) -> Option<Kind> {
    if t == "pagia"@ {
        Some(Kind::Pagia)
    } else if t == "apothemata"@ {
        Some(Kind::Apothemata)
    } else if t == "apaitiseis"@ {
        Some(Kind::Apaitiseis)
    } else if t == "kefalaio"@ {
        Some(Kind::Kefalaio)
    } else if t == "ypoxreoseis"@ {
        Some(Kind::Ypoxreoseis)
    } else if t == "fpa"@ {
        Some(Kind::Fpa)
    } else if t == "ejoda"@ {
        Some(Kind::Ejoda)
    } else if t == "esoda"@ {
        Some(Kind::Esoda)
    } else if t == "anorgana"@ {
        Some(Kind::Anorgana)
    } else {
        None
    }
}

/// The family of a list of categories: the last one that names a family
/// wins, `Other` when none does.
pub open spec fn kind_of_types(types: Seq<Seq<char>>) -> Kind
    decreases types.len(),
{
    if types.len() == 0 {
        Kind::Other
    } else {
        match kind_of_type(types.last()) {
            Some(k) => k,
            None => kind_of_types(types.drop_last()),
        }
    }
}

fn kind_of_type_exec(t: &str) -> (r: Option<Kind>)
    ensures
        r == kind_of_type(t@),
{
    if str_eq(t, "pagia") {
        Some(Kind::Pagia)
    } else if str_eq(t, "apothemata") {
        Some(Kind::Apothemata)
    } else if str_eq(t, "apaitiseis") {
        Some(Kind::Apaitiseis)
    } else if str_eq(t, "kefalaio") {
        Some(Kind::Kefalaio)
    } else if str_eq(t, "ypoxreoseis") {
        Some(Kind::Ypoxreoseis)
    } else if str_eq(t, "fpa") {
        Some(Kind::Fpa)
    } else if str_eq(t, "ejoda") {
        Some(Kind::Ejoda)
    } else if str_eq(t, "esoda") {
        Some(Kind::Esoda)
    } else if str_eq(t, "anorgana") {
        Some(Kind::Anorgana)
    } else {
        None
    }
}

/// The position of a family in the colour tables; `Other` has none.
pub open spec fn kind_slot(k: Kind) -> Option<usize> {
    match k {
        Kind::Pagia => Some(0usize),
        Kind::Apothemata => Some(1usize),
        Kind::Apaitiseis => Some(2usize),
        Kind::Kefalaio => Some(3usize),
        Kind::Ypoxreoseis => Some(4usize),
        Kind::Fpa => Some(5usize),
        Kind::Ejoda => Some(6usize),
        Kind::Esoda => Some(7usize),
        Kind::Anorgana => Some(8usize),
        Kind::Other => None,
    }
}

impl Kind {
    /// The family of an account from all its categories: the most specific
    /// (the last in chart order) wins.
    pub fn from_types(types: &[String]) -> (r: Kind)
        ensures
            r == kind_of_types(types@.map_values(|s: String| s@)),
    {
        let ghost tv = types@.map_values(|s: String| s@);
        let mut kind = Kind::Other;
        let mut i: usize = 0;
        proof {
            assert(tv.take(0) =~= Seq::<Seq<char>>::empty());
        }
        while i < types.len()
            invariant
                i <= types@.len(),
                tv == types@.map_values(|s: String| s@),
                kind == kind_of_types(tv.take(i as int)),
            decreases types@.len() - i,
        {
            proof {
                assert(tv.take(i + 1).drop_last() =~= tv.take(i as int));
                assert(tv.take(i + 1).last() == types@[i as int]@);
            }
            kind = match kind_of_type_exec(types[i].as_str()) {
                Some(k) => k,
                None => kind,
            };
            i = i + 1;
        }
        assert(tv.take(types@.len() as int) =~= tv);
        kind
    }

    /// Position in the colour tables; `Other` has no colour of its own.
    pub fn slot(self) -> (r: Option<usize>)
        ensures
            r == kind_slot(self),
    {
        match self {
            Kind::Pagia => Some(0),
            Kind::Apothemata => Some(1),
            Kind::Apaitiseis => Some(2),
            Kind::Kefalaio => Some(3),
            Kind::Ypoxreoseis => Some(4),
            Kind::Fpa => Some(5),
            Kind::Ejoda => Some(6),
            Kind::Esoda => Some(7),
            Kind::Anorgana => Some(8),
            Kind::Other => None,
        }
    }
}

/// The name shown for a family.
pub open spec fn kind_name(k: Kind) -> Seq<char> {
    match k {
        Kind::Pagia => "Πάγια"@,
        Kind::Apothemata => "Αποθέματα"@,
        Kind::Apaitiseis => "Απαιτήσεις"@,
        Kind::Kefalaio => "Κεφάλαιο"@,
        Kind::Ypoxreoseis => "Υποχρεώσεις"@,
        Kind::Fpa => "ΦΠΑ"@,
        Kind::Ejoda => "Έξοδα"@,
        Kind::Esoda => "Έσοδα"@,
        Kind::Anorgana => "Ανόργανα"@,
        Kind::Other => "Λοιπά"@,
    }
}

/// The name shown for a family of accounts.
pub fn kind_label(kind: Kind) -> (r: &'static str)
    ensures
        r@ == kind_name(kind),
{
    match kind {
        Kind::Pagia => "Πάγια",
        Kind::Apothemata => "Αποθέματα",
        Kind::Apaitiseis => "Απαιτήσεις",
        Kind::Kefalaio => "Κεφάλαιο",
        Kind::Ypoxreoseis => "Υποχρεώσεις",
        Kind::Fpa => "ΦΠΑ",
        Kind::Ejoda => "Έξοδα",
        Kind::Esoda => "Έσοδα",
        Kind::Anorgana => "Ανόργανα",
        Kind::Other => "Λοιπά",
    }
}

/// Toolbar glyphs.
#[derive(Clone, Copy, PartialEq, Eq, Debug, Structural)]
pub enum ToolIcon {
    OpenFolder,
    CheckCircle,
    BarChart,
}

/// The buttons of a window's title bar.
#[derive(Clone, Copy, PartialEq, Eq, Debug, Structural)]
pub enum WinBtn {
    Minimize,
    Maximize,
    Restore,
    Close,
}

/// The periods a chart groups its series by.
#[derive(Clone, Copy, PartialEq, Eq, Debug, Structural)]
pub enum Period {
    Minas,
    Trimino,
    Ejamino,
    Etos,
}

/// The part of a period key that comes after its first two bytes.
pub open spec fn key_tail(key: Seq<char>) -> Seq<char> {
    key.skip(byte_prefix(key, 2)->0.len() as int)
}

/// Where `period_label` slices the key, two bytes must end on a character.
pub open spec fn period_key_ok(period: Period, key: Seq<char>) -> bool {
    let n = utf8_len(key);
    ((period == Period::Minas && n == 4) || ((period == Period::Trimino || period == Period::Ejamino) && n == 3))
        ==> byte_prefix(key, 2) is Some
}

/// The label of a period key: "2404" -> "04/24" for months, "244" ->
/// "Τ4/24" for quarters and "Ε4/24" for half years; a year key, or a key of
/// another length, as it is.
pub open spec fn period_text(period: Period, key: Seq<char>) -> Seq<char> {
    let n = utf8_len(key);
    let head = byte_prefix(key, 2)->0;
    if period == Period::Minas && n == 4 {
        key_tail(key) + seq!['/'] + head
    } else if period == Period::Trimino && n == 3 {
        seq!['Τ'] + key_tail(key) + seq!['/'] + head
    } else if period == Period::Ejamino && n == 3 {
        seq!['Ε'] + key_tail(key) + seq!['/'] + head
    } else {
        key
    }
}

/// Whether the text takes exactly `n` bytes in UTF-8.
fn utf8_len_is(s: &[char], n: usize) -> (b: bool)
    requires
        n <= 8,
    ensures
        b == (utf8_len(s@) == n),
{
    let mut acc: usize = 0;
    let mut i: usize = 0;
    while i < s.len()
        invariant
            i <= s@.len(),
            n <= 8,
            acc == utf8_len(s@.take(i as int)),
        decreases s@.len() - i,
    {
        proof {
            assert(s@.take(i + 1).drop_last() =~= s@.take(i as int));
            lemma_utf8_len_grows(s@, i as int);
        }
        if acc > n {
            proof {
                lemma_utf8_len_grows_to(s@, i as int);
            }
            return false;
        }
        let w: usize = crate::utils::utf8_width_of(s[i]);
        acc = acc + w;
        i = i + 1;
    }
    assert(s@.take(s@.len() as int) =~= s@);
    acc == n
}

proof fn lemma_utf8_len_grows(s: Seq<char>, i: int)
    requires
        0 <= i < s.len(),
    ensures
        utf8_len(s.take(i + 1)) == utf8_len(s.take(i)) + crate::utils::utf8_width(s[i]),
{
    assert(s.take(i + 1).drop_last() =~= s.take(i));
}

proof fn lemma_utf8_len_grows_to(s: Seq<char>, i: int)
    requires
        0 <= i <= s.len(),
    ensures
        utf8_len(s.take(i)) <= utf8_len(s),
    decreases s.len() - i,
{
    if i < s.len() {
        lemma_utf8_len_grows(s, i);
        lemma_utf8_len_grows_to(s, i + 1);
    } else {
        assert(s.take(i) =~= s);
    }
}

/// Turns a period key into the text shown on a chart's axis.
pub fn period_label(period: Period, key: &str) -> (r: String)
    requires
        period_key_ok(period, key@),
    ensures
        r@ == period_text(period, key@),
{
    let s = chars_of(key);
    let four = utf8_len_is(&s, 4);
    let three = utf8_len_is(&s, 3);
    let sliced = (period == Period::Minas && four) || ((period == Period::Trimino || period == Period::Ejamino) && three);
    if !sliced {
        return string_of(&s);
    }
    let k = match byte_prefix_len(&s, 2) {
        Some(k) => k,
        None => 0,
    };
    let head = crate::num::slice_range(&s, 0, k);
    let tail = crate::num::slice_from(&s, k);
    assert(s@.subrange(0, k as int) =~= s@.take(k as int));
    let mut v: Vec<char> = Vec::new();
    if period == Period::Trimino {
        v.push('Τ');
    } else if period == Period::Ejamino {
        v.push('Ε');
    }
    extend_chars(&mut v, &tail);
    v.push('/');
    extend_chars(&mut v, &head);
    proof {
        if period == Period::Minas {
            assert(v@ =~= key_tail(key@) + seq!['/'] + byte_prefix(key@, 2)->0);
        } else if period == Period::Trimino {
            assert(v@ =~= seq!['Τ'] + key_tail(key@) + seq!['/'] + byte_prefix(key@, 2)->0);
        } else {
            assert(v@ =~= seq!['Ε'] + key_tail(key@) + seq!['/'] + byte_prefix(key@, 2)->0);
        }
    }
    string_of(&v)
}

/// The settings the application keeps between runs: the last book folder
/// and the theme.
pub struct Settings {
    pub filename: String,
    /// Theme key; absent in files written before themes were named.
    pub theme: Option<String>,
    /// Light or dark, still written so that an older build reads it, and
    /// read when `theme` is missing.
    pub dark_mode: bool,
}

/// The theme the settings select: the one of the stored key, else Night
/// or Clean by the dark flag.
pub open spec fn settings_theme(theme: Option<Seq<char>>, dark_mode: bool) -> ThemeId {
    match theme {
        Some(k) if exists|t: ThemeId| theme_key(t) == k => choose|t: ThemeId| theme_key(t) == k,
        _ => if dark_mode {
            ThemeId::Night
        } else {
            ThemeId::Clean
        },
    }
}

impl Settings {
    /// The theme the settings select.
    pub fn theme_id(&self) -> (r: ThemeId)
        ensures
            r == settings_theme(
                match self.theme {
                    Some(k) => Some(k@),
                    None => None,
                },
                self.dark_mode,
            ),
    {
        let found = match &self.theme {
            Some(k) => ThemeId::from_key(k.as_str()),
            None => None,
        };
        match found {
            Some(t) => {
                proof {
                    lemma_theme_key_inj(t);
                }
                t
            },
            None => if self.dark_mode {
                ThemeId::Night
            } else {
                ThemeId::Clean
            },
        }
    }

    /// Selects a theme: stores its key and whether it is dark.
    pub fn set_theme(&mut self, theme: ThemeId)
        ensures
            final(self).filename == old(self).filename,
            final(self).theme matches Some(k) && k@ == theme_key(theme),
            final(self).dark_mode == theme_dark(theme),
    {
        self.theme = Some(crate::text::to_owned_string(theme.key()));
        self.dark_mode = theme.is_dark();
    }
}

/// Each key names one theme, so the theme stored under a key is found
/// again from it.
pub proof fn lemma_theme_key_inj(t: ThemeId)
    ensures
        forall|u: ThemeId| #[trigger] theme_key(u) == theme_key(t) ==> u == t,
{
    reveal_strlit("clean");
    reveal_strlit("paper");
    reveal_strlit("night");
    reveal_strlit("ocean");
    reveal_strlit("dracula");
    assert forall|u: ThemeId| #[trigger] theme_key(u) == theme_key(t) implies u == t by {
        if u != t {
            assert(theme_key(u)[0] != theme_key(t)[0] || theme_key(u).len() != theme_key(t).len() || theme_key(u)[1] != theme_key(t)[1]);
        }
    }
}

/// Settings in which a theme was selected select that theme again.
pub proof fn lemma_set_theme_then_theme_id(t: ThemeId)
    ensures
        settings_theme(Some(theme_key(t)), theme_dark(t)) == t,
{
    lemma_theme_key_inj(t);
    let k = theme_key(t);
    assert(exists|u: ThemeId| theme_key(u) == k);
    let u = choose|u: ThemeId| theme_key(u) == k;
    assert(theme_key(u) == theme_key(t));
}

} // verus!
