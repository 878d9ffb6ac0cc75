//! Greek upper-case folding, Greek number text, account names, VAT number
//! validation and year-month helpers.

use vstd::prelude::*;

use crate::num::{
    all_digits, all_digits_exec, digit_val, int_text, int_text_exec, is_digit, pad2, pad2_exec,
    parse_i32, parse_i32_spec, parse_u32, parse_u32_spec, slice_from, slice_range,
};
use crate::text::{
    chars_of, extend_chars, has_prefix, join, lemma_join_push, lemma_join_split,
    lemma_split_nonempty, replace_char, replace_char_exec, split_on, split_on_exec, starts_with,
    string_of,
};

verus! {

// ------------------------------------------------------------------ Greek text

/// Upper-case mapping of one character, as `char::to_uppercase` yields it.
pub uninterp spec fn char_upper(c: char) -> Seq<char>;

/// `char::to_uppercase`, collected. Its result is named by `char_upper`;
/// nothing more is stated of the Unicode tables it follows.
#[verifier::external_body]
fn upper_of(c: char) -> (r: Vec<char>)
    ensures
        r@ == char_upper(c),
{
    c.to_uppercase().collect()
}

/// Accented and diaeresis Greek vowels folded to their plain capitals.
pub open spec fn fold_accent(c: char) -> char {
    if c == 'Ά' || c == 'ά' {
        'Α'
    } else if c == 'Έ' || c == 'έ' {
        'Ε'
    } else if c == 'Ή' || c == 'ή' {
        'Η'
    } else if c == 'Ί' || c == 'ΐ' || c == 'Ϊ' || c == 'ί' || c == 'ϊ' {
        'Ι'
    } else if c == 'Ό' || c == 'ό' {
        'Ο'
    } else if c == 'Ύ' || c == 'Ϋ' || c == 'ΰ' || c == 'ϋ' || c == 'ύ' {
        'Υ'
    } else if c == 'Ώ' || c == 'ώ' {
        'Ω'
    } else {
        c
    }
}

/// The upper-case mappings of the characters, one after the other.
pub open spec fn upper_text(s: Seq<char>) -> Seq<char>
    decreases s.len(),
{
    if s.len() == 0 {
        Seq::empty()
    } else {
        upper_text(s.drop_last()) + char_upper(s.last())
    }
}

/// What `grup` gives: accents folded, then upper case.
pub open spec fn grup_spec(s: Seq<char>) -> Seq<char> {
    upper_text(s.map_values(|c: char| fold_accent(c)))
}

/// Texts whose characters fold to the same letters, accents and diaeresis
/// set aside (such as "ΕΝΟΊΚΙΟ" and "ΕΝΟΙΚΙΟ", or "ά" and "Α"), give the same
/// `grup` key.
pub proof fn lemma_grup_ignores_accents(s1: Seq<char>, s2: Seq<char>)
    requires
        s1.len() == s2.len(),
        forall|i: int| 0 <= i < s1.len() ==> fold_accent(#[trigger] s1[i]) == fold_accent(s2[i]),
    ensures
        grup_spec(s1) == grup_spec(s2),
{
    assert(s1.map_values(|c: char| fold_accent(c)) =~= s2.map_values(|c: char| fold_accent(c)));
}

/// The written forms of one Greek vowel: its plain capital, and the capital
/// and small letters with an accent, a diaeresis or both.
pub open spec fn vowel_forms(v: char) -> Set<char> {
    if v == 'Α' {
        set!['Α', 'Ά', 'ά']
    } else if v == 'Ε' {
        set!['Ε', 'Έ', 'έ']
    } else if v == 'Η' {
        set!['Η', 'Ή', 'ή']
    } else if v == 'Ι' {
        set!['Ι', 'Ί', 'Ϊ', 'ί', 'ϊ', 'ΐ']
    } else if v == 'Ο' {
        set!['Ο', 'Ό', 'ό']
    } else if v == 'Υ' {
        set!['Υ', 'Ύ', 'Ϋ', 'ύ', 'ϋ', 'ΰ']
    } else if v == 'Ω' {
        set!['Ω', 'Ώ', 'ώ']
    } else {
        Set::empty()
    }
}

/// Writing any form of a Greek vowel in place of another form of the same
/// vowel, anywhere in a text, leaves its `grup` key unchanged: "Δήμος",
/// "ΔΉΜΟΣ" and "ΔΗΜΟΣ" give one key.
pub proof fn lemma_grup_vowel_forms(s: Seq<char>, i: int, v: char, a: char, b: char)
    requires
        0 <= i < s.len(),
        vowel_forms(v).contains(a),
        vowel_forms(v).contains(b),
    ensures
        grup_spec(s.update(i, a)) == grup_spec(s.update(i, b)),
{
    assert(fold_accent(a) == v);
    assert(fold_accent(b) == v);
    let s1 = s.update(i, a);
    let s2 = s.update(i, b);
    assert forall|j: int| 0 <= j < s1.len() implies fold_accent(#[trigger] s1[j]) == fold_accent(s2[j]) by {
        if j != i {
            assert(s1[j] == s2[j]);
        }
    }
    lemma_grup_ignores_accents(s1, s2);
}

fn fold_accent_exec(c: char) -> (r: char)
    ensures
        r == fold_accent(c),
{
    match c {
        'Ά' | 'ά' => 'Α',
        'Έ' | 'έ' => 'Ε',
        'Ή' | 'ή' => 'Η',
        'Ί' | 'ΐ' | 'Ϊ' | 'ί' | 'ϊ' => 'Ι',
        'Ό' | 'ό' => 'Ο',
        'Ύ' | 'Ϋ' | 'ΰ' | 'ϋ' | 'ύ' => 'Υ',
        'Ώ' | 'ώ' => 'Ω',
        _ => c,
    }
}

/// Upper case for Greek comparison: accented vowels lose their accents, then
/// every character takes its upper-case mapping.
pub fn grup(txtval: &str) -> (r: String)
    ensures
        r@ == grup_spec(txtval@),
{
    let s = chars_of(txtval);
    let ghost folded = s@.map_values(|c: char| fold_accent(c));
    let mut out: Vec<char> = Vec::new();
    let mut i: usize = 0;
    while i < s.len()
        invariant
            i <= s.len(),
            folded == s@.map_values(|c: char| fold_accent(c)),
            out@ == upper_text(folded.take(i as int)),
        decreases s.len() - i,
    {
        let up = upper_of(fold_accent_exec(s[i]));
        extend_chars(&mut out, &up);
        proof {
            assert(folded.take(i + 1).drop_last() =~= folded.take(i as int));
            assert(folded.take(i + 1).last() == fold_accent(s@[i as int]));
        }
        i = i + 1;
    }
    assert(folded.take(s.len() as int) =~= folded);
    string_of(&out)
}

// ------------------------------------------------------------------ numbers

/// Greek number text with the thousands dots dropped and the decimal comma
/// turned into a point.
pub open spec fn gr2strdec_spec(s: Seq<char>) -> Seq<char> {
    replace_char(replace_char(s, '.', Seq::empty()), ',', seq!['.'])
}

/// Greek number text ("1.234,56") to plain decimal text ("1234.56").
pub fn gr2strdec(greek_number: &str) -> (r: String)
    ensures
        r@ == gr2strdec_spec(greek_number@),
{
    let s = chars_of(greek_number);
    let empty: Vec<char> = Vec::new();
    let no_dots = replace_char_exec(&s, '.', &empty);
    let mut point: Vec<char> = Vec::new();
    point.push('.');
    let t = replace_char_exec(&no_dots, ',', &point);
    proof {
        assert(point@ =~= seq!['.']);
        assert(empty@ =~= Seq::<char>::empty());
    }
    string_of(&t)
}

// ------------------------------------------------------------------ accounts

/// One dot-separated level with its first character in upper case.
pub open spec fn capitalize(part: Seq<char>) -> Seq<char> {
    if part.len() == 0 {
        Seq::empty()
    } else {
        char_upper(part[0]) + part.drop_first()
    }
}

/// What `fix_account` gives.
pub open spec fn fix_account_spec(account: Seq<char>, separator: Seq<char>) -> Seq<char> {
    join(split_on(account, seq!['.']).map_values(|p: Seq<char>| capitalize(p)), separator)
}

/// Capitalize every dot-separated level of an account name and join the
/// levels with `separator`.
pub fn fix_account(account: &str, separator: &str) -> (r: String)
    ensures
        r@ == fix_account_spec(account@, separator@),
{
    let s = chars_of(account);
    let sep = chars_of(separator);
    let mut dot: Vec<char> = Vec::new();
    dot.push('.');
    assert(dot@ =~= seq!['.']);
    let parts = split_on_exec(&s, &dot);
    let ghost sp = split_on(s@, seq!['.']);
    let ghost caps = sp.map_values(|p: Seq<char>| capitalize(p));
    proof {
        lemma_split_nonempty(s@, seq!['.']);
    }
    let mut out: Vec<char> = capitalize_exec(&parts[0]);
    let mut i: usize = 1;
    proof {
        assert(caps.take(1) =~= seq![caps[0]]);
    }
    while i < parts.len()
        invariant
            1 <= i <= parts.len(),
            parts@.len() == sp.len(),
            forall|k: int| 0 <= k < parts@.len() ==> #[trigger] parts@[k]@ == sp[k],
            caps == sp.map_values(|p: Seq<char>| capitalize(p)),
            sep@ == separator@,
            out@ == join(caps.take(i as int), sep@),
        decreases parts.len() - i,
    {
        let c = capitalize_exec(&parts[i]);
        extend_chars(&mut out, &sep);
        extend_chars(&mut out, &c);
        proof {
            assert(caps.take(i + 1) =~= caps.take(i as int).push(caps[i as int]));
            lemma_join_push(caps.take(i as int), caps[i as int], sep@);
        }
        i = i + 1;
    }
    assert(caps.take(parts.len() as int) =~= caps);
    string_of(&out)
}

fn capitalize_exec(part: &Vec<char>) -> (r: Vec<char>)
    ensures
        r@ == capitalize(part@),
{
    if part.len() == 0 {
        return Vec::new();
    }
    let mut r = upper_of(part[0]);
    let rest = slice_from(part, 1);
    extend_chars(&mut r, &rest);
    assert(part@.skip(1) =~= part@.drop_first());
    r
}

/// The weighted sum of the first eight digits of a VAT number.
pub open spec fn afm_weighted(s: Seq<char>) -> nat {
    digit_val(s[0]) * 256 + digit_val(s[1]) * 128 + digit_val(s[2]) * 64 + digit_val(s[3]) * 32
        + digit_val(s[4]) * 16 + digit_val(s[5]) * 8 + digit_val(s[6]) * 4 + digit_val(s[7]) * 2
}

/// A valid Greek VAT number: nine digits, not starting with five zeros, whose
/// check digit is the weighted sum modulo 11, modulo 10.
pub open spec fn afm_valid(s: Seq<char>) -> bool {
    &&& s.len() == 9
    &&& all_digits(s)
    &&& !has_prefix(s, seq!['0', '0', '0', '0', '0'])
    &&& (afm_weighted(s) % 11) % 10 == digit_val(s[8])
}

/// Algorithmic validation of Greek VAT numbers.
pub fn is_afm(a: &str) -> (b: bool)
    ensures
        b == afm_valid(a@),
{
    let s = chars_of(a);
    let zeros: Vec<char> = vec!['0', '0', '0', '0', '0'];
    assert(zeros@ =~= seq!['0', '0', '0', '0', '0']);
    if starts_with(&s, &zeros) || s.len() != 9 || !all_digits_exec(&s) {
        return false;
    }
    let mut d: Vec<u32> = Vec::new();
    let mut i: usize = 0;
    while i < 9
        invariant
            s@.len() == 9,
            all_digits(s@),
            i <= 9,
            d@.len() == i,
            forall|k: int| 0 <= k < i ==> #[trigger] d@[k] == digit_val(s@[k]),
            forall|k: int| 0 <= k < i ==> #[trigger] d@[k] <= 9,
        decreases 9 - i,
    {
        let c = s[i];
        assert(is_digit(s@[i as int]));
        assert(48 <= (c as u32) <= 57);
        d.push(c as u32 - 48);
        i = i + 1;
    }
    let (d0, d1, d2, d3, d4, d5, d6, d7, d8) = (d[0], d[1], d[2], d[3], d[4], d[5], d[6], d[7], d[8]);
    assert(d0 <= 9 && d1 <= 9 && d2 <= 9 && d3 <= 9 && d4 <= 9 && d5 <= 9 && d6 <= 9 && d7 <= 9);
    let b = d0 * 256 + d1 * 128 + d2 * 64 + d3 * 32 + d4 * 16 + d5 * 8 + d6 * 4 + d7 * 2;
    assert(b == afm_weighted(s@));
    let c = b % 11;
    let dd = c % 10;
    dd == d8
}

/// The hierarchical levels of an account name: the first part, the first two
/// parts joined, and so on up to the whole name.
pub open spec fn tree_levels(account: Seq<char>, splitter: Seq<char>) -> Seq<Seq<char>> {
    let parts = split_on(account, splitter);
    Seq::new(parts.len(), |i: int| join(parts.take(i + 1), splitter))
}

/// What `account_tree` gives.
pub open spec fn account_tree_spec(account: Seq<char>, reversed: bool, splitter: Seq<char>) -> Seq<
    Seq<char>,
> {
    if reversed {
        tree_levels(account, splitter).reverse()
    } else {
        tree_levels(account, splitter)
    }
}

/// Hierarchical prefixes of an account name: "a.b.c" -> ["a", "a.b", "a.b.c"].
pub fn account_tree(account: &str, reversed: bool, splitter: &str) -> (r: Vec<String>)
    ensures
        r@.len() == account_tree_spec(account@, reversed, splitter@).len(),
        forall|i: int|
            0 <= i < r@.len() ==> #[trigger] r@[i]@ == account_tree_spec(
                account@,
                reversed,
                splitter@,
            )[i],
{
    let s = chars_of(account);
    let sep = chars_of(splitter);
    let parts = split_on_exec(&s, &sep);
    let ghost sp = split_on(s@, sep@);
    let ghost lv = tree_levels(s@, sep@);
    proof {
        lemma_split_nonempty(s@, sep@);
        assert(sp.take(1) =~= seq![sp[0]]);
    }
    let mut levels: Vec<String> = Vec::new();
    let mut cur: Vec<char> = slice_from(&parts[0], 0);
    assert(parts@[0]@.skip(0) =~= parts@[0]@);
    levels.push(string_of(&cur));
    let mut i: usize = 1;
    while i < parts.len()
        invariant
            1 <= i <= parts.len(),
            parts@.len() == sp.len(),
            forall|k: int| 0 <= k < parts@.len() ==> #[trigger] parts@[k]@ == sp[k],
            lv == tree_levels(s@, sep@),
            sp == split_on(s@, sep@),
            cur@ == join(sp.take(i as int), sep@),
            levels@.len() == i,
            forall|k: int| 0 <= k < i ==> #[trigger] levels@[k]@ == lv[k],
        decreases parts.len() - i,
    {
        extend_chars(&mut cur, &sep);
        extend_chars(&mut cur, &parts[i]);
        proof {
            assert(sp.take(i + 1) =~= sp.take(i as int).push(sp[i as int]));
            lemma_join_push(sp.take(i as int), sp[i as int], sep@);
        }
        levels.push(string_of(&cur));
        i = i + 1;
    }
    if !reversed {
        return levels;
    }
    let mut rev: Vec<String> = Vec::new();
    let mut k: usize = levels.len();
    while k > 0
        invariant
            k <= levels@.len(),
            levels@.len() == lv.len(),
            forall|j: int| 0 <= j < levels@.len() ==> #[trigger] levels@[j]@ == lv[j],
            rev@.len() == levels@.len() - k,
            forall|j: int| 0 <= j < rev@.len() ==> #[trigger] rev@[j]@ == lv[lv.len() - 1 - j],
        decreases k,
    {
        k = k - 1;
        let t = levels[k].clone();
        rev.push(t);
    }
    rev
}

/// The whole account name is the last level of its tree.
pub proof fn lemma_tree_ends_with_account(account: Seq<char>, splitter: Seq<char>)
    ensures
        tree_levels(account, splitter).len() >= 1,
        tree_levels(account, splitter).last() == account,
{
    let parts = split_on(account, splitter);
    lemma_split_nonempty(account, splitter);
    lemma_join_split(account, splitter);
    assert(parts.take(parts.len() as int) =~= parts);
}

// ------------------------------------------------------------------ year-month

/// Bytes taken by a character in UTF-8.
pub open spec fn utf8_width(c: char) -> nat {
    let n = c as u32;
    if n < 0x80 {
        1
    } else if n < 0x800 {
        2
    } else if n < 0x10000 {
        3
    } else {
        4
    }
}

/// The characters whose UTF-8 encoding is exactly the first `n` bytes of the
/// encoding of `s`; `None` when `n` is past the end or inside a character.
/// This is what slicing a `str` with `..n` needs.
pub open spec fn byte_prefix(s: Seq<char>, n: nat) -> Option<Seq<char>>
    decreases s.len(),
{
    if n == 0 {
        Some(Seq::empty())
    } else if s.len() == 0 {
        None
    } else if utf8_width(s[0]) > n {
        None
    } else {
        match byte_prefix(s.drop_first(), (n - utf8_width(s[0])) as nat) {
            Some(t) => Some(seq![s[0]] + t),
            None => None,
        }
    }
}

pub fn utf8_width_of(c: char) -> (w: usize)
    ensures
        w == utf8_width(c),
{
    let n = c as u32;
    if n < 0x80 {
        1
    } else if n < 0x800 {
        2
    } else if n < 0x10000 {
        3
    } else {
        4
    }
}

/// How many characters make up the first `n` bytes of `s`, if `n` falls on a
/// character boundary.
pub fn byte_prefix_len(s: &[char], n: usize) -> (r: Option<usize>)
    ensures
        r matches Some(k) ==> k <= s.len() && byte_prefix(s@, n as nat) == Some(s@.take(k as int)),
        r is None ==> byte_prefix(s@, n as nat) is None,
{
    let mut i: usize = 0;
    let mut acc: usize = 0;
    proof {
        assert(s@.skip(0) =~= s@);
        assert(Seq::<char>::empty() + s@ =~= s@);
    }
    while acc < n
        invariant
            i <= s.len(),
            acc <= n,
            byte_prefix(s@, n as nat) == (match byte_prefix(s@.skip(i as int), (n - acc) as nat) {
                Some(t) => Some(s@.take(i as int) + t),
                None => None,
            }),
        decreases n - acc,
    {
        let ghost rest = s@.skip(i as int);
        if i == s.len() {
            return None;
        }
        let w = utf8_width_of(s[i]);
        if w > n - acc {
            return None;
        }
        proof {
            assert(rest.drop_first() =~= s@.skip(i + 1));
            assert(rest[0] == s@[i as int]);
            assert forall|t: Seq<char>| true implies s@.take(i as int) + (seq![rest[0]] + t)
                =~= s@.take(i + 1) + t by {}
        }
        acc = acc + w;
        i = i + 1;
    }
    proof {
        assert(s@.take(i as int) + Seq::<char>::empty() =~= s@.take(i as int));
    }
    Some(i)
}

/// What `isodate2ym` gives: the first six bytes of the date with its dashes
/// removed, or nothing when those bytes do not end on a character.
pub open spec fn isodate2ym_spec(isodate: Seq<char>) -> Seq<char> {
    match byte_prefix(replace_char(isodate, '-', Seq::empty()), 6) {
        Some(t) => t,
        None => Seq::empty(),
    }
}

/// "2023-05-17" -> "202305"
pub fn isodate2ym(isodate: &str) -> (r: String)
    ensures
        r@ == isodate2ym_spec(isodate@),
{
    let s = chars_of(isodate);
    let empty: Vec<char> = Vec::new();
    assert(empty@ =~= Seq::<char>::empty());
    let t = replace_char_exec(&s, '-', &empty);
    match byte_prefix_len(&t, 6) {
        Some(k) => {
            let p = slice_range(&t, 0, k);
            assert(t@.subrange(0, k as int) =~= t@.take(k as int));
            string_of(&p)
        },
        None => String::new(),
    }
}

/// A year-month as `months_between` writes it: the year, then the month on two digits.
pub open spec fn ym_text(y: int, m: int) -> Seq<char> {
    int_text(y) + pad2(m as nat)
}

/// Whether month slot (`y`, `m`) lies inside the requested span.
pub open spec fn month_included(yapo: int, mapo: int, yeos: int, meos: int, y: int, m: int) -> bool {
    !(y == yapo && m < mapo) && !(y == yeos && m > meos)
}

/// The year and month of slot `j`, counting twelve slots a year from January of `yapo`.
pub open spec fn month_slot(yapo: int, j: int) -> (int, int) {
    (yapo + j / 12, j % 12 + 1)
}

/// The included months among the first `n` slots.
pub open spec fn months_upto(yapo: int, mapo: int, yeos: int, meos: int, n: nat) -> Seq<(int, int)>
    decreases n,
{
    if n == 0 {
        Seq::empty()
    } else {
        let (y, m) = month_slot(yapo, n - 1);
        months_upto(yapo, mapo, yeos, meos, (n - 1) as nat) + (if month_included(
            yapo,
            mapo,
            yeos,
            meos,
            y,
            m,
        ) {
            seq![(y, m)]
        } else {
            Seq::empty()
        })
    }
}

/// Every (year, month) from `yapo` to `yeos`, months 1 to 12, leaving out the
/// months of `yapo` before `mapo` and those of `yeos` after `meos`.
pub open spec fn months_between_spec(yapo: int, mapo: int, yeos: int, meos: int) -> Seq<(int, int)> {
    if yapo > yeos {
        Seq::empty()
    } else {
        months_upto(yapo, mapo, yeos, meos, (12 * (yeos - yapo + 1)) as nat)
    }
}

/// All "YYYYMM" strings between year/month ranges inclusive.
pub fn months_between(yapo: i32, mapo: u32, yeos: i32, meos: u32) -> (r: Vec<String>)
    ensures
        r@.len() == months_between_spec(yapo as int, mapo as int, yeos as int, meos as int).len(),
        forall|i: int|
            0 <= i < r@.len() ==> #[trigger] r@[i]@ == ym_text(
                months_between_spec(yapo as int, mapo as int, yeos as int, meos as int)[i].0,
                months_between_spec(yapo as int, mapo as int, yeos as int, meos as int)[i].1,
            ),
{
    let mut flist: Vec<String> = Vec::new();
    if yapo > yeos {
        return flist;
    }
    let total: u64 = 12 * ((yeos as i64 - yapo as i64 + 1) as u64);
    let mut j: u64 = 0;
    let ghost mut seqv: Seq<(int, int)> = Seq::empty();
    while j < total
        invariant
            yapo <= yeos,
            total == 12 * (yeos - yapo + 1),
            j <= total,
            seqv == months_upto(yapo as int, mapo as int, yeos as int, meos as int, j as nat),
            flist@.len() == seqv.len(),
            forall|i: int| 0 <= i < flist@.len() ==> #[trigger] flist@[i]@ == ym_text(seqv[i].0, seqv[i].1),
        decreases total - j,
    {
        let y: i64 = yapo as i64 + (j / 12) as i64;
        let m: u32 = (j % 12) as u32 + 1;
        let inc = !(y == yapo as i64 && m < mapo) && !(y == yeos as i64 && m > meos);
        proof {
            assert(y == yapo + (j as int) / 12);
        }
        if inc {
            let mut t = int_text_exec(y as i128);
            let p = pad2_exec(m as u128);
            extend_chars(&mut t, &p);
            flist.push(string_of(&t));
            proof {
                seqv = seqv.push((y as int, m as int));
            }
        }
        j = j + 1;
        proof {
            let prev = months_upto(yapo as int, mapo as int, yeos as int, meos as int, (j - 1) as nat);
            assert(month_slot(yapo as int, j - 1) == (y as int, m as int));
            if inc {
                assert(seqv =~= prev + seq![(y as int, m as int)]);
            } else {
                assert(seqv =~= prev + Seq::<(int, int)>::empty());
            }
        }
    }
    flist
}

/// What `months_between_ym` reads from a "YYYYMM" text: the year from its
/// first four bytes (0 when they are not a number) and the month from the rest
/// (1 when it is not a number).
pub open spec fn ym_parts(ym: Seq<char>) -> (int, int) {
    let head = byte_prefix(ym, 4)->0;
    let tail = ym.skip(head.len() as int);
    let y = match parse_i32_spec(head) {
        Some(v) => v as int,
        None => 0,
    };
    let m = match parse_u32_spec(tail) {
        Some(v) => v as int,
        None => 1,
    };
    (y, m)
}

/// All "YYYYMM" strings between two "YYYYMM" strings inclusive.
pub fn months_between_ym(ymapo: &str, ymeos: &str) -> (r: Vec<String>)
    requires
        byte_prefix(ymapo@, 4) is Some,
        byte_prefix(ymeos@, 4) is Some,
    ensures
        ({
            let (yapo, mapo) = ym_parts(ymapo@);
            let (yeos, meos) = ym_parts(ymeos@);
            let ms = months_between_spec(yapo, mapo, yeos, meos);
            &&& r@.len() == ms.len()
            &&& forall|i: int| 0 <= i < r@.len() ==> #[trigger] r@[i]@ == ym_text(ms[i].0, ms[i].1)
        }),
{
    let (yapo, mapo) = read_ym(ymapo);
    let (yeos, meos) = read_ym(ymeos);
    months_between(yapo, mapo, yeos, meos)
}

fn read_ym(ym: &str) -> (r: (i32, u32))
    requires
        byte_prefix(ym@, 4) is Some,
    ensures
        r.0 as int == ym_parts(ym@).0,
        r.1 as int == ym_parts(ym@).1,
{
    let s = chars_of(ym);
    let k = match byte_prefix_len(&s, 4) {
        Some(k) => k,
        None => 0,
    };
    let head = slice_range(&s, 0, k);
    let tail = slice_from(&s, k);
    assert(s@.subrange(0, k as int) =~= s@.take(k as int));
    let y = match parse_i32(&head) {
        Some(v) => v,
        None => 0,
    };
    let m = match parse_u32(&tail) {
        Some(v) => v,
        None => 1,
    };
    (y, m)
}

} // verus!
