//! The text of a book folder: the `000` metadata file and the journals.
//!
//! A journal's first line is `j-open`, `j-normal` or `j-close`. Header lines
//! start with an ISO date, detail lines with two spaces; values are Greek
//! numbers, `#` starts a comment and `@` opens a balance-check line.

use vstd::prelude::*;

use crate::num::{is_digit, is_ascii_digit, slice_range, slice_from};
use crate::text::{
    chars_eq, chars_of, extend_chars, find_char, find_char_exec, has_prefix, is_whitespace, is_ws, join,
    lemma_join_push, lemma_split_nonempty, split_on, split_on_exec, split_words, string_of, trim,
    trim_chars, words,
};
use crate::utils::utf8_width;

verus! {

/// The name of the metadata file of a book folder.
pub const BOOK_METADATA_FILE: &'static str = "000";

// ------------------------------------------------------------------ lines

/// `p` without one trailing carriage return.
pub open spec fn strip_cr(p: Seq<char>) -> Seq<char> {
    if p.len() > 0 && p.last() == '\r' {
        p.drop_last()
    } else {
        p
    }
}

/// The lines of a text as `str::lines` yields them: split at `\n`, a `\r`
/// before a `\n` dropped, and no empty line after a final `\n`.
pub open spec fn text_lines(s: Seq<char>) -> Seq<Seq<char>> {
    let parts = split_on(s, seq!['\n']);
    let n: int = if parts.last().len() == 0 {
        parts.len() - 1
    } else {
        parts.len() as int
    };
    Seq::new(
        n as nat,
        |i: int|
            if i < parts.len() - 1 {
                strip_cr(parts[i])
            } else {
                parts[i]
            },
    )
}

/// The lines of a text (`str::lines`).
pub fn text_lines_exec(s: &str) -> (r: Vec<Vec<char>>)
    ensures
        r@.len() == text_lines(s@).len(),
        forall|i: int| 0 <= i < r@.len() ==> #[trigger] r@[i]@ == text_lines(s@)[i],
{
    let cs = chars_of(s);
    let mut nl: Vec<char> = Vec::new();
    nl.push('\n');
    let parts = split_on_exec(&cs, &nl);
    let ghost sp = split_on(s@, seq!['\n']);
    proof {
        assert(nl@ =~= seq!['\n']);
        lemma_split_nonempty(s@, seq!['\n']);
    }
    let last = parts.len() - 1;
    let n = if parts[last].len() == 0 {
        last
    } else {
        parts.len()
    };
    let mut r: Vec<Vec<char>> = Vec::new();
    let mut i: usize = 0;
    while i < n
        invariant
            i <= n <= parts@.len(),
            last == parts@.len() - 1,
            parts@.len() == sp.len(),
            sp == split_on(s@, seq!['\n']),
            forall|k: int| 0 <= k < parts@.len() ==> #[trigger] parts@[k]@ == sp[k],
            n == text_lines(s@).len(),
            r@.len() == i,
            forall|k: int| 0 <= k < i ==> #[trigger] r@[k]@ == text_lines(s@)[k],
        decreases n - i,
    {
        let p = &parts[i];
        if i < last && p.len() > 0 && p[p.len() - 1] == '\r' {
            let q = slice_range(p, 0, p.len() - 1);
            assert(q@ =~= p@.drop_last());
            r.push(q);
        } else {
            let q = slice_from(p, 0);
            assert(q@ =~= p@);
            r.push(q);
        }
        i = i + 1;
    }
    r
}

// ------------------------------------------------------------------ line shapes

/// Bytes taken by the text in UTF-8.
pub open spec fn utf8_len(s: Seq<char>) -> nat
    decreases s.len(),
{
    if s.len() == 0 {
        0
    } else {
        utf8_len(s.drop_last()) + utf8_width(s.last())
    }
}

/// A line that is skipped: shorter than four bytes once trimmed, or a comment.
pub open spec fn ignore_spec(row: Seq<char>) -> bool {
    utf8_len(trim(row)) < 4 || has_prefix(trim(row), seq!['#'])
}

/// The line begins with the shape `dddd-dd-dd` (whether or not it is a
/// real date). Over bytes or over characters this is the same test, since
/// the shape is made of ASCII characters only.
pub open spec fn iso_shape(s: Seq<char>) -> bool {
    s.len() >= 10 && forall|k: int|
        0 <= k < 10 ==> if k == 4 || k == 7 {
            #[trigger] s[k] == '-'
        } else {
            is_digit(s[k])
        }
}

/// Two spaces followed by at least one more character.
pub open spec fn two_spaces(s: Seq<char>) -> bool {
    s.len() >= 3 && s[0] == ' ' && s[1] == ' '
}

fn utf8_width_of(c: char) -> (w: usize)
    ensures
        w == utf8_width(c),
{
    let n = c as u32;
    if n < 0x80 {
        1
    } else if n < 0x800 {
        2
    } else if n < 0x10000 {
        3
    } else {
        4
    }
}

/// Whether a line is skipped: shorter than four bytes once trimmed, or a
/// comment line.
pub fn is_line_to_ignore(row_line: &str) -> (b: bool)
    ensures
        b == ignore_spec(row_line@),
{
    let line = trim_chars(&chars_of(row_line));
    let mut len: usize = 0;
    let mut i: usize = 0;
    while i < line.len() && len < 4
        invariant
            i <= line@.len(),
            len == utf8_len(line@.take(i as int)),
        decreases line@.len() - i,
    {
        proof {
            assert(line@.take(i + 1).drop_last() =~= line@.take(i as int));
        }
        len = len + utf8_width_of(line[i]);
        i = i + 1;
    }
    proof {
        lemma_utf8_len_prefix(line@, i as int);
        if i == line.len() {
            assert(line@.take(i as int) =~= line@);
        }
        if line@.len() > 0 {
            if line@[0] == '#' {
                assert(line@.take(1) =~= seq!['#']);
            } else {
                assert(line@.take(1)[0] == line@[0]);
            }
        }
    }
    len < 4 || (line.len() > 0 && line[0] == '#')
}

proof fn lemma_utf8_len_prefix(s: Seq<char>, i: int)
    requires
        0 <= i <= s.len(),
    ensures
        utf8_len(s.take(i)) <= utf8_len(s),
    decreases s.len() - i,
{
    if i < s.len() {
        lemma_utf8_len_prefix(s, i + 1);
        assert(s.take(i + 1).drop_last() =~= s.take(i));
    } else {
        assert(s.take(i) =~= s);
    }
}

/// Whether a line begins with the shape `dddd-dd-dd`; `2022-13-45` passes,
/// so that a bad date is reported rather than taken for another kind of line.
pub fn starts_with_iso_date(line: &str) -> (b: bool)
    ensures
        b == iso_shape(line@),
{
    let s = chars_of(line);
    if s.len() < 10 {
        return false;
    }
    let mut k: usize = 0;
    while k < 10
        invariant
            k <= 10 <= s@.len(),
            s@ == line@,
            forall|j: int| 0 <= j < k ==> if j == 4 || j == 7 {
                #[trigger] s@[j] == '-'
            } else {
                is_digit(s@[j])
            },
        decreases 10 - k,
    {
        let ok = if k == 4 || k == 7 {
            s[k] == '-'
        } else {
            is_ascii_digit(s[k])
        };
        if !ok {
            proof {
                let kk = k as int;
                assert(!(if kk == 4 || kk == 7 {
                    s@[kk] == '-'
                } else {
                    is_digit(s@[kk])
                }));
                if iso_shape(s@) {
                    assert(0 <= kk < 10);
                    assert(if kk == 4 || kk == 7 {
                        s@[kk] == '-'
                    } else {
                        is_digit(s@[kk])
                    });
                }
                assert(!iso_shape(s@));
            }
            return false;
        }
        k = k + 1;
    }
    true
}

/// Whether a line begins with two spaces and has something after them.
pub fn starts_with_two_spaces(line: &str) -> (b: bool)
    ensures
        b == two_spaces(line@),
{
    let s = chars_of(line);
    s.len() >= 3 && s[0] == ' ' && s[1] == ' '
}

// ------------------------------------------------------------------ header lines

/// The text between the first `{` and the first `}`, when the `}` comes later.
pub open spec fn braces(s: Seq<char>) -> Option<Seq<char>> {
    match (find_char(s, '{'), find_char(s, '}')) {
        (Some(a), Some(b)) => if b > a {
            Some(s.subrange(a + 1, b))
        } else {
            None
        },
        _ => None,
    }
}

fn braces_chars(s: &[char]) -> (r: Option<Vec<char>>)
    ensures
        r matches Some(t) ==> braces(s@) == Some(t@),
        r is None ==> braces(s@) is None,
{
    match (find_char_exec(s, '{'), find_char_exec(s, '}')) {
        (Some(a), Some(b)) => if b > a {
            Some(slice_range(s, a + 1, b))
        } else {
            None
        },
        _ => None,
    }
}

/// The text between the first `{` and the first `}` of a line, if the `}`
/// comes after the `{`.
pub fn extract_braces(line: &str) -> (r: Option<String>)
    ensures
        r matches Some(t) ==> braces(line@) == Some(t@),
        r is None ==> braces(line@) is None,
{
    match braces_chars(&chars_of(line)) {
        Some(t) => Some(string_of(&t)),
        None => None,
    }
}

/// Index of the first whitespace character.
pub open spec fn first_ws(s: Seq<char>) -> Option<int>
    decreases s.len(),
{
    if s.len() == 0 {
        None
    } else if is_ws(s[0]) {
        Some(0)
    } else {
        match first_ws(s.drop_first()) {
            Some(i) => Some(i + 1),
            None => None,
        }
    }
}

/// What a header line holds: its date text, its description without the
/// document part, and the document number written in braces.
pub open spec fn header_parts(line: Seq<char>) -> (Seq<char>, Seq<char>, Seq<char>) {
    let first = match first_ws(line) {
        Some(k) => line.take(k),
        None => line,
    };
    let rest = match first_ws(line) {
        Some(k) => line.skip(k + 1),
        None => Seq::<char>::empty(),
    };
    let par = braces(rest);
    let fper = match par {
        Some(p) => join(split_on(rest, seq!['{'] + p + seq!['}']), Seq::empty()),
        None => rest,
    };
    let p = match par {
        Some(p) => p,
        None => Seq::<char>::empty(),
    };
    (trim(first), trim(fper), trim(p))
}

proof fn lemma_first_ws_at(s: Seq<char>, k: int)
    requires
        0 <= k <= s.len(),
        forall|j: int| 0 <= j < k ==> !is_ws(#[trigger] s[j]),
        k < s.len() ==> is_ws(s[k]),
    ensures
        first_ws(s) == (if k < s.len() {
            Some(k)
        } else {
            None::<int>
        }),
    decreases k,
{
    if k > 0 {
        let t = s.drop_first();
        assert forall|j: int| 0 <= j < k - 1 implies !is_ws(#[trigger] t[j]) by {
            assert(t[j] == s[j + 1]);
        }
        if k < s.len() {
            assert(t[k - 1] == s[k]);
        }
        lemma_first_ws_at(t, k - 1);
        assert(!is_ws(s[0]));
    }
}

/// The parts joined with `sep` between consecutive ones.
fn join_exec(parts: &Vec<Vec<char>>, sep: &[char]) -> (r: Vec<char>)
    ensures
        r@ == join(parts@.map_values(|v: Vec<char>| v@), sep@),
{
    let ghost ps = parts@.map_values(|v: Vec<char>| v@);
    let mut r: Vec<char> = Vec::new();
    let mut i: usize = 0;
    while i < parts.len()
        invariant
            i <= parts@.len(),
            ps == parts@.map_values(|v: Vec<char>| v@),
            r@ == join(ps.take(i as int), sep@),
        decreases parts@.len() - i,
    {
        proof {
            assert(ps.take(i + 1) =~= ps.take(i as int).push(ps[i as int]));
            if i > 0 {
                lemma_join_push(ps.take(i as int), ps[i as int], sep@);
            } else {
                assert(ps.take(1).len() == 1);
            }
        }
        if i > 0 {
            extend_chars(&mut r, sep);
        }
        extend_chars(&mut r, &parts[i]);
        proof {
            assert(ps[i as int] == parts@[i as int]@);
            if i > 0 {
                assert(r@ =~= join(ps.take(i as int), sep@) + sep@ + ps[i as int]);
            } else {
                assert(r@ =~= ps[0]);
            }
        }
        i = i + 1;
    }
    assert(ps.take(parts@.len() as int) =~= ps);
    r
}

/// A header line's date text, description and document number.
pub fn parse_header_line(line: &str) -> (r: (String, String, String))
    ensures
        (r.0@, r.1@, r.2@) == header_parts(line@),
{
    let s = chars_of(line);
    let mut k: usize = 0;
    while k < s.len() && !is_whitespace(s[k])
        invariant
            k <= s@.len(),
            forall|j: int| 0 <= j < k ==> !is_ws(#[trigger] s@[j]),
        decreases s@.len() - k,
    {
        k = k + 1;
    }
    proof {
        lemma_first_ws_at(s@, k as int);
    }
    let (first, rest) = if k < s.len() {
        (slice_range(&s, 0, k), slice_from(&s, k + 1))
    } else {
        (slice_from(&s, 0), Vec::new())
    };
    proof {
        assert(s@.subrange(0, k as int) =~= s@.take(k as int));
        assert(s@.skip(0) =~= s@);
    }
    let dat = trim_chars(&first);
    let par = braces_chars(&rest);
    let (fper, p) = match par {
        Some(p) => {
            let mut pat: Vec<char> = Vec::new();
            pat.push('{');
            extend_chars(&mut pat, &p);
            pat.push('}');
            assert(pat@ =~= seq!['{'] + p@ + seq!['}']);
            let parts = split_on_exec(&rest, &pat);
            proof {
                assert(parts@.map_values(|v: Vec<char>| v@) =~= split_on(rest@, pat@));
            }
            let empty: Vec<char> = Vec::new();
            assert(empty@ =~= Seq::<char>::empty());
            (join_exec(&parts, &empty), p)
        },
        None => (rest, Vec::new()),
    };
    (string_of(&dat), string_of(&trim_chars(&fper)), string_of(&trim_chars(&p)))
}

// ------------------------------------------------------------------ detail lines

/// The value part of a detail line.
#[derive(Debug, Clone, PartialEq)]
pub enum DetailValue {
    /// No value written: this line balances the transaction.
    Balancing,
    /// An explicit value in cents, an explicit zero included.
    Value(i64),
    /// A value was written but is not a number; carries the token.
    Unparseable(String),
}

/// What a detail line holds: its comment (after the first `#`, up to a
/// second one, trimmed), its account and the words before the comment.
pub open spec fn detail_parts(line: Seq<char>) -> (Seq<char>, Seq<char>, Seq<Seq<char>>) {
    let parts = split_on(line, seq!['#']);
    let sx = if parts.len() > 1 {
        trim(parts[1])
    } else {
        Seq::<char>::empty()
    };
    let toks = words(parts[0]);
    let account = if toks.len() > 0 {
        toks[0]
    } else {
        Seq::<char>::empty()
    };
    (sx, account, toks)
}

/// A detail line's comment, account and value. A missing value and one that
/// is not a number are kept apart: the first balances the transaction, the
/// second is a typo to report.
pub fn parse_detail_line(line: &str) -> (r: (String, String, DetailValue))
    ensures
        ({
            let (sx, acc, toks) = detail_parts(line@);
            &&& r.0@ == sx
            &&& r.1@ == acc
            &&& (toks.len() < 2 ==> r.2 is Balancing)
            &&& (toks.len() >= 2 ==> match crate::money::gr2cents_spec(toks[1]) {
                Some(v) => r.2 == DetailValue::Value(v),
                None => r.2 matches DetailValue::Unparseable(t) && t@ == toks[1],
            })
        }),
{
    let s = chars_of(line);
    let mut hash: Vec<char> = Vec::new();
    hash.push('#');
    assert(hash@ =~= seq!['#']);
    let parts = split_on_exec(&s, &hash);
    proof {
        lemma_split_nonempty(s@, seq!['#']);
    }
    let sx = if parts.len() > 1 {
        trim_chars(&parts[1])
    } else {
        Vec::new()
    };
    let toks = split_words(&parts[0]);
    let account = if toks.len() > 0 {
        string_of(&toks[0])
    } else {
        String::new()
    };
    let val = if toks.len() < 2 {
        DetailValue::Balancing
    } else {
        let tok = string_of(&toks[1]);
        match crate::money::gr2float(tok.as_str()) {
            Some(v) => DetailValue::Value(v),
            None => DetailValue::Unparseable(tok),
        }
    };
    (string_of(&sx), account, val)
}

// ------------------------------------------------------------------ metadata

/// What the metadata file declares: the accounts, the (prefix, category)
/// pairs and the book's name.
pub struct MetaView {
    pub accounts: Seq<Seq<char>>,
    pub omades: Seq<(Seq<char>, Seq<char>)>,
    pub name: Seq<char>,
}

/// Position of the first pair with prefix `k`.
pub open spec fn key_pos(om: Seq<(Seq<char>, Seq<char>)>, k: Seq<char>) -> Option<int>
    decreases om.len(),
{
    if om.len() == 0 {
        None
    } else {
        match key_pos(om.drop_last(), k) {
            Some(i) => Some(i),
            None => if om.last().0 == k {
                Some(om.len() - 1)
            } else {
                None
            },
        }
    }
}

/// The pairs with `k` mapped to `v`: the category of an existing prefix is
/// replaced in place, a new prefix goes last.
pub open spec fn set_pair(om: Seq<(Seq<char>, Seq<char>)>, k: Seq<char>, v: Seq<char>) -> Seq<(Seq<char>, Seq<char>)> {
    match key_pos(om, k) {
        Some(i) => om.update(i, (k, v)),
        None => om.push((k, v)),
    }
}

/// One line of the metadata file: `@ name`, `+ account` or `> prefix category`.
pub open spec fn meta_step(m: MetaView, line: Seq<char>) -> MetaView {
    let w = words(line.drop_first());
    if line.len() == 0 {
        m
    } else if line[0] == '@' {
        MetaView { name: join(w, seq![' ']), ..m }
    } else if line[0] == '+' && w.len() > 0 {
        MetaView { accounts: m.accounts.push(w[0]), ..m }
    } else if line[0] == '>' && w.len() >= 2 {
        MetaView { omades: set_pair(m.omades, w[0], w[1]), ..m }
    } else {
        m
    }
}

/// The metadata declared by the lines, in order.
pub open spec fn meta_fold(lines: Seq<Seq<char>>) -> MetaView
    decreases lines.len(),
{
    if lines.len() == 0 {
        MetaView { accounts: Seq::empty(), omades: Seq::empty(), name: Seq::empty() }
    } else {
        meta_step(meta_fold(lines.drop_last()), lines.last())
    }
}

proof fn lemma_key_pos_take(om: Seq<(Seq<char>, Seq<char>)>, k: Seq<char>, n: int)
    requires
        0 <= n <= om.len(),
        key_pos(om.take(n), k) is Some,
    ensures
        key_pos(om, k) == key_pos(om.take(n), k),
    decreases om.len() - n,
{
    if n < om.len() {
        let t = om.take(n + 1);
        assert(t.drop_last() =~= om.take(n));
        lemma_key_pos_take(om, k, n + 1);
    } else {
        assert(om.take(n) =~= om);
    }
}

proof fn lemma_key_pos_none(om: Seq<(Seq<char>, Seq<char>)>, k: Seq<char>)
    requires
        forall|j: int| 0 <= j < om.len() ==> (#[trigger] om[j]).0 != k,
    ensures
        key_pos(om, k) is None,
    decreases om.len(),
{
    if om.len() > 0 {
        let s = om.drop_last();
        assert forall|j: int| 0 <= j < s.len() implies (#[trigger] s[j]).0 != k by {
            assert(s[j] == om[j]);
        }
        lemma_key_pos_none(s, k);
        assert(om[om.len() - 1] == om.last());
    }
}

/// The pairs as views.
pub open spec fn pairs_view(v: Seq<(String, String)>) -> Seq<(Seq<char>, Seq<char>)> {
    v.map_values(|p: (String, String)| (p.0@, p.1@))
}

/// The strings as views.
pub open spec fn texts_view(v: Seq<String>) -> Seq<Seq<char>> {
    v.map_values(|s: String| s@)
}

fn set_pair_exec(om: &mut Vec<(String, String)>, k: &[char], v: &[char])
    ensures
        pairs_view(final(om)@) == set_pair(pairs_view(old(om)@), k@, v@),
{
    let ghost pv = pairs_view(om@);
    let mut i: usize = 0;
    while i < om.len()
        invariant
            i <= om@.len(),
            pv == pairs_view(om@),
            om@ == old(om)@,
            key_pos(pv.take(i as int), k@) is None,
        decreases om@.len() - i,
    {
        let cur = chars_of(om[i].0.as_str());
        if chars_eq(&cur, k) {
            proof {
                assert(pv.take(i + 1).drop_last() =~= pv.take(i as int));
                assert(pv.take(i + 1).last() == pv[i as int]);
                lemma_key_pos_take(pv, k@, i + 1);
            }
            let nk = string_of(k);
            om.set(i, (nk, string_of(v)));
            assert(pairs_view(om@) =~= pv.update(i as int, (k@, v@)));
            return;
        }
        proof {
            assert(pv.take(i + 1).drop_last() =~= pv.take(i as int));
        }
        i = i + 1;
    }
    assert(pv.take(om@.len() as int) =~= pv);
    om.push((string_of(k), string_of(v)));
    assert(pairs_view(om@) =~= pv.push((k@, v@)));
}

/// Reads the metadata file's text: the declared accounts, the (prefix,
/// category) pairs and the book's name. A repeated prefix replaces its
/// category in place.
pub fn parse_metadata(content: &str) -> (r: (Vec<String>, Vec<(String, String)>, String))
    ensures
        ({
            let m = meta_fold(text_lines(content@));
            &&& texts_view(r.0@) == m.accounts
            &&& pairs_view(r.1@) == m.omades
            &&& r.2@ == m.name
        }),
{
    let lines = text_lines_exec(content);
    let ghost ls = text_lines(content@);
    let mut book_name: Vec<char> = Vec::new();
    let mut omades: Vec<(String, String)> = Vec::new();
    let mut valid_accounts: Vec<String> = Vec::new();
    let mut i: usize = 0;
    proof {
        assert(ls.take(0) =~= Seq::<Seq<char>>::empty());
    }
    while i < lines.len()
        invariant
            i <= lines@.len(),
            lines@.len() == ls.len(),
            ls == text_lines(content@),
            forall|k: int| 0 <= k < lines@.len() ==> #[trigger] lines@[k]@ == ls[k],
            ({
                let m = meta_fold(ls.take(i as int));
                &&& texts_view(valid_accounts@) == m.accounts
                &&& pairs_view(omades@) == m.omades
                &&& book_name@ == m.name
            }),
        decreases lines@.len() - i,
    {
        let line = &lines[i];
        proof {
            assert(ls.take(i + 1).drop_last() =~= ls.take(i as int));
            assert(ls.take(i + 1).last() == line@);
        }
        if line.len() > 0 {
            let rest = slice_from(line, 1);
            assert(rest@ =~= line@.drop_first());
            let w = split_words(&rest);
            let ghost wv = words(line@.drop_first());
            proof {
                assert(w@.map_values(|v: Vec<char>| v@) =~= wv);
            }
            if line[0] == '@' {
                let mut sp: Vec<char> = Vec::new();
                sp.push(' ');
                assert(sp@ =~= seq![' ']);
                book_name = join_exec(&w, &sp);
            } else if line[0] == '+' {
                if w.len() > 0 {
                    let ghost before = valid_accounts@;
                    valid_accounts.push(string_of(&w[0]));
                    assert(texts_view(valid_accounts@) =~= texts_view(before).push(wv[0]));
                }
            } else if line[0] == '>' {
                if w.len() >= 2 {
                    set_pair_exec(&mut omades, &w[0], &w[1]);
                }
            }
        }
        i = i + 1;
    }
    assert(ls.take(lines@.len() as int) =~= ls);
    (valid_accounts, omades, string_of(&book_name))
}

/// The journal files of a folder's listing in name order, without the
/// metadata file.
pub open spec fn journal_names(names: Seq<Seq<char>>) -> Seq<Seq<char>>
    decreases names.len(),
{
    if names.len() == 0 {
        Seq::empty()
    } else if names.last() == "000"@ {
        journal_names(names.drop_last())
    } else {
        insert_name(names.last(), journal_names(names.drop_last()))
    }
}

/// `x` put into a sorted sequence after every name not after it.
pub open spec fn insert_name(x: Seq<char>, s: Seq<Seq<char>>) -> Seq<Seq<char>>
    decreases s.len(),
{
    if s.len() == 0 {
        seq![x]
    } else if !crate::text::text_lt(x, s.last()) {
        s.push(x)
    } else {
        insert_name(x, s.drop_last()).push(s.last())
    }
}

/// Whether a folder listing holds the metadata file.
pub fn is_path_valid_book_data(path_file_list: &[String]) -> (b: bool)
    ensures
        b == exists|i: int| 0 <= i < path_file_list@.len() && #[trigger] path_file_list@[i]@ == "000"@,
{
    let mut i: usize = 0;
    while i < path_file_list.len()
        invariant
            i <= path_file_list@.len(),
            forall|j: int| 0 <= j < i ==> #[trigger] path_file_list@[j]@ != "000"@,
        decreases path_file_list@.len() - i,
    {
        if crate::text::str_eq(path_file_list[i].as_str(), BOOK_METADATA_FILE) {
            return true;
        }
        i = i + 1;
    }
    false
}

proof fn lemma_insert_name_at(x: Seq<char>, s: Seq<Seq<char>>, k: int)
    requires
        0 <= k <= s.len(),
        forall|j: int| k <= j < s.len() ==> crate::text::text_lt(x, #[trigger] s[j]),
        k > 0 ==> !crate::text::text_lt(x, s[k - 1]),
    ensures
        insert_name(x, s) == s.take(k).push(x) + s.skip(k),
    decreases s.len(),
{
    if s.len() == 0 {
        assert(s.take(k).push(x) + s.skip(k) =~= seq![x]);
    } else if k == s.len() {
        assert(s.take(k) =~= s);
        assert(s.skip(k) =~= Seq::<Seq<char>>::empty());
        assert(s.take(k).push(x) + s.skip(k) =~= s.push(x));
    } else {
        assert(crate::text::text_lt(x, s[s.len() - 1]));
        let s0 = s.drop_last();
        assert forall|j: int| k <= j < s0.len() implies crate::text::text_lt(x, #[trigger] s0[j]) by {
            assert(s0[j] == s[j]);
        }
        lemma_insert_name_at(x, s0, k);
        assert((s0.take(k).push(x) + s0.skip(k)).push(s.last()) =~= s.take(k).push(x) + s.skip(k));
    }
}

/// The journal files of a folder listing, in name order, leaving out the
/// metadata file.
pub fn sorted_book_files(filenames: Vec<String>) -> (r: Vec<String>)
    ensures
        texts_view(r@) == journal_names(texts_view(filenames@)),
{
    let ghost names = texts_view(filenames@);
    let mut r: Vec<String> = Vec::new();
    let mut i: usize = 0;
    proof {
        assert(names.take(0) =~= Seq::<Seq<char>>::empty());
        assert(texts_view(r@) =~= Seq::<Seq<char>>::empty());
    }
    while i < filenames.len()
        invariant
            i <= filenames@.len(),
            names == texts_view(filenames@),
            texts_view(r@) == journal_names(names.take(i as int)),
        decreases filenames@.len() - i,
    {
        let f = &filenames[i];
        proof {
            assert(names.take(i + 1).drop_last() =~= names.take(i as int));
            assert(names.take(i + 1).last() == f@);
        }
        if !crate::text::str_eq(f.as_str(), BOOK_METADATA_FILE) {
            let x = chars_of(f.as_str());
            let ghost s = texts_view(r@);
            let mut k: usize = r.len();
            while k > 0 && crate::text::text_less(&x, &chars_of(r[k - 1].as_str()))
                invariant
                    k <= r@.len(),
                    s == texts_view(r@),
                    x@ == f@,
                    forall|j: int| k <= j < s.len() ==> crate::text::text_lt(x@, #[trigger] s[j]),
                decreases k,
            {
                k = k - 1;
            }
            proof {
                lemma_insert_name_at(x@, s, k as int);
            }
            r.insert(k, string_of(&x));
            assert(texts_view(r@) =~= s.take(k as int).push(x@) + s.skip(k as int));
        }
        i = i + 1;
    }
    assert(names.take(filenames@.len() as int) =~= names);
    r
}

// ------------------------------------------------------------------ journals

/// The parser's state as data: the book, the errors so far and the id of the
/// transaction that detail lines go to (0 for none).
pub struct ParseView {
    pub book: crate::book::BookView,
    pub errors: Seq<Seq<char>>,
    pub trn_id: int,
}

/// "path:line", the line numbered from 1 with the first line of the file
/// counted: row `i` after the first line is line `i + 2`.
pub open spec fn at_line(path: Seq<char>, i: int) -> Seq<char> {
    path + seq![':'] + crate::num::int_text(i + 2)
}

/// An error located at a row.
pub open spec fn located(path: Seq<char>, i: int, e: Seq<char>) -> Seq<char> {
    at_line(path, i) + ": "@ + e
}

pub open spec fn check_fields_text(path: Seq<char>, i: int, n: int) -> Seq<char> {
    located(path, i, "γραμμή ελέγχου '@' θέλει 4 πεδία (@ ημερομηνία λογαριασμός ποσό), βρέθηκαν "@ + crate::num::int_text(n))
}

pub open spec fn check_amount_text(path: Seq<char>, i: int, tok: Seq<char>) -> Seq<char> {
    located(path, i, "το ποσό ελέγχου '"@ + tok + "' δεν είναι αριθμός"@)
}

pub open spec fn undeclared_text(path: Seq<char>, i: int, acc: Seq<char>) -> Seq<char> {
    at_line(path, i) + ", ο λογαριασμός '"@ + acc + "' δεν είναι καταχωρημένος"@
}

pub open spec fn amount_text(path: Seq<char>, i: int, tok: Seq<char>) -> Seq<char> {
    located(path, i, "το ποσό '"@ + tok + "' δεν είναι αριθμός"@)
}

pub open spec fn orphan_text(path: Seq<char>, i: int, acc: Seq<char>) -> Seq<char> {
    located(path, i, "η γραμμή '"@ + acc + "' δεν ανήκει σε κάποιο άρθρο"@)
}

pub open spec fn incompatible_text(path: Seq<char>, first: Seq<char>) -> Seq<char> {
    "File "@ + path + " is not compatible. First line: '"@ + first + seq!['\'']
}

/// A balance-check line `@ date account amount`.
pub open spec fn validation_step(st: ParseView, path: Seq<char>, i: int, toks: Seq<Seq<char>>) -> ParseView {
    if toks.len() != 4 {
        ParseView { errors: st.errors.push(check_fields_text(path, i, toks.len() as int)), ..st }
    } else {
        match crate::money::gr2cents_spec(toks[3]) {
            Some(c) => ParseView {
                book: crate::book::BookView {
                    validations: st.book.validations.push((toks[1], toks[2], c as int)),
                    ..st.book
                },
                ..st
            },
            None => ParseView { errors: st.errors.push(check_amount_text(path, i, toks[3])), ..st },
        }
    }
}

/// A header line: a new transaction, or an error for a date that is not real.
pub open spec fn header_step(st: ParseView, path: Seq<char>, i: int, h: (Seq<char>, Seq<char>, Seq<char>)) -> ParseView {
    let (dat, perigrafi, parastatiko) = h;
    match crate::date::Date::parse_iso_spec(dat) {
        Some(d) => {
            let id: int = st.book.txs.len() as int + 1;
            ParseView {
                book: crate::book::BookView {
                    txs: st.book.txs.push(
                        crate::transaction::TxView { id, date: d, parastatiko, perigrafi, lines: Seq::empty() },
                    ),
                    ..st.book
                },
                trn_id: id,
                ..st
            }
        },
        None => ParseView {
            errors: st.errors.push(located(path, i, crate::transaction::bad_date_text(dat))),
            trn_id: 0,
            ..st
        },
    }
}

/// The transaction `t` with one more line.
pub open spec fn tx_push(t: crate::transaction::TxView, l: crate::transaction_line::LineView) -> crate::transaction::TxView {
    crate::transaction::TxView { lines: t.lines.push(l), ..t }
}

/// A detail line once its account is checked: the line goes to the current
/// transaction, with its value or as the balancing line.
pub open spec fn line_step(st: ParseView, path: Seq<char>, i: int, sx: Seq<char>, acc: Seq<char>, toks: Seq<Seq<char>>) -> ParseView {
    let id = st.trn_id;
    let txs = st.book.txs;
    if !(1 <= id <= txs.len()) {
        ParseView { errors: st.errors.push(orphan_text(path, i, acc)), ..st }
    } else {
        let t = txs[id - 1];
        if toks.len() >= 2 {
            let v = crate::money::gr2cents_spec(toks[1])->0;
            let l = crate::transaction_line::LineView { account: acc, value: v as int, sxolio: trim(sx) };
            ParseView { book: crate::book::BookView { txs: txs.update(id - 1, tx_push(t, l)), ..st.book }, ..st }
        } else {
            let rest = crate::transaction::sum_values(t.lines);
            if rest != 0 && i64::MIN <= -rest <= i64::MAX {
                let l = crate::transaction_line::LineView { account: acc, value: -rest, sxolio: trim(sx) };
                ParseView { book: crate::book::BookView { txs: txs.update(id - 1, tx_push(t, l)), ..st.book }, ..st }
            } else {
                let e = if rest == 0 {
                    "Transaction is already balanced"@
                } else {
                    "Balancing amount out of range"@
                };
                ParseView { errors: st.errors.push(located(path, i, e)), ..st }
            }
        }
    }
}

/// A detail line: its account is checked against the declared ones and
/// registered in the chart; a value that is not a number is reported and the
/// line dropped.
pub open spec fn detail_step(
    st: ParseView,
    declared: Seq<Seq<char>>,
    path: Seq<char>,
    i: int,
    d: (Seq<char>, Seq<char>, Seq<Seq<char>>),
) -> ParseView {
    let (sx, acc, toks) = d;
    let e1 = if !declared.contains(acc) {
        st.errors.push(undeclared_text(path, i, acc))
    } else {
        st.errors
    };
    let e2 = if !crate::account::cats_fit(st.book.chart.cats, acc) {
        e1.push(located(path, i, crate::account::bad_account_text(acc)))
    } else {
        e1
    };
    let st2 = ParseView {
        book: crate::book::BookView { chart: crate::account::chart_add(st.book.chart, acc), ..st.book },
        errors: e2,
        ..st
    };
    if toks.len() >= 2 && crate::money::gr2cents_spec(toks[1]) is None {
        ParseView { errors: e2.push(amount_text(path, i, toks[1])), ..st2 }
    } else {
        line_step(st2, path, i, sx, acc, toks)
    }
}

/// One row after the first line of a journal.
pub open spec fn row_step(st: ParseView, declared: Seq<Seq<char>>, path: Seq<char>, i: int, row: Seq<char>) -> ParseView {
    let line = trim(row);
    if ignore_spec(row) {
        st
    } else if line.len() > 0 && line[0] == '@' {
        validation_step(st, path, i, words(line))
    } else if iso_shape(line) {
        header_step(st, path, i, header_parts(line))
    } else if two_spaces(row) {
        detail_step(st, declared, path, i, detail_parts(line))
    } else {
        st
    }
}

/// The rows in order.
pub open spec fn rows_fold(st: ParseView, declared: Seq<Seq<char>>, path: Seq<char>, rows: Seq<Seq<char>>) -> ParseView
    decreases rows.len(),
{
    if rows.len() == 0 {
        st
    } else {
        row_step(rows_fold(st, declared, path, rows.drop_last()), declared, path, rows.len() - 1, rows.last())
    }
}

/// A journal read into a book: the book and the errors after it.
pub open spec fn journal_result(
    book: crate::book::BookView,
    errors: Seq<Seq<char>>,
    declared: Seq<Seq<char>>,
    path: Seq<char>,
    content: Seq<char>,
) -> (crate::book::BookView, Seq<Seq<char>>) {
    let ls = text_lines(content);
    let first = if ls.len() > 0 {
        trim(ls[0])
    } else {
        Seq::<char>::empty()
    };
    if first != "j-open"@ && first != "j-normal"@ && first != "j-close"@ {
        (book, errors.push(incompatible_text(path, first)))
    } else {
        let st = rows_fold(ParseView { book, errors, trn_id: 0 }, declared, path, ls.skip(1));
        (st.book, st.errors)
    }
}

// ------------------------------------------------------------------ journal reading

fn at_line_exec(path: &str, i: usize) -> (v: Vec<char>)
    ensures
        v@ == at_line(path@, i as int),
{
    let mut v = chars_of(path);
    v.push(':');
    extend_chars(&mut v, &crate::num::int_text_exec(i as i128 + 2));
    v
}

fn located_exec(path: &str, i: usize, e: &[char]) -> (r: String)
    ensures
        r@ == located(path@, i as int, e@),
{
    let mut v = at_line_exec(path, i);
    extend_chars(&mut v, &chars_of(": "));
    extend_chars(&mut v, e);
    assert(v@ =~= located(path@, i as int, e@));
    string_of(&v)
}

/// `lit`, then `x`, then `tail`.
fn framed(lit: &str, x: &[char], tail: &str) -> (v: Vec<char>)
    ensures
        v@ == lit@ + x@ + tail@,
{
    let mut v = chars_of(lit);
    extend_chars(&mut v, x);
    extend_chars(&mut v, &chars_of(tail));
    v
}

/// Whether `x` is one of the texts.
pub(crate) fn contains_text(v: &Vec<String>, x: &str) -> (b: bool)
    ensures
        b == texts_view(v@).contains(x@),
{
    let ghost tv = texts_view(v@);
    let mut i: usize = 0;
    while i < v.len()
        invariant
            i <= v@.len(),
            tv == texts_view(v@),
            forall|j: int| 0 <= j < i ==> #[trigger] tv[j] != x@,
        decreases v@.len() - i,
    {
        if crate::text::str_eq(v[i].as_str(), x) {
            assert(tv[i as int] == x@);
            return true;
        }
        i = i + 1;
    }
    false
}

proof fn lemma_utf8_len_empty(s: Seq<char>)
    requires
        utf8_len(s) > 0,
    ensures
        s.len() > 0,
{
}

/// Handles one row after the first line of a journal (row `i`).
fn process_row(
    book: &mut crate::book::Book,
    declared: &Vec<String>,
    errors: &mut Vec<String>,
    trn_id: &mut i32,
    path: &str,
    i: usize,
    row: &[char],
)
    requires
        old(book).wf(),
        old(book)@.txs.len() < i32::MAX,
        *old(trn_id) >= 0,
        *old(trn_id) <= old(book)@.txs.len(),
        1 <= *old(trn_id) ==> old(book)@.txs[*old(trn_id) - 1].lines.len() < crate::ledger::line_limit(),
    ensures
        final(book).wf(),
        ({
            let st = row_step(
                ParseView { book: old(book)@, errors: texts_view(old(errors)@), trn_id: *old(trn_id) as int },
                texts_view(declared@),
                path@,
                i as int,
                row@,
            );
            &&& final(book)@ == st.book
            &&& texts_view(final(errors)@) == st.errors
            &&& *final(trn_id) == st.trn_id
        }),
        final(book)@.txs.len() <= old(book)@.txs.len() + 1,
        *final(trn_id) >= 0,
        *final(trn_id) <= final(book)@.txs.len(),
        1 <= *final(trn_id) ==> final(book)@.txs[*final(trn_id) - 1].lines.len() <= (
        if *final(trn_id) == *old(trn_id) {
            old(book)@.txs[*old(trn_id) - 1].lines.len() + 1
        } else {
            0
        }),
{
    let ghost st = ParseView { book: book@, errors: texts_view(errors@), trn_id: *trn_id as int };
    let ghost decl = texts_view(declared@);
    let row_s = string_of(row);
    if is_line_to_ignore(row_s.as_str()) {
        return;
    }
    let tv = trim_chars(row);
    proof {
        lemma_utf8_len_empty(tv@);
    }
    let trimmed = string_of(&tv);
    if tv[0] == '@' {
        let toks = split_words(&tv);
        let ghost tk = words(tv@);
        if toks.len() != 4 {
            let n = crate::num::int_text_exec(toks.len() as i128);
            let mut body = chars_of("γραμμή ελέγχου '@' θέλει 4 πεδία (@ ημερομηνία λογαριασμός ποσό), βρέθηκαν ");
            extend_chars(&mut body, &n);
            let msg = located_exec(path, i, &body);
            let ghost before = errors@;
            errors.push(msg);
            proof {
                assert(body@ =~= "γραμμή ελέγχου '@' θέλει 4 πεδία (@ ημερομηνία λογαριασμός ποσό), βρέθηκαν "@
                    + crate::num::int_text(tk.len() as int));
                assert(texts_view(errors@) =~= texts_view(before).push(check_fields_text(path@, i as int, tk.len() as int)));
            }
            return;
        }
        let amount = string_of(&toks[3]);
        match crate::money::gr2float(amount.as_str()) {
            Some(c) => {
                let ghost before = book@;
                book.add_validation((string_of(&toks[1]), string_of(&toks[2]), c));
                proof {
                    assert(book@.txs =~= before.txs);
                    assert(book@ =~= crate::book::BookView {
                        validations: before.validations.push((tk[1], tk[2], c as int)),
                        ..before
                    });
                }
            },
            None => {
                let body = framed("το ποσό ελέγχου '", &toks[3], "' δεν είναι αριθμός");
                let msg = located_exec(path, i, &body);
                let ghost before = errors@;
                errors.push(msg);
                proof {
                    assert(texts_view(errors@) =~= texts_view(before).push(check_amount_text(path@, i as int, tk[3])));
                }
            },
        }
        return;
    }
    if starts_with_iso_date(trimmed.as_str()) {
        let (dat, per, par) = parse_header_line(trimmed.as_str());
        match crate::transaction::Transaction::try_new(dat.as_str(), par.as_str(), per.as_str(), 0) {
            Ok(t) => {
                let ghost before = book@;
                let ghost tview = t@;
                match book.add_transaction(t) {
                    Ok(id) => {
                        *trn_id = id;
                        proof {
                            assert(tview.lines =~= Seq::<crate::transaction_line::LineView>::empty());
                        }
                    },
                    Err(e) => {
                        *trn_id = 0;
                        errors.push(located_exec(path, i, &chars_of(e.as_str())));
                    },
                }
            },
            Err(e) => {
                *trn_id = 0;
                let msg = located_exec(path, i, &chars_of(e.as_str()));
                let ghost before = errors@;
                errors.push(msg);
                proof {
                    assert(texts_view(errors@) =~= texts_view(before).push(
                        located(path@, i as int, crate::transaction::bad_date_text(dat@)),
                    ));
                }
            },
        }
        return;
    }
    if !starts_with_two_spaces(row_s.as_str()) {
        return;
    }
    let (sx, acc, val) = parse_detail_line(trimmed.as_str());
    let ghost dp = detail_parts(tv@);
    let ghost e0 = texts_view(errors@);
    if !contains_text(declared, acc.as_str()) {
        let body = framed(", ο λογαριασμός '", &chars_of(acc.as_str()), "' δεν είναι καταχωρημένος");
        let mut v = at_line_exec(path, i);
        extend_chars(&mut v, &body);
        let ghost before = errors@;
        assert(v@ =~= undeclared_text(path@, i as int, acc@));
        errors.push(string_of(&v));
        proof {
            assert(texts_view(errors@) =~= texts_view(before).push(undeclared_text(path@, i as int, acc@)));
        }
    }
    let ghost e1 = texts_view(errors@);
    let ghost chart0 = book.chart@;
    match book.chart.add_account(acc.as_str()) {
        Ok(()) => {},
        Err(e) => {
            let msg = located_exec(path, i, &chars_of(e.as_str()));
            let ghost before = errors@;
            errors.push(msg);
            proof {
                assert(texts_view(errors@) =~= texts_view(before).push(
                    located(path@, i as int, crate::account::bad_account_text(acc@)),
                ));
            }
        },
    }
    let ghost e2 = texts_view(errors@);
    let ghost b2 = book@;
    proof {
        assert(b2 == crate::book::BookView { chart: crate::account::chart_add(st.book.chart, acc@), ..st.book });
    }
    let ghost st2 = ParseView { book: b2, errors: e2, trn_id: st.trn_id };
    let value: Option<i64> = match val {
        DetailValue::Unparseable(tok) => {
            let body = framed("το ποσό '", &chars_of(tok.as_str()), "' δεν είναι αριθμός");
            let msg = located_exec(path, i, &body);
            let ghost before = errors@;
            errors.push(msg);
            proof {
                assert(texts_view(errors@) =~= texts_view(before).push(amount_text(path@, i as int, dp.2[1])));
            }
            return;
        },
        DetailValue::Value(v) => Some(v),
        DetailValue::Balancing => None,
    };
    let ghost old_txs = book.transactions@;
    let ghost idv = *trn_id as int;
    match book.get_transaction_mut(*trn_id) {
        None => {
            let body = framed("η γραμμή '", &chars_of(acc.as_str()), "' δεν ανήκει σε κάποιο άρθρο");
            let msg = located_exec(path, i, &body);
            let ghost before = errors@;
            errors.push(msg);
            proof {
                assert(texts_view(errors@) =~= texts_view(before).push(orphan_text(path@, i as int, acc@)));
            }
        },
        Some(trn) => {
            match value {
                Some(v) => {
                    trn.add_line(acc.as_str(), v, sx.as_str());
                },
                None => {
                    match trn.add_last_line(acc.as_str(), sx.as_str()) {
                        Ok(()) => {},
                        Err(e) => {
                            let msg = located_exec(path, i, &chars_of(e.as_str()));
                            errors.push(msg);
                        },
                    }
                },
            }
        },
    }
    proof {
        let lt = line_step(st2, path@, i as int, dp.0, dp.1, dp.2);
        if 1 <= idv <= old_txs.len() {
            assert(book@.txs =~= b2.txs.update(idv - 1, book.transactions@[idv - 1]@));
            assert forall|k: int| 0 <= k < book@.txs.len() implies (#[trigger] book@.txs[k]).id == k + 1 by {
                if k != idv - 1 {
                    assert(book@.txs[k] == b2.txs[k]);
                }
            }
            assert forall|k: int| 0 <= k < book@.txs.len() implies #[trigger] book@.txs[k].lines.len()
                <= crate::ledger::line_limit() by {
                if k != idv - 1 {
                    assert(book@.txs[k] == b2.txs[k]);
                }
            }
        }
        assert(book@.txs =~= lt.book.txs);
        assert(book@.validations =~= lt.book.validations);
        assert(book@.chart == lt.book.chart);
        assert(book@.name == lt.book.name);
        assert(texts_view(errors@) =~= lt.errors);
    }
}

/// Reads a journal's text into the book: transactions, their lines and the
/// balance checks, with an error (file name and line number) for each line
/// that cannot be taken as it stands. `declared_accounts` are the accounts
/// of the metadata file; an account outside them is reported every time.
pub fn parse_imerologio(
    book: &mut crate::book::Book,
    declared_accounts: &Vec<String>,
    errors: &mut Vec<String>,
    filepath: &str,
    content: &str,
)
    requires
        old(book).wf(),
        text_lines(content@).len() <= crate::ledger::line_limit(),
        old(book)@.txs.len() + text_lines(content@).len() < i32::MAX,
    ensures
        final(book).wf(),
        (final(book)@, texts_view(final(errors)@)) == journal_result(
            old(book)@,
            texts_view(old(errors)@),
            texts_view(declared_accounts@),
            filepath@,
            content@,
        ),
{
    let lines = text_lines_exec(content);
    let ghost ls = text_lines(content@);
    let first = if lines.len() > 0 {
        trim_chars(&lines[0])
    } else {
        Vec::new()
    };
    proof {
        if ls.len() > 0 {
            assert(lines@[0]@ == ls[0]);
        }
    }
    if !(chars_eq(&first, &chars_of("j-open")) || chars_eq(&first, &chars_of("j-normal")) || chars_eq(
        &first,
        &chars_of("j-close"),
    )) {
        let mut v = chars_of("File ");
        extend_chars(&mut v, &chars_of(filepath));
        extend_chars(&mut v, &chars_of(" is not compatible. First line: '"));
        extend_chars(&mut v, &first);
        v.push('\'');
        let ghost before = errors@;
        errors.push(string_of(&v));
        proof {
            assert(v@ =~= incompatible_text(filepath@, first@));
            assert(texts_view(errors@) =~= texts_view(before).push(incompatible_text(filepath@, first@)));
        }
        return;
    }
    proof {
        reveal_strlit("j-open");
        reveal_strlit("j-normal");
        reveal_strlit("j-close");
        assert(ls.len() > 0);
    }
    let ghost rows = ls.skip(1);
    let ghost decl = texts_view(declared_accounts@);
    let ghost st0 = ParseView { book: book@, errors: texts_view(errors@), trn_id: 0 };
    let ghost base = book@.txs.len();
    let mut trn_id: i32 = 0;
    let mut i: usize = 1;
    proof {
        assert(rows.take(0) =~= Seq::<Seq<char>>::empty());
    }
    while i < lines.len()
        invariant
            1 <= i <= lines@.len(),
            lines@.len() == ls.len(),
            ls == text_lines(content@),
            rows == ls.skip(1),
            decl == texts_view(declared_accounts@),
            ls.len() <= crate::ledger::line_limit(),
            base + ls.len() < i32::MAX,
            forall|k: int| 0 <= k < lines@.len() ==> #[trigger] lines@[k]@ == ls[k],
            book.wf(),
            book@.txs.len() <= base + (i - 1),
            trn_id >= 0,
            trn_id <= book@.txs.len(),
            1 <= trn_id ==> book@.txs[trn_id - 1].lines.len() <= i - 1,
            ({
                let st = rows_fold(st0, decl, filepath@, rows.take(i - 1));
                &&& book@ == st.book
                &&& texts_view(errors@) == st.errors
                &&& trn_id == st.trn_id
            }),
        decreases lines@.len() - i,
    {
        let ghost prev_st = ParseView { book: book@, errors: texts_view(errors@), trn_id: trn_id as int };
        proof {
            assert(prev_st == rows_fold(st0, decl, filepath@, rows.take(i - 1)));
        }
        process_row(book, declared_accounts, errors, &mut trn_id, filepath, i - 1, &lines[i]);
        proof {
            let r = rows.take(i as int);
            assert(r.drop_last() =~= rows.take(i - 1));
            assert(r.last() == lines@[i as int]@);
            assert(r.len() - 1 == i - 1);
            assert(rows_fold(st0, decl, filepath@, r) == row_step(prev_st, decl, filepath@, i - 1, lines@[i as int]@));
        }
        i = i + 1;
    }
    proof {
        assert(rows.take(i - 1) =~= rows);
    }
}

/// A book, empty of transactions, from the text of its metadata file, with
/// the accounts that file declares. Fails when a declared account fits none
/// of the declared categories.
pub fn open_book(metadata: &str) -> (r: Result<(crate::book::Book, Vec<String>), String>)
    requires
        forall|i: int|
            0 <= i < meta_fold(text_lines(metadata@)).omades.len() ==> crate::account::is_kat(
                #[trigger] meta_fold(text_lines(metadata@)).omades[i].1,
            ),
    ensures
        ({
            let m = meta_fold(text_lines(metadata@));
            &&& (r is Ok <==> forall|i: int|
                0 <= i < m.accounts.len() ==> crate::account::cats_fit(m.omades, #[trigger] m.accounts[i]))
            &&& (r matches Ok((b, declared)) ==> b.wf() && b@.name == m.name && b@.chart.cats == m.omades
                && b@.txs.len() == 0 && b@.validations.len() == 0 && texts_view(declared@) == m.accounts
                && forall|n: Seq<char>| b.chart.has_account(n) <==> m.accounts.contains(n))
            &&& (r matches Err(e) ==> exists|i: int|
                0 <= i < m.accounts.len() && !crate::account::cats_fit(m.omades, #[trigger] m.accounts[i])
                    && e@ == crate::account::bad_account_text(m.accounts[i]) && forall|j: int|
                    0 <= j < i ==> crate::account::cats_fit(m.omades, #[trigger] m.accounts[j]))
        }),
{
    let (accounts, acc_types, bname) = parse_metadata(metadata);
    let ghost m = meta_fold(text_lines(metadata@));
    proof {
        assert forall|i: int| 0 <= i < acc_types@.len() implies crate::account::is_kat(#[trigger] acc_types@[i].1@) by {
            assert(pairs_view(acc_types@)[i] == (acc_types@[i].0@, acc_types@[i].1@));
            assert(crate::account::is_kat(m.omades[i].1));
        }
        assert forall|i: int| 0 <= i < accounts@.len() implies #[trigger] accounts@[i]@ == m.accounts[i] by {
            assert(texts_view(accounts@)[i] == accounts@[i]@);
        }
        assert forall|n: Seq<char>| crate::account::acc_types_fit(acc_types@, n) == crate::account::cats_fit(m.omades, n) by {
            assert(acc_types@.map_values(|c: (String, String)| (c.0@, c.1@)) == pairs_view(acc_types@));
        }
    }
    let sl = accounts.as_slice();
    assert(sl@ == accounts@);
    match crate::account::ChartOfAccounts::full(bname.as_str(), acc_types, sl) {
        Err(e) => Err(e),
        Ok(chart) => {
            let ghost cv = chart@;
            proof {
                assert forall|n: Seq<char>| #[trigger] cv.names.contains(n) <==> m.accounts.contains(n) by {
                    assert(chart.has_account(n) <==> exists|i: int| 0 <= i < sl@.len() && #[trigger] sl@[i]@ == n);
                    if m.accounts.contains(n) {
                        let i = choose|i: int| 0 <= i < m.accounts.len() && m.accounts[i] == n;
                        assert(sl@[i]@ == n);
                    }
                    if cv.names.contains(n) {
                        assert(chart.has_account(n));
                        let i = choose|i: int| 0 <= i < sl@.len() && #[trigger] sl@[i]@ == n;
                        assert(m.accounts[i] == n);
                    }
                }
            }
            let book = crate::book::Book::new(bname.as_str(), chart);
            proof {
                assert(book.chart@ == cv);
                assert(book@.chart.cats =~= m.omades);
            }
            Ok((book, accounts))
        },
    }
}

// ------------------------------------------------------------------ laws

/// A detail row: not skipped, not a check line, not a header, two spaces first.
pub open spec fn is_detail_row(row: Seq<char>) -> bool {
    &&& !ignore_spec(row)
    &&& !(trim(row).len() > 0 && trim(row)[0] == '@')
    &&& !iso_shape(trim(row))
    &&& two_spaces(row)
}

/// A value that is not a number is reported and its line dropped: the
/// transactions stay as they were, so the typo cannot be absorbed into a
/// balancing line.
pub proof fn lemma_unparseable_not_absorbed(st: ParseView, declared: Seq<Seq<char>>, path: Seq<char>, i: int, row: Seq<char>)
    requires
        is_detail_row(row),
        detail_parts(trim(row)).2.len() >= 2,
        crate::money::gr2cents_spec(detail_parts(trim(row)).2[1]) is None,
    ensures
        ({
            let r = row_step(st, declared, path, i, row);
            &&& r.book.txs == st.book.txs
            &&& r.trn_id == st.trn_id
            &&& r.errors.len() > st.errors.len()
            &&& r.errors.last() == amount_text(path, i, detail_parts(trim(row)).2[1])
        }),
{
}

/// An account that the metadata file does not declare is reported on every
/// detail row that names it.
pub proof fn lemma_undeclared_reported(st: ParseView, declared: Seq<Seq<char>>, path: Seq<char>, i: int, row: Seq<char>)
    requires
        is_detail_row(row),
        !declared.contains(detail_parts(trim(row)).1),
    ensures
        ({
            let r = row_step(st, declared, path, i, row);
            &&& r.errors.len() > st.errors.len()
            &&& r.errors[st.errors.len() as int] == undeclared_text(path, i, detail_parts(trim(row)).1)
        }),
{
}

/// A header whose date is not a real date adds no transaction, and the
/// detail rows after it belong to none.
pub proof fn lemma_bad_date_adds_nothing(st: ParseView, declared: Seq<Seq<char>>, path: Seq<char>, i: int, row: Seq<char>)
    requires
        !ignore_spec(row),
        !(trim(row).len() > 0 && trim(row)[0] == '@'),
        iso_shape(trim(row)),
        crate::date::Date::parse_iso_spec(header_parts(trim(row)).0) is None,
    ensures
        ({
            let r = row_step(st, declared, path, i, row);
            &&& r.book == st.book
            &&& r.trn_id == 0
            &&& r.errors == st.errors.push(located(path, i, crate::transaction::bad_date_text(header_parts(trim(row)).0)))
        }),
{
}

/// A written value, zero included, becomes a line of that value on the
/// current transaction; only a missing value balances.
pub proof fn lemma_written_value_kept(st: ParseView, declared: Seq<Seq<char>>, path: Seq<char>, i: int, row: Seq<char>)
    requires
        is_detail_row(row),
        detail_parts(trim(row)).2.len() >= 2,
        crate::money::gr2cents_spec(detail_parts(trim(row)).2[1]) is Some,
        1 <= st.trn_id <= st.book.txs.len(),
    ensures
        ({
            let r = row_step(st, declared, path, i, row);
            let t = r.book.txs[st.trn_id - 1];
            &&& r.book.txs.len() == st.book.txs.len()
            &&& t.lines == st.book.txs[st.trn_id - 1].lines.push(
                crate::transaction_line::LineView {
                    account: detail_parts(trim(row)).1,
                    value: crate::money::gr2cents_spec(detail_parts(trim(row)).2[1])->0 as int,
                    sxolio: trim(detail_parts(trim(row)).0),
                },
            )
        }),
{
}

} // verus!
