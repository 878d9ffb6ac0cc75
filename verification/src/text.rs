//! Character-level helpers shared by the parsers and formatters.
//!
//! Text is handled as sequences of `char`; each helper states its result over
//! the spec functions of this module.

use vstd::prelude::*;

verus! {

// ------------------------------------------------------------------ specs

/// `s` begins with `p`.
pub open spec fn has_prefix(s: Seq<char>, p: Seq<char>) -> bool {
    p.len() <= s.len() && s.take(p.len() as int) == p
}

/// `p` occurs somewhere in `s` (`str::contains` with a text pattern).
pub open spec fn occurs_in(p: Seq<char>, s: Seq<char>) -> bool {
    exists|i: int| 0 <= i <= s.len() - p.len() && #[trigger] has_prefix(s.skip(i), p)
}

/// The parts of `s` between the non-overlapping occurrences of a non-empty
/// pattern `p`, found from the left; there is always at least one part.
/// With an empty pattern every character is a part of its own, and the
/// sequence opens and closes with an empty part.
pub open spec fn split_on(s: Seq<char>, p: Seq<char>) -> Seq<Seq<char>>
    decreases s.len(),
{
    if p.len() == 0 {
        seq![Seq::<char>::empty()] + Seq::new(s.len(), |i: int| seq![s[i]]) + seq![
            Seq::<char>::empty(),
        ]
    } else if s.len() == 0 {
        seq![Seq::<char>::empty()]
    } else if has_prefix(s, p) {
        seq![Seq::<char>::empty()] + split_on(s.skip(p.len() as int), p)
    } else {
        prepend_first(seq![s[0]], split_on(s.drop_first(), p))
    }
}

/// `r` with `c` put in front of its first element.
pub open spec fn prepend_first(c: Seq<char>, r: Seq<Seq<char>>) -> Seq<Seq<char>> {
    r.update(0, c + r[0])
}

/// The parts joined together with `sep` between consecutive parts.
pub open spec fn join(parts: Seq<Seq<char>>, sep: Seq<char>) -> Seq<char>
    decreases parts.len(),
{
    if parts.len() == 0 {
        Seq::empty()
    } else if parts.len() == 1 {
        parts[0]
    } else {
        join(parts.drop_last(), sep) + sep + parts.last()
    }
}

/// The characters that `char::is_whitespace` accepts (Unicode `White_Space`).
pub open spec fn is_ws(c: char) -> bool {
    let n = c as u32;
    (0x09 <= n <= 0x0d) || n == 0x20 || n == 0x85 || n == 0xa0 || n == 0x1680 || (0x2000 <= n
        <= 0x200a) || n == 0x2028 || n == 0x2029 || n == 0x202f || n == 0x205f || n == 0x3000
}

/// Words of `s` (maximal runs of non-whitespace), with `cur` the word under way.
pub open spec fn words_from(cur: Seq<char>, s: Seq<char>) -> Seq<Seq<char>>
    decreases s.len(),
{
    if s.len() == 0 {
        if cur.len() == 0 {
            Seq::empty()
        } else {
            seq![cur]
        }
    } else if is_ws(s[0]) {
        if cur.len() == 0 {
            words_from(cur, s.drop_first())
        } else {
            seq![cur] + words_from(Seq::empty(), s.drop_first())
        }
    } else {
        words_from(cur.push(s[0]), s.drop_first())
    }
}

/// The whitespace-separated words of `s`, as `str::split_whitespace` yields them.
pub open spec fn words(s: Seq<char>) -> Seq<Seq<char>> {
    words_from(Seq::empty(), s)
}

/// Number of leading whitespace characters.
pub open spec fn lead_ws(s: Seq<char>) -> nat
    decreases s.len(),
{
    if s.len() > 0 && is_ws(s[0]) {
        1 + lead_ws(s.drop_first())
    } else {
        0
    }
}

/// Number of trailing whitespace characters.
pub open spec fn trail_ws(s: Seq<char>) -> nat
    decreases s.len(),
{
    if s.len() > 0 && is_ws(s.last()) {
        1 + trail_ws(s.drop_last())
    } else {
        0
    }
}

/// `s` without leading and trailing whitespace (`str::trim`).
pub open spec fn trim(s: Seq<char>) -> Seq<char> {
    let a = lead_ws(s);
    if a == s.len() {
        Seq::empty()
    } else {
        s.subrange(a as int, s.len() - trail_ws(s))
    }
}

/// Index of the first occurrence of `c` in `s`, if any.
pub open spec fn find_char(s: Seq<char>, c: char) -> Option<int>
    decreases s.len(),
{
    if s.len() == 0 {
        None
    } else if s[0] == c {
        Some(0)
    } else {
        match find_char(s.drop_first(), c) {
            Some(i) => Some(i + 1),
            None => None,
        }
    }
}

/// `s` with every `c` replaced by `r`.
pub open spec fn replace_char(s: Seq<char>, c: char, r: Seq<char>) -> Seq<char>
    decreases s.len(),
{
    if s.len() == 0 {
        Seq::empty()
    } else {
        replace_char(s.drop_last(), c, r) + (if s.last() == c {
            r
        } else {
            seq![s.last()]
        })
    }
}

/// Strict lexicographic order by code point, which is the order of `str`.
pub open spec fn text_lt(a: Seq<char>, b: Seq<char>) -> bool
    decreases a.len(),
{
    if b.len() == 0 {
        false
    } else if a.len() == 0 {
        true
    } else if a[0] != b[0] {
        a[0] < b[0]
    } else {
        text_lt(a.drop_first(), b.drop_first())
    }
}

// ------------------------------------------------------------------ lemmas

pub proof fn lemma_split_nonempty(s: Seq<char>, p: Seq<char>)
    ensures
        split_on(s, p).len() >= 1,
    decreases s.len(),
{
    if p.len() > 0 && s.len() > 0 {
        if has_prefix(s, p) {
            lemma_split_nonempty(s.skip(p.len() as int), p);
        } else {
            lemma_split_nonempty(s.drop_first(), p);
        }
    }
}

pub proof fn lemma_join_push(parts: Seq<Seq<char>>, x: Seq<char>, sep: Seq<char>)
    requires
        parts.len() >= 1,
    ensures
        join(parts.push(x), sep) == join(parts, sep) + sep + x,
{
    assert(parts.push(x).drop_last() == parts);
}

/// `join` after putting `c` in front of the first part.
pub proof fn lemma_join_prepend(c: Seq<char>, r: Seq<Seq<char>>, sep: Seq<char>)
    requires
        r.len() >= 1,
    ensures
        join(prepend_first(c, r), sep) == c + join(r, sep),
    decreases r.len(),
{
    if r.len() == 1 {
    } else {
        lemma_join_prepend(c, r.drop_last(), sep);
        assert(prepend_first(c, r).drop_last() == prepend_first(c, r.drop_last()));
        assert(c + join(r.drop_last(), sep) + sep + r.last() == c + (join(r.drop_last(), sep)
            + sep + r.last()));
    }
}

/// Joining a two-part front: `[a] + r` joins to `a + sep + join(r)`.
pub proof fn lemma_join_cons(a: Seq<char>, r: Seq<Seq<char>>, sep: Seq<char>)
    requires
        r.len() >= 1,
    ensures
        join(seq![a] + r, sep) == a + sep + join(r, sep),
    decreases r.len(),
{
    let ar = seq![a] + r;
    if r.len() == 1 {
        assert(ar.drop_last() =~= seq![a]);
        assert(join(seq![a], sep) == a);
        assert(ar.last() == r[0]);
        assert(join(ar, sep) == join(ar.drop_last(), sep) + sep + ar.last());
    } else {
        lemma_join_cons(a, r.drop_last(), sep);
        assert(ar.drop_last() =~= seq![a] + r.drop_last());
        assert(ar.last() == r.last());
        assert(join(ar, sep) == join(ar.drop_last(), sep) + sep + ar.last());
        assert(join(r, sep) == join(r.drop_last(), sep) + sep + r.last());
        assert(a + sep + join(r.drop_last(), sep) + sep + r.last() =~= a + sep + (join(
            r.drop_last(),
            sep,
        ) + sep + r.last()));
    }
}

/// Splitting on a pattern and joining the parts back gives the text again.
pub proof fn lemma_join_split(s: Seq<char>, p: Seq<char>)
    ensures
        join(split_on(s, p), p) == s,
    decreases s.len(),
{
    if p.len() == 0 {
        lemma_join_split_empty(s);
    } else if s.len() == 0 {
        assert(split_on(s, p) == seq![Seq::<char>::empty()]);
        assert(join(seq![Seq::<char>::empty()], p) == Seq::<char>::empty());
        assert(s =~= Seq::<char>::empty());
    } else if has_prefix(s, p) {
        let t = s.skip(p.len() as int);
        assert(split_on(s, p) == seq![Seq::<char>::empty()] + split_on(t, p));
        lemma_join_split(t, p);
        lemma_split_nonempty(t, p);
        lemma_join_cons(Seq::empty(), split_on(t, p), p);
        assert(Seq::<char>::empty() + p + t =~= p + t);
        assert(s =~= s.take(p.len() as int) + t);
        assert(join(split_on(s, p), p) == Seq::<char>::empty() + p + join(split_on(t, p), p));
    } else {
        let t = s.drop_first();
        assert(split_on(s, p) == prepend_first(seq![s[0]], split_on(t, p)));
        lemma_join_split(t, p);
        lemma_split_nonempty(t, p);
        lemma_join_prepend(seq![s[0]], split_on(t, p), p);
        assert(s =~= seq![s[0]] + t);
        assert(join(split_on(s, p), p) == seq![s[0]] + join(split_on(t, p), p));
    }
}

proof fn lemma_join_singles(s: Seq<char>)
    ensures
        s.len() >= 1 ==> join(Seq::new(s.len(), |i: int| seq![s[i]]), Seq::empty()) == s,
    decreases s.len(),
{
    if s.len() >= 2 {
        let t = s.drop_last();
        lemma_join_singles(t);
        let a = Seq::new(s.len(), |i: int| seq![s[i]]);
        assert(a.drop_last() == Seq::new(t.len(), |i: int| seq![t[i]]));
        assert(t + Seq::<char>::empty() + seq![s.last()] == s);
    } else if s.len() == 1 {
        assert(seq![s[0]] == s);
    }
}

proof fn lemma_join_split_empty(s: Seq<char>)
    ensures
        join(split_on(s, Seq::empty()), Seq::empty()) == s,
{
    let e = Seq::<char>::empty();
    let singles = Seq::new(s.len(), |i: int| seq![s[i]]);
    let front = seq![e] + singles;
    let parts = front.push(e);
    assert(split_on(s, e) =~= parts);
    if s.len() == 0 {
        assert(front =~= seq![e]);
        assert(join(front, e) == e);
        lemma_join_push(front, e, e);
        assert(e + e + e =~= s);
    } else {
        lemma_join_singles(s);
        lemma_join_cons(e, singles, e);
        lemma_join_push(front, e, e);
        assert(e + e + s =~= s);
        assert(s + e + e =~= s);
    }
}

// ------------------------------------------------------------------ exec

/// Appends one character to a string (`String::push`).
#[verifier::external_body]
pub(crate) fn push_char(s: &mut String, c: char)
    ensures
        final(s)@ == old(s)@.push(c),
{
    s.push(c);
}

/// The characters of a string slice, in order.
pub fn chars_of(s: &str) -> (v: Vec<char>)
    ensures
        v@ == s@,
{
    let mut v: Vec<char> = Vec::new();
    for c in it: s.chars()
        invariant
            v@ == it.seq().take(it.index() as int),
            it.seq() == s@,
    {
        v.push(c);
    }
    v
}

/// A string made of the given characters.
pub fn string_of(v: &[char]) -> (s: String)
    ensures
        s@ == v@,
{
    let mut s = String::new();
    let mut i: usize = 0;
    while i < v.len()
        invariant
            i <= v.len(),
            s@ == v@.take(i as int),
        decreases v.len() - i,
    {
        push_char(&mut s, v[i]);
        i = i + 1;
        assert(s@ == v@.take(i as int));
    }
    assert(v@.take(v.len() as int) == v@);
    s
}

/// Appends the characters of `t` to `v`.
pub fn extend_chars(v: &mut Vec<char>, t: &[char])
    ensures
        final(v)@ == old(v)@ + t@,
{
    let mut i: usize = 0;
    while i < t.len()
        invariant
            i <= t.len(),
            v@ == old(v)@ + t@.take(i as int),
        decreases t.len() - i,
    {
        v.push(t[i]);
        i = i + 1;
        assert(v@ == old(v)@ + t@.take(i as int));
    }
    assert(t@.take(t.len() as int) == t@);
}

/// Whether `s` begins with `p`.
pub fn starts_with(s: &[char], p: &[char]) -> (b: bool)
    ensures
        b == has_prefix(s@, p@),
{
    if p.len() > s.len() {
        return false;
    }
    let mut i: usize = 0;
    while i < p.len()
        invariant
            p.len() <= s.len(),
            i <= p.len(),
            forall|j: int| 0 <= j < i ==> s@[j] == p@[j],
        decreases p.len() - i,
    {
        if s[i] != p[i] {
            assert(s@.take(p.len() as int)[i as int] != p@[i as int]);
            return false;
        }
        i = i + 1;
    }
    assert(s@.take(p.len() as int) == p@);
    true
}

/// Whether `s` begins with `p` at position `at`.
pub fn starts_with_at(s: &[char], at: usize, p: &[char]) -> (b: bool)
    requires
        at <= s.len(),
    ensures
        b == has_prefix(s@.skip(at as int), p@),
{
    if p.len() > s.len() - at {
        return false;
    }
    let mut i: usize = 0;
    while i < p.len()
        invariant
            at <= s.len(),
            p.len() <= s.len() - at,
            i <= p.len(),
            forall|j: int| 0 <= j < i ==> s@[at + j] == p@[j],
        decreases p.len() - i,
    {
        if s[at + i] != p[i] {
            assert(s@.skip(at as int).take(p.len() as int)[i as int] != p@[i as int]);
            return false;
        }
        i = i + 1;
    }
    assert(s@.skip(at as int).take(p.len() as int) == p@);
    true
}

/// Whether `p` occurs somewhere in `s`.
pub fn contains_chars(s: &[char], p: &[char]) -> (b: bool)
    ensures
        b == occurs_in(p@, s@),
{
    if p.len() > s.len() {
        assert forall|i: int| 0 <= i <= s@.len() - p@.len() implies !#[trigger] has_prefix(s@.skip(i), p@) by {}
        return false;
    }
    let last = s.len() - p.len();
    let mut at: usize = 0;
    loop
        invariant
            p.len() <= s.len(),
            last == s.len() - p.len(),
            at <= last,
            forall|i: int| 0 <= i < at ==> !#[trigger] has_prefix(s@.skip(i), p@),
        decreases last - at,
    {
        if starts_with_at(s, at, p) {
            return true;
        }
        if at == last {
            return false;
        }
        at = at + 1;
    }
}

/// Whether two character sequences are equal.
pub fn chars_eq(a: &[char], b: &[char]) -> (r: bool)
    ensures
        r == (a@ == b@),
{
    if a.len() != b.len() {
        return false;
    }
    let r = starts_with(a, b);
    proof {
        assert(a@.take(b.len() as int) =~= a@);
    }
    r
}

/// The parts of `s` around the occurrences of `p`, as `str::split` gives them.
pub fn split_on_exec(s: &[char], p: &[char]) -> (parts: Vec<Vec<char>>)
    ensures
        parts@.len() == split_on(s@, p@).len(),
        forall|i: int| 0 <= i < parts@.len() ==> #[trigger] parts@[i]@ == split_on(s@, p@)[i],
{
    let ghost sp = split_on(s@, p@);
    let mut parts: Vec<Vec<char>> = Vec::new();
    if p.len() == 0 {
        parts.push(Vec::new());
        let mut i: usize = 0;
        while i < s.len()
            invariant
                i <= s.len(),
                parts@.len() == i + 1,
                parts@[0]@ == Seq::<char>::empty(),
                forall|j: int| 1 <= j <= i ==> #[trigger] parts@[j]@ == seq![s@[j - 1]],
            decreases s.len() - i,
        {
            let mut one: Vec<char> = Vec::new();
            one.push(s[i]);
            parts.push(one);
            i = i + 1;
        }
        parts.push(Vec::new());
        assert forall|i: int| 0 <= i < parts@.len() implies #[trigger] parts@[i]@ == sp[i] by {
            if 1 <= i <= s.len() {
                assert(sp[i] == Seq::new(s@.len(), |k: int| seq![s@[k]])[i - 1]);
            }
        }
        return parts;
    }
    let mut cur: Vec<char> = Vec::new();
    let mut i: usize = 0;
    proof {
        lemma_split_nonempty(s@, p@);
        assert(s@.skip(0) == s@);
        assert(prepend_first(Seq::empty(), sp) == sp);
    }
    while i < s.len()
        invariant
            p.len() > 0,
            i <= s.len(),
            sp == split_on(s@, p@),
            split_on(s@.skip(i as int), p@).len() >= 1,
            sp == parts@.map_values(|v: Vec<char>| v@) + prepend_first(
                cur@,
                split_on(s@.skip(i as int), p@),
            ),
        decreases s.len() - i,
    {
        let ghost rest = s@.skip(i as int);
        let ghost old_parts = parts@.map_values(|v: Vec<char>| v@);
        let ghost old_cur = cur@;
        if starts_with_at(s, i, p) {
            let done = cur;
            cur = Vec::new();
            parts.push(done);
            i = i + p.len();
            proof {
                let r = split_on(rest.skip(p.len() as int), p@);
                assert(rest.skip(p.len() as int) == s@.skip(i as int));
                lemma_split_nonempty(rest.skip(p.len() as int), p@);
                assert(split_on(rest, p@) == seq![Seq::<char>::empty()] + r);
                assert(prepend_first(old_cur, split_on(rest, p@)) == seq![old_cur] + r);
                assert(prepend_first(Seq::empty(), r) == r);
                assert(parts@.map_values(|v: Vec<char>| v@) == old_parts.push(old_cur));
                assert(old_parts + (seq![old_cur] + r) == old_parts.push(old_cur) + r);
            }
        } else {
            cur.push(s[i]);
            i = i + 1;
            proof {
                let r = split_on(rest.drop_first(), p@);
                assert(rest.drop_first() == s@.skip(i as int));
                lemma_split_nonempty(rest.drop_first(), p@);
                assert(split_on(rest, p@) == prepend_first(seq![rest[0]], r));
                assert(old_cur + (seq![rest[0]] + r[0]) =~= cur@ + r[0]);
                assert(prepend_first(old_cur, prepend_first(seq![rest[0]], r)) =~= prepend_first(
                    cur@,
                    r,
                ));
                assert(parts@.map_values(|v: Vec<char>| v@) == old_parts);
            }
        }
    }
    proof {
        assert(s@.skip(i as int).len() == 0);
        assert(split_on(s@.skip(i as int), p@) == seq![Seq::<char>::empty()]);
        assert(prepend_first(cur@, seq![Seq::<char>::empty()]) == seq![cur@]);
    }
    let ghost before = parts@.map_values(|v: Vec<char>| v@);
    parts.push(cur);
    assert forall|k: int| 0 <= k < parts@.len() implies #[trigger] parts@[k]@ == sp[k] by {
        if k < before.len() {
            assert(before[k] == parts@[k]@);
        }
    }
    parts
}

/// Whether `c` is whitespace (`char::is_whitespace`).
pub fn is_whitespace(c: char) -> (b: bool)
    ensures
        b == is_ws(c),
{
    let n = c as u32;
    (0x09 <= n && n <= 0x0d) || n == 0x20 || n == 0x85 || n == 0xa0 || n == 0x1680 || (0x2000
        <= n && n <= 0x200a) || n == 0x2028 || n == 0x2029 || n == 0x202f || n == 0x205f || n
        == 0x3000
}

/// The whitespace-separated words of `s` (`str::split_whitespace`).
pub fn split_words(s: &[char]) -> (ws: Vec<Vec<char>>)
    ensures
        ws@.len() == words(s@).len(),
        forall|i: int| 0 <= i < ws@.len() ==> #[trigger] ws@[i]@ == words(s@)[i],
{
    let mut ws: Vec<Vec<char>> = Vec::new();
    let mut cur: Vec<char> = Vec::new();
    let mut i: usize = 0;
    proof {
        assert(s@.skip(0) == s@);
    }
    while i < s.len()
        invariant
            i <= s.len(),
            words(s@) == ws@.map_values(|v: Vec<char>| v@) + words_from(cur@, s@.skip(i as int)),
        decreases s.len() - i,
    {
        let ghost rest = s@.skip(i as int);
        let ghost old_ws = ws@.map_values(|v: Vec<char>| v@);
        proof {
            assert(rest.drop_first() =~= s@.skip(i + 1));
        }
        if is_whitespace(s[i]) {
            if cur.len() > 0 {
                let done = cur;
                cur = Vec::new();
                ws.push(done);
                proof {
                    assert(ws@.map_values(|v: Vec<char>| v@) =~= old_ws.push(done@));
                    assert(old_ws + (seq![done@] + words_from(Seq::empty(), rest.drop_first()))
                        =~= old_ws.push(done@) + words_from(Seq::empty(), rest.drop_first()));
                }
            }
        } else {
            cur.push(s[i]);
            proof {
                assert(ws@.map_values(|v: Vec<char>| v@) =~= old_ws);
            }
        }
        i = i + 1;
    }
    let ghost before = ws@.map_values(|v: Vec<char>| v@);
    if cur.len() > 0 {
        ws.push(cur);
        proof {
            assert(ws@.map_values(|v: Vec<char>| v@) =~= before + words_from(cur@, s@.skip(i as int)));
        }
    } else {
        proof {
            assert(before + words_from(cur@, s@.skip(i as int)) =~= before);
        }
    }
    proof {
        assert(ws@.map_values(|v: Vec<char>| v@) =~= words(s@));
        assert forall|k: int| 0 <= k < ws@.len() implies #[trigger] ws@[k]@ == words(s@)[k] by {
            assert(ws@.map_values(|v: Vec<char>| v@)[k] == ws@[k]@);
        }
    }
    ws
}

proof fn lemma_lead_ws_bound(s: Seq<char>)
    ensures
        lead_ws(s) <= s.len(),
        forall|j: int| 0 <= j < lead_ws(s) ==> is_ws(#[trigger] s[j]),
        lead_ws(s) < s.len() ==> !is_ws(s[lead_ws(s) as int]),
    decreases s.len(),
{
    if s.len() > 0 && is_ws(s[0]) {
        lemma_lead_ws_bound(s.drop_first());
        assert forall|j: int| 0 <= j < lead_ws(s) implies is_ws(#[trigger] s[j]) by {
            if j > 0 {
                assert(s[j] == s.drop_first()[j - 1]);
            }
        }
    }
}

proof fn lemma_trail_ws_bound(s: Seq<char>)
    ensures
        trail_ws(s) <= s.len(),
        forall|j: int| s.len() - trail_ws(s) <= j < s.len() ==> is_ws(#[trigger] s[j]),
        trail_ws(s) < s.len() ==> !is_ws(s[s.len() - trail_ws(s) - 1]),
    decreases s.len(),
{
    if s.len() > 0 && is_ws(s.last()) {
        lemma_trail_ws_bound(s.drop_last());
        assert forall|j: int| s.len() - trail_ws(s) <= j < s.len() implies is_ws(
            #[trigger] s[j],
        ) by {
            if j < s.len() - 1 {
                assert(s[j] == s.drop_last()[j]);
            }
        }
    }
}

/// Characterisation of the leading-whitespace count by position.
proof fn lemma_lead_ws_is(s: Seq<char>, a: int)
    requires
        0 <= a <= s.len(),
        forall|j: int| 0 <= j < a ==> is_ws(#[trigger] s[j]),
        a < s.len() ==> !is_ws(s[a]),
    ensures
        lead_ws(s) == a,
    decreases a,
{
    if a > 0 {
        assert forall|j: int| 0 <= j < a - 1 implies is_ws(#[trigger] s.drop_first()[j]) by {
            assert(s.drop_first()[j] == s[j + 1]);
        }
        lemma_lead_ws_is(s.drop_first(), a - 1);
    }
}

proof fn lemma_trail_ws_is(s: Seq<char>, t: int)
    requires
        0 <= t <= s.len(),
        forall|j: int| s.len() - t <= j < s.len() ==> is_ws(#[trigger] s[j]),
        t < s.len() ==> !is_ws(s[s.len() - t - 1]),
    ensures
        trail_ws(s) == t,
    decreases t,
{
    if t > 0 {
        assert forall|j: int| s.len() - 1 - (t - 1) <= j < s.len() - 1 implies is_ws(
            #[trigger] s.drop_last()[j],
        ) by {
            assert(s.drop_last()[j] == s[j]);
        }
        lemma_trail_ws_is(s.drop_last(), t - 1);
    }
}

/// `s` without leading and trailing whitespace (`str::trim`).
pub fn trim_chars(s: &[char]) -> (t: Vec<char>)
    ensures
        t@ == trim(s@),
{
    let mut a: usize = 0;
    while a < s.len() && is_whitespace(s[a])
        invariant
            a <= s.len(),
            forall|j: int| 0 <= j < a ==> is_ws(#[trigger] s@[j]),
        decreases s.len() - a,
    {
        a = a + 1;
    }
    proof {
        lemma_lead_ws_is(s@, a as int);
    }
    if a == s.len() {
        return Vec::new();
    }
    let mut b: usize = s.len();
    while b > a && is_whitespace(s[b - 1])
        invariant
            a < s.len(),
            !is_ws(s@[a as int]),
            a <= b <= s.len(),
            forall|j: int| b <= j < s.len() ==> is_ws(#[trigger] s@[j]),
        decreases b,
    {
        b = b - 1;
    }
    proof {
        lemma_trail_ws_is(s@, s.len() - b);
    }
    let mut t: Vec<char> = Vec::new();
    let mut i: usize = a;
    while i < b
        invariant
            a <= i <= b <= s.len(),
            t@ == s@.subrange(a as int, i as int),
        decreases b - i,
    {
        t.push(s[i]);
        i = i + 1;
        assert(t@ =~= s@.subrange(a as int, i as int));
    }
    t
}

pub proof fn lemma_find_char(s: Seq<char>, c: char)
    ensures
        find_char(s, c) matches Some(i) ==> 0 <= i < s.len() && s[i] == c && forall|j: int|
            0 <= j < i ==> s[j] != c,
        find_char(s, c) is None ==> forall|j: int| 0 <= j < s.len() ==> s[j] != c,
    decreases s.len(),
{
    if s.len() > 0 && s[0] != c {
        lemma_find_char(s.drop_first(), c);
        if find_char(s, c) is None {
            assert forall|j: int| 0 <= j < s.len() implies s[j] != c by {
                if j > 0 {
                    assert(s[j] == s.drop_first()[j - 1]);
                }
            }
        } else {
            let i = find_char(s, c)->0;
            assert forall|j: int| 0 <= j < i implies s[j] != c by {
                if j > 0 {
                    assert(s[j] == s.drop_first()[j - 1]);
                }
            }
        }
    }
}

/// Converse of `lemma_find_char`: the first position holding `c` is what is found.
pub proof fn lemma_find_char_is(s: Seq<char>, c: char, i: Option<int>)
    requires
        i matches Some(k) ==> 0 <= k < s.len() && s[k] == c && forall|j: int|
            0 <= j < k ==> s[j] != c,
        i is None ==> forall|j: int| 0 <= j < s.len() ==> s[j] != c,
    ensures
        find_char(s, c) == i,
{
    lemma_find_char(s, c);
    match (find_char(s, c), i) {
        (Some(a), Some(b)) => {
            if a < b {
                assert(s[a] != c);
            }
            if b < a {
                assert(s[b] != c);
            }
        },
        (Some(a), None) => {
            assert(s[a] != c);
        },
        (None, Some(b)) => {
            assert(s[b] != c);
        },
        (None, None) => {},
    }
}

/// Position of the first `c` in `s`, if any (`str::find` with a `char`).
pub fn find_char_exec(s: &[char], c: char) -> (r: Option<usize>)
    ensures
        r matches Some(i) ==> find_char(s@, c) == Some(i as int) && i < s@.len() && s@[i as int] == c
            && forall|j: int| 0 <= j < i ==> s@[j] != c,
        r is None ==> find_char(s@, c) is None && forall|j: int| 0 <= j < s@.len() ==> s@[j] != c,
{
    let mut i: usize = 0;
    while i < s.len()
        invariant
            i <= s.len(),
            forall|j: int| 0 <= j < i ==> s@[j] != c,
        decreases s.len() - i,
    {
        if s[i] == c {
            proof {
                lemma_find_char_is(s@, c, Some(i as int));
            }
            return Some(i);
        }
        i = i + 1;
    }
    proof {
        lemma_find_char_is(s@, c, None);
    }
    None
}

/// `s` with every `c` replaced by `r` (`str::replace` with a `char` pattern).
pub fn replace_char_exec(s: &[char], c: char, r: &[char]) -> (t: Vec<char>)
    ensures
        t@ == replace_char(s@, c, r@),
{
    let mut t: Vec<char> = Vec::new();
    let mut i: usize = 0;
    while i < s.len()
        invariant
            i <= s.len(),
            t@ == replace_char(s@.take(i as int), c, r@),
        decreases s.len() - i,
    {
        proof {
            assert(s@.take(i + 1).drop_last() =~= s@.take(i as int));
        }
        if s[i] == c {
            extend_chars(&mut t, r);
        } else {
            t.push(s[i]);
        }
        i = i + 1;
    }
    assert(s@.take(s.len() as int) =~= s@);
    t
}

/// Whether `a` sorts strictly before `b` (code-point order, as `str` orders).
pub fn text_less(a: &[char], b: &[char]) -> (r: bool)
    ensures
        r == text_lt(a@, b@),
{
    let mut i: usize = 0;
    proof {
        assert(a@.skip(0) =~= a@);
        assert(b@.skip(0) =~= b@);
    }
    while i < a.len() && i < b.len() && a[i] == b[i]
        invariant
            i <= a.len(),
            i <= b.len(),
            text_lt(a@, b@) == text_lt(a@.skip(i as int), b@.skip(i as int)),
        decreases a.len() - i,
    {
        proof {
            let x = a@.skip(i as int);
            let y = b@.skip(i as int);
            assert(x.drop_first() =~= a@.skip(i + 1));
            assert(y.drop_first() =~= b@.skip(i + 1));
        }
        i = i + 1;
    }
    if i == b.len() {
        false
    } else if i == a.len() {
        true
    } else {
        a[i] < b[i]
    }
}

/// Whether two strings hold the same text.
pub fn str_eq(a: &str, b: &str) -> (r: bool)
    ensures
        r == (a@ == b@),
{
    let x = chars_of(a);
    let y = chars_of(b);
    chars_eq(&x, &y)
}

/// Whether `s` begins with `p` (`str::starts_with` with a `&str` pattern).
pub fn str_starts_with(s: &str, p: &str) -> (r: bool)
    ensures
        r == has_prefix(s@, p@),
{
    let x = chars_of(s);
    let y = chars_of(p);
    starts_with(&x, &y)
}

/// A copy of a string slice as an owned `String`.
pub fn to_owned_string(s: &str) -> (r: String)
    ensures
        r@ == s@,
{
    let v = chars_of(s);
    string_of(&v)
}

/// `a` followed by `b`.
pub fn concat_str(a: &str, b: &str) -> (r: String)
    ensures
        r@ == a@ + b@,
{
    let mut v = chars_of(a);
    let w = chars_of(b);
    extend_chars(&mut v, &w);
    string_of(&v)
}

pub proof fn lemma_text_lt_irrefl(a: Seq<char>)
    ensures
        !text_lt(a, a),
    decreases a.len(),
{
    if a.len() > 0 {
        lemma_text_lt_irrefl(a.drop_first());
    }
}

pub proof fn lemma_text_lt_trans(a: Seq<char>, b: Seq<char>, c: Seq<char>)
    requires
        text_lt(a, b),
        text_lt(b, c),
    ensures
        text_lt(a, c),
    decreases a.len(),
{
    if a.len() > 0 && b.len() > 0 && c.len() > 0 && a[0] == b[0] && b[0] == c[0] {
        lemma_text_lt_trans(a.drop_first(), b.drop_first(), c.drop_first());
    }
}

pub proof fn lemma_text_lt_total(a: Seq<char>, b: Seq<char>)
    requires
        a != b,
    ensures
        text_lt(a, b) || text_lt(b, a),
    decreases a.len(),
{
    if a.len() > 0 && b.len() > 0 && a[0] == b[0] {
        if a.drop_first() == b.drop_first() {
            assert(a =~= seq![a[0]] + a.drop_first());
            assert(b =~= seq![b[0]] + b.drop_first());
        }
        lemma_text_lt_total(a.drop_first(), b.drop_first());
    } else if a.len() > 0 && b.len() > 0 {
    } else if a.len() == 0 && b.len() == 0 {
        assert(a =~= b);
    }
}

pub proof fn lemma_text_lt_asym(a: Seq<char>, b: Seq<char>)
    requires
        text_lt(a, b),
    ensures
        !text_lt(b, a),
{
    if text_lt(b, a) {
        lemma_text_lt_trans(a, b, a);
        lemma_text_lt_irrefl(a);
    }
}

} // verus!
