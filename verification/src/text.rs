//! Character-level text utilities: the std string operations the board
//! parser relies on, stated over `Seq<char>` and implemented on `[char]`.
use vstd::prelude::*;

verus! {

// ───────────── conversions ─────────────

/// The characters of `s`, in order.
pub fn chars_of(s: &str) -> (r: Vec<char>)
    ensures
        r@ == s@,
{
    let mut out: Vec<char> = Vec::new();
    for c in it: s.chars()
        invariant
            out@ == it.seq().take(it.index() as int),
            it.seq() == s@,
    {
        out.push(c);
    }
    out
}

/// `String::from_iter` over a slice of characters: the string made of exactly
/// those characters, in order.
#[verifier::external_body]
pub(crate) fn string_of(cs: &[char]) -> (r: String)
    ensures
        r@ == cs@,
{
    String::from_iter(cs)
}

/// A copy of `s[a..b]`.
pub fn slice_of(s: &[char], a: usize, b: usize) -> (r: Vec<char>)
    requires
        a <= b <= s@.len(),
    ensures
        r@ == s@.subrange(a as int, b as int),
{
    let mut out: Vec<char> = Vec::new();
    let mut i = a;
    while i < b
        invariant
            a <= i <= b <= s@.len(),
            out@ == s@.subrange(a as int, i as int),
        decreases b - i,
    {
        out.push(s[i]);
        i = i + 1;
        assert(out@ =~= s@.subrange(a as int, i as int));
    }
    out
}

/// `a` followed by `b`.
pub fn concat(a: &[char], b: &[char]) -> (r: Vec<char>)
    ensures
        r@ == a@ + b@,
{
    let mut out = slice_of(a, 0, a.len());
    let mut i: usize = 0;
    while i < b.len()
        invariant
            i <= b@.len(),
            out@ == a@ + b@.subrange(0, i as int),
        decreases b@.len() - i,
    {
        out.push(b[i]);
        i = i + 1;
        assert(out@ =~= a@ + b@.subrange(0, i as int));
    }
    assert(b@.subrange(0, b@.len() as int) =~= b@);
    out
}

// ───────────── whitespace and trimming ─────────────

/// The Unicode `White_Space` property, which `char::is_whitespace` tests.
pub open spec fn is_ws(c: char) -> bool {
    ('\u{9}' <= c && c <= '\u{d}') || c == ' ' || c == '\u{85}' || c == '\u{a0}'
        || c == '\u{1680}' || ('\u{2000}' <= c && c <= '\u{200a}') || c == '\u{2028}'
        || c == '\u{2029}' || c == '\u{202f}' || c == '\u{205f}' || c == '\u{3000}'
}

/// Whether `c` is white space.
pub fn is_whitespace(c: char) -> (b: bool)
    ensures
        b == is_ws(c),
{
    ('\u{9}' <= c && c <= '\u{d}') || c == ' ' || c == '\u{85}' || c == '\u{a0}'
        || c == '\u{1680}' || ('\u{2000}' <= c && c <= '\u{200a}') || c == '\u{2028}'
        || c == '\u{2029}' || c == '\u{202f}' || c == '\u{205f}' || c == '\u{3000}'
}

/// `s` without its leading white space.
pub open spec fn trim_start(s: Seq<char>) -> Seq<char>
    decreases s.len(),
{
    if s.len() > 0 && is_ws(s[0]) {
        trim_start(s.drop_first())
    } else {
        s
    }
}

/// `s` without its trailing white space.
pub open spec fn trim_end(s: Seq<char>) -> Seq<char>
    decreases s.len(),
{
    if s.len() > 0 && is_ws(s.last()) {
        trim_end(s.drop_last())
    } else {
        s
    }
}

/// `s` without leading and trailing white space.
pub open spec fn trim(s: Seq<char>) -> Seq<char> {
    trim_end(trim_start(s))
}

/// Where the leading white space of `s[lo..]` ends.
fn skip_ws(s: &[char], lo: usize) -> (i: usize)
    requires
        lo <= s@.len(),
    ensures
        lo <= i <= s@.len(),
        trim_start(s@.subrange(lo as int, s@.len() as int)) == s@.subrange(i as int, s@.len() as int),
{
    let mut i = lo;
    while i < s.len() && is_whitespace(s[i])
        invariant
            lo <= i <= s@.len(),
            trim_start(s@.subrange(lo as int, s@.len() as int)) == trim_start(
                s@.subrange(i as int, s@.len() as int),
            ),
        decreases s@.len() - i,
    {
        assert(s@.subrange(i as int, s@.len() as int).drop_first() =~= s@.subrange(
            i + 1,
            s@.len() as int,
        ));
        i = i + 1;
    }
    i
}

/// Where the trailing white space of `s[lo..hi]` starts.
fn back_ws(s: &[char], lo: usize, hi: usize) -> (j: usize)
    requires
        lo <= hi <= s@.len(),
    ensures
        lo <= j <= hi,
        trim_end(s@.subrange(lo as int, hi as int)) == s@.subrange(lo as int, j as int),
{
    let mut j = hi;
    while j > lo && is_whitespace(s[j - 1])
        invariant
            lo <= j <= hi <= s@.len(),
            trim_end(s@.subrange(lo as int, hi as int)) == trim_end(
                s@.subrange(lo as int, j as int),
            ),
        decreases j,
    {
        assert(s@.subrange(lo as int, j as int).drop_last() =~= s@.subrange(
            lo as int,
            j - 1,
        ));
        j = j - 1;
    }
    j
}

/// `s.trim_start()`.
pub fn trim_start_of(s: &[char]) -> (r: Vec<char>)
    ensures
        r@ == trim_start(s@),
{
    let i = skip_ws(s, 0);
    assert(s@.subrange(0, s@.len() as int) =~= s@);
    slice_of(s, i, s.len())
}

/// `s.trim_end()`.
pub fn trim_end_of(s: &[char]) -> (r: Vec<char>)
    ensures
        r@ == trim_end(s@),
{
    let j = back_ws(s, 0, s.len());
    assert(s@.subrange(0, s@.len() as int) =~= s@);
    slice_of(s, 0, j)
}

/// `s.trim()`.
pub fn trim_of(s: &[char]) -> (r: Vec<char>)
    ensures
        r@ == trim(s@),
{
    let i = skip_ws(s, 0);
    assert(s@.subrange(0, s@.len() as int) =~= s@);
    let j = back_ws(s, i, s.len());
    slice_of(s, i, j)
}

// ───────────── prefixes, suffixes, search ─────────────

/// `s` begins with `p`.
pub open spec fn starts_with(s: Seq<char>, p: Seq<char>) -> bool {
    p.len() <= s.len() && s.subrange(0, p.len() as int) == p
}

/// `s` ends with `p`.
pub open spec fn ends_with(s: Seq<char>, p: Seq<char>) -> bool {
    p.len() <= s.len() && s.subrange(s.len() - p.len(), s.len() as int) == p
}

/// `p` occurs in `s` at position `i`.
pub open spec fn occurs_at(s: Seq<char>, p: Seq<char>, i: int) -> bool {
    0 <= i && i + p.len() <= s.len() && s.subrange(i, i + p.len()) == p
}

/// The first position at or after `k` where `p` occurs in `s`.
pub open spec fn find_from(s: Seq<char>, p: Seq<char>, k: int) -> Option<int>
    decreases s.len() + 1 - k,
{
    if k < 0 || k + p.len() > s.len() {
        None
    } else if occurs_at(s, p, k) {
        Some(k)
    } else {
        find_from(s, p, k + 1)
    }
}

/// `s.find(p)`: the first position where `p` occurs in `s`.
pub open spec fn find(s: Seq<char>, p: Seq<char>) -> Option<int> {
    find_from(s, p, 0)
}

/// `s.contains(p)`.
pub open spec fn contains(s: Seq<char>, p: Seq<char>) -> bool {
    find(s, p) is Some
}

/// `s.split_once(p)`: the text before and after the first occurrence of `p`.
pub open spec fn split_once(s: Seq<char>, p: Seq<char>) -> Option<(Seq<char>, Seq<char>)> {
    match find(s, p) {
        Some(i) => Some((s.subrange(0, i), s.subrange(i + p.len(), s.len() as int))),
        None => None,
    }
}

/// Whether `p` occurs in `s` at position `i`.
pub fn matches_at(s: &[char], p: &[char], i: usize) -> (b: bool)
    ensures
        b == occurs_at(s@, p@, i as int),
{
    if i > s.len() || p.len() > s.len() - i {
        return false;
    }
    let mut k: usize = 0;
    while k < p.len()
        invariant
            i + p@.len() <= s@.len() <= usize::MAX,
            k <= p@.len(),
            forall|t: int| 0 <= t < k ==> s@[i + t] == p@[t],
        decreases p@.len() - k,
    {
        if s[i + k] != p[k] {
            assert(s@.subrange(i as int, i + p@.len())[k as int] != p@[k as int]);
            return false;
        }
        k = k + 1;
    }
    assert(s@.subrange(i as int, i + p@.len()) =~= p@);
    true
}

/// `s` begins with `p`.
pub fn has_prefix(s: &[char], p: &[char]) -> (b: bool)
    ensures
        b == starts_with(s@, p@),
{
    matches_at(s, p, 0)
}

/// `s` ends with `p`.
pub fn has_suffix(s: &[char], p: &[char]) -> (b: bool)
    ensures
        b == ends_with(s@, p@),
{
    if p.len() > s.len() {
        false
    } else {
        matches_at(s, p, s.len() - p.len())
    }
}

/// A position found by `find_from` is where `p` occurs.
pub proof fn lemma_find_from_range(s: Seq<char>, p: Seq<char>, k: int)
    ensures
        find_from(s, p, k) matches Some(i) ==> k <= i && occurs_at(s, p, i),
    decreases s.len() + 1 - k,
{
    if !(k < 0 || k + p.len() > s.len()) && !occurs_at(s, p, k) {
        lemma_find_from_range(s, p, k + 1);
    }
}

proof fn lemma_find_from_skip(s: Seq<char>, p: Seq<char>, k: int)
    requires
        0 <= k,
        k + p.len() <= s.len(),
        !occurs_at(s, p, k),
    ensures
        find_from(s, p, k) == find_from(s, p, k + 1),
{
}

/// The first position at or after `k` where `p` occurs in `s`.
pub fn find_in(s: &[char], p: &[char], k: usize) -> (r: Option<usize>)
    ensures
        r matches Some(i) ==> find_from(s@, p@, k as int) == Some(i as int),
        r is None ==> find_from(s@, p@, k as int) is None,
{
    if p.len() > s.len() || k > s.len() - p.len() {
        return None;
    }
    let last = s.len() - p.len();
    let mut i = k;
    while i <= last
        invariant
            k <= i,
            last + p@.len() == s@.len(),
            find_from(s@, p@, k as int) == find_from(s@, p@, i as int),
        decreases last + 1 - i,
    {
        if matches_at(s, p, i) {
            return Some(i);
        }
        proof {
            lemma_find_from_skip(s@, p@, i as int);
        }
        if i == last {
            return None;
        }
        i = i + 1;
    }
    None
}

// ───────────── lines ─────────────

/// The position of the first `'\n'` at or after `k`, or the length of `s`.
pub open spec fn nl_pos(s: Seq<char>, k: int) -> int
    decreases s.len() - k,
{
    if k < 0 || k >= s.len() {
        s.len() as int
    } else if s[k] == '\n' {
        k
    } else {
        nl_pos(s, k + 1)
    }
}

/// `t` without one trailing `'\r'`.
pub open spec fn strip_cr(t: Seq<char>) -> Seq<char> {
    if t.len() > 0 && t.last() == '\r' {
        t.drop_last()
    } else {
        t
    }
}

pub proof fn lemma_nl_pos_bounds(s: Seq<char>, k: int)
    requires
        0 <= k,
    ensures
        k <= s.len() ==> k <= nl_pos(s, k) <= s.len(),
        k > s.len() ==> nl_pos(s, k) == s.len(),
        nl_pos(s, k) < s.len() ==> s[nl_pos(s, k)] == '\n',
    decreases s.len() - k,
{
    if k < s.len() && s[k] != '\n' {
        lemma_nl_pos_bounds(s, k + 1);
    }
}

/// `s.lines()`: the lines of `s`, split at `'\n'`, each without its line
/// ending (`"\n"` or `"\r\n"`); a final line ending does not start another line.
pub open spec fn lines(s: Seq<char>) -> Seq<Seq<char>>
    decreases s.len(),
{
    if s.len() == 0 {
        Seq::empty()
    } else {
        let e = nl_pos(s, 0);
        if e >= s.len() {
            seq![s]
        } else {
            proof {
                lemma_nl_pos_bounds(s, 0);
            }
            seq![strip_cr(s.subrange(0, e))] + lines(s.subrange(e + 1, s.len() as int))
        }
    }
}

/// The views of a vector of character vectors.
pub open spec fn views(v: Seq<Vec<char>>) -> Seq<Seq<char>> {
    v.map_values(|l: Vec<char>| l@)
}

proof fn lemma_nl_pos_shift(s: Seq<char>, pos: int, e: int, k: int)
    requires
        0 <= pos <= k <= e <= s.len(),
        forall|t: int| k <= t < e ==> s[t] != '\n',
        e < s.len() ==> s[e] == '\n',
    ensures
        nl_pos(s.subrange(pos, s.len() as int), k - pos) == e - pos,
    decreases e - k,
{
    if k < e {
        lemma_nl_pos_shift(s, pos, e, k + 1);
    }
}

/// `s.lines()`, each line as its own vector.
pub fn split_lines(s: &[char]) -> (r: Vec<Vec<char>>)
    ensures
        views(r@) == lines(s@),
{
    let n = s.len();
    let mut out: Vec<Vec<char>> = Vec::new();
    let mut pos: usize = 0;
    assert(s@.subrange(0, n as int) =~= s@);
    while pos < n
        invariant
            n == s@.len(),
            pos <= n,
            views(out@) + lines(s@.subrange(pos as int, n as int)) == lines(s@),
        decreases n - pos,
    {
        let mut e = pos;
        while e < n && s[e] != '\n'
            invariant
                pos <= e <= n == s@.len(),
                forall|t: int| pos <= t < e ==> s@[t] != '\n',
            decreases n - e,
        {
            e = e + 1;
        }
        let ghost rest = s@.subrange(pos as int, n as int);
        proof {
            lemma_nl_pos_shift(s@, pos as int, e as int, pos as int);
        }
        let line = if e < n && e > pos && s[e - 1] == '\r' {
            slice_of(s, pos, e - 1)
        } else {
            slice_of(s, pos, e)
        };
        proof {
            assert(rest.subrange(0, e - pos) =~= s@.subrange(pos as int, e as int));
            if e < n {
                assert(rest.subrange(e - pos + 1, rest.len() as int) =~= s@.subrange(
                    e + 1,
                    n as int,
                ));
                assert(line@ == strip_cr(s@.subrange(pos as int, e as int)));
            } else {
                assert(line@ == rest);
            }
        }
        let ghost before = views(out@);
        out.push(line);
        assert(views(out@) =~= before.push(line@));
        if e < n {
            pos = e + 1;
        } else {
            pos = n;
        }
        assert(views(out@) + lines(s@.subrange(pos as int, n as int)) =~= lines(s@));
    }
    assert(s@.subrange(n as int, n as int) =~= Seq::<char>::empty());
    assert(views(out@) =~= views(out@) + Seq::<Seq<char>>::empty());
    out
}

} // verus!

verus! {

// ───────────── equality, repeated stripping, tokens ─────────────

/// Whether `a` and `b` hold the same characters.
pub fn same_chars(a: &[char], b: &[char]) -> (r: bool)
    ensures
        r == (a@ == b@),
{
    if a.len() != b.len() {
        return false;
    }
    let r = matches_at(a, b, 0);
    proof {
        assert(a@.subrange(0, b@.len() as int) =~= a@);
    }
    r
}

/// `s.trim_start_matches(set)` for a set of characters.
pub open spec fn trim_start_chars(s: Seq<char>, set: Seq<char>) -> Seq<char>
    decreases s.len(),
{
    if s.len() > 0 && set.contains(s[0]) {
        trim_start_chars(s.drop_first(), set)
    } else {
        s
    }
}

/// `s.trim_start_matches(p)` for a string pattern: `p` removed from the front
/// as many times as it is there.
pub open spec fn trim_start_pat(s: Seq<char>, p: Seq<char>) -> Seq<char>
    decreases s.len(),
{
    if p.len() > 0 && starts_with(s, p) {
        trim_start_pat(s.subrange(p.len() as int, s.len() as int), p)
    } else {
        s
    }
}

/// `s.trim_end_matches(p)` for a string pattern: `p` removed from the end as
/// many times as it is there.
pub open spec fn trim_end_pat(s: Seq<char>, p: Seq<char>) -> Seq<char>
    decreases s.len(),
{
    if p.len() > 0 && ends_with(s, p) {
        trim_end_pat(s.subrange(0, s.len() - p.len()), p)
    } else {
        s
    }
}

/// Whether `c` is one of `set`.
pub fn in_set(set: &[char], c: char) -> (r: bool)
    ensures
        r == set@.contains(c),
{
    let mut i: usize = 0;
    while i < set.len()
        invariant
            i <= set@.len(),
            forall|k: int| 0 <= k < i ==> set@[k] != c,
        decreases set@.len() - i,
    {
        if set[i] == c {
            return true;
        }
        i = i + 1;
    }
    false
}

/// `s.trim_start_matches(set)`.
pub fn trim_start_chars_of(s: &[char], set: &[char]) -> (r: Vec<char>)
    ensures
        r@ == trim_start_chars(s@, set@),
{
    let mut i: usize = 0;
    assert(s@.subrange(0, s@.len() as int) =~= s@);
    while i < s.len() && in_set(set, s[i])
        invariant
            i <= s@.len(),
            trim_start_chars(s@, set@) == trim_start_chars(
                s@.subrange(i as int, s@.len() as int),
                set@,
            ),
        decreases s@.len() - i,
    {
        assert(s@.subrange(i as int, s@.len() as int).drop_first() =~= s@.subrange(
            i + 1,
            s@.len() as int,
        ));
        i = i + 1;
    }
    slice_of(s, i, s.len())
}

/// `s.trim_start_matches(p)`.
pub fn trim_start_pat_of(s: &[char], p: &[char]) -> (r: Vec<char>)
    ensures
        r@ == trim_start_pat(s@, p@),
{
    let mut i: usize = 0;
    let n = s.len();
    assert(s@.subrange(0, s@.len() as int) =~= s@);
    loop
        invariant
            i <= s@.len() == n,
            trim_start_pat(s@, p@) == trim_start_pat(s@.subrange(i as int, s@.len() as int), p@),
        ensures
            i <= s@.len(),
            trim_start_pat(s@, p@) == trim_start_pat(s@.subrange(i as int, s@.len() as int), p@),
            !(p@.len() > 0 && occurs_at(s@, p@, i as int)),
        decreases s@.len() - i,
    {
        if p.len() == 0 || !matches_at(s, p, i) {
            break;
        }
        let ghost rest = s@.subrange(i as int, s@.len() as int);
        assert(rest.subrange(0, p@.len() as int) =~= s@.subrange(i as int, i + p@.len()));
        assert(rest.subrange(p@.len() as int, rest.len() as int) =~= s@.subrange(
            i + p@.len(),
            s@.len() as int,
        ));
        i = i + p.len();
    }
    proof {
        let rest = s@.subrange(i as int, s@.len() as int);
        if p@.len() > 0 && starts_with(rest, p@) {
            assert(rest.subrange(0, p@.len() as int) =~= s@.subrange(i as int, i + p@.len()));
        }
    }
    slice_of(s, i, s.len())
}

/// `s.trim_end_matches(p)`.
pub fn trim_end_pat_of(s: &[char], p: &[char]) -> (r: Vec<char>)
    ensures
        r@ == trim_end_pat(s@, p@),
{
    let mut j: usize = s.len();
    assert(s@.subrange(0, s@.len() as int) =~= s@);
    while p.len() > 0 && p.len() <= j && matches_at(s, p, j - p.len())
        invariant
            j <= s@.len(),
            trim_end_pat(s@, p@) == trim_end_pat(s@.subrange(0, j as int), p@),
        decreases j,
    {
        let ghost pre = s@.subrange(0, j as int);
        assert(pre.subrange(pre.len() - p@.len(), pre.len() as int) =~= s@.subrange(
            j - p@.len(),
            j as int,
        ));
        assert(pre.subrange(0, pre.len() - p@.len()) =~= s@.subrange(0, j - p@.len()));
        j = j - p.len();
    }
    proof {
        let pre = s@.subrange(0, j as int);
        if p@.len() > 0 && ends_with(pre, p@) {
            assert(pre.subrange(pre.len() - p@.len(), pre.len() as int) =~= s@.subrange(
                j - p@.len(),
                j as int,
            ));
        }
    }
    slice_of(s, 0, j)
}

/// The first white-space separated token of `s` (`s.split_whitespace().next()`),
/// empty when `s` is all white space.
pub open spec fn first_token(s: Seq<char>) -> Seq<char> {
    let t = trim_start(s);
    t.subrange(0, ws_pos(t, 0))
}

/// The position of the first white-space character at or after `k`, or the length.
pub open spec fn ws_pos(s: Seq<char>, k: int) -> int
    decreases s.len() - k,
{
    if k < 0 || k >= s.len() {
        s.len() as int
    } else if is_ws(s[k]) {
        k
    } else {
        ws_pos(s, k + 1)
    }
}

/// The text after the first token (the rest that `split_whitespace` continues on).
pub open spec fn after_first_token(s: Seq<char>) -> Seq<char> {
    let t = trim_start(s);
    t.subrange(ws_pos(t, 0), t.len() as int)
}

proof fn lemma_ws_pos_step(s: Seq<char>, k: int)
    requires
        0 <= k < s.len(),
        !is_ws(s[k]),
    ensures
        ws_pos(s, k) == ws_pos(s, k + 1),
{
}

proof fn lemma_ws_pos_bounds(s: Seq<char>, k: int)
    requires
        0 <= k <= s.len(),
    ensures
        k <= ws_pos(s, k) <= s.len(),
    decreases s.len() - k,
{
    if k < s.len() && !is_ws(s[k]) {
        lemma_ws_pos_bounds(s, k + 1);
    }
}

/// Splits off the first token: `(first_token(s), after_first_token(s))`.
pub fn split_token(s: &[char]) -> (r: (Vec<char>, Vec<char>))
    ensures
        r.0@ == first_token(s@),
        r.1@ == after_first_token(s@),
{
    let t = trim_start_of(s);
    let mut k: usize = 0;
    while k < t.len() && !is_whitespace(t[k])
        invariant
            k <= t@.len(),
            ws_pos(t@, 0) == ws_pos(t@, k as int),
        decreases t@.len() - k,
    {
        proof {
            lemma_ws_pos_step(t@, k as int);
        }
        k = k + 1;
    }
    (slice_of(&t, 0, k), slice_of(&t, k, t.len()))
}

} // verus!

verus! {

/// The sequence made of the given characters.
pub fn chars_from(cs: &[char]) -> (r: Vec<char>)
    ensures
        r@ == cs@,
{
    slice_of(cs, 0, cs.len())
}

/// A one-character sequence.
pub fn char1(a: char) -> (r: Vec<char>)
    ensures
        r@ == seq![a],
{
    let mut v: Vec<char> = Vec::new();
    v.push(a);
    assert(v@ =~= seq![a]);
    v
}

/// A two-character sequence.
pub fn char2(a: char, b: char) -> (r: Vec<char>)
    ensures
        r@ == seq![a, b],
{
    let mut v: Vec<char> = Vec::new();
    v.push(a);
    v.push(b);
    assert(v@ =~= seq![a, b]);
    v
}

} // verus!

verus! {

/// `s.trim_end_matches(set)` for a set of characters.
pub open spec fn trim_end_chars(s: Seq<char>, set: Seq<char>) -> Seq<char>
    decreases s.len(),
{
    if s.len() > 0 && set.contains(s.last()) {
        trim_end_chars(s.drop_last(), set)
    } else {
        s
    }
}

/// `s.trim_end_matches(set)`.
pub fn trim_end_chars_of(s: &[char], set: &[char]) -> (r: Vec<char>)
    ensures
        r@ == trim_end_chars(s@, set@),
{
    let mut j: usize = s.len();
    assert(s@.subrange(0, s@.len() as int) =~= s@);
    while j > 0 && in_set(set, s[j - 1])
        invariant
            j <= s@.len(),
            trim_end_chars(s@, set@) == trim_end_chars(s@.subrange(0, j as int), set@),
        decreases j,
    {
        assert(s@.subrange(0, j as int).drop_last() =~= s@.subrange(0, j - 1));
        j = j - 1;
    }
    slice_of(s, 0, j)
}

/// What `trim_start_chars` keeps is a suffix of the text.
pub proof fn lemma_trim_start_chars_suffix(s: Seq<char>, set: Seq<char>)
    ensures
        exists|k: int|
            0 <= k <= s.len() && trim_start_chars(s, set) == s.subrange(k, s.len() as int),
        trim_start_chars(s, set).len() > 0 ==> !set.contains(trim_start_chars(s, set)[0]),
    decreases s.len(),
{
    if s.len() > 0 && set.contains(s[0]) {
        lemma_trim_start_chars_suffix(s.drop_first(), set);
        let k = choose|k: int|
            0 <= k <= s.drop_first().len() && trim_start_chars(s.drop_first(), set)
                == s.drop_first().subrange(k, s.drop_first().len() as int);
        assert(s.drop_first().subrange(k, s.drop_first().len() as int) =~= s.subrange(
            k + 1,
            s.len() as int,
        ));
    } else {
        assert(s.subrange(0, s.len() as int) =~= s);
    }
}

/// What `trim_end_chars` keeps is a prefix of the text.
pub proof fn lemma_trim_end_chars_prefix(s: Seq<char>, set: Seq<char>)
    ensures
        exists|k: int| 0 <= k <= s.len() && trim_end_chars(s, set) == s.subrange(0, k),
        trim_end_chars(s, set).len() > 0 ==> !set.contains(trim_end_chars(s, set).last()),
    decreases s.len(),
{
    if s.len() > 0 && set.contains(s.last()) {
        lemma_trim_end_chars_prefix(s.drop_last(), set);
        let k = choose|k: int|
            0 <= k <= s.drop_last().len() && trim_end_chars(s.drop_last(), set)
                == s.drop_last().subrange(0, k);
        assert(s.drop_last().subrange(0, k) =~= s.subrange(0, k));
    } else {
        assert(s.subrange(0, s.len() as int) =~= s);
    }
}

} // verus!
