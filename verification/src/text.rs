//! Character-level text primitives shared by the spec and bundle parsers.
//!
//! Text is handled as a `Vec<char>` buffer with half-open index spans
//! `[lo, hi)`; the spec functions below describe each operation on the
//! mathematical sequence `Seq<char>`.

use vstd::prelude::*;

verus! {

/// Unicode `White_Space` property (the set that `char::is_whitespace` tests).
pub open spec fn is_ws(c: char) -> bool {
    let u = c as int;
    ||| 0x09 <= u <= 0x0d
    ||| u == 0x20
    ||| u == 0x85
    ||| u == 0xa0
    ||| u == 0x1680
    ||| 0x2000 <= u <= 0x200a
    ||| u == 0x2028
    ||| u == 0x2029
    ||| u == 0x202f
    ||| u == 0x205f
    ||| u == 0x3000
}

pub fn is_whitespace(c: char) -> (r: bool)
    ensures
        r == is_ws(c),
{
    let u = c as u32;
    (0x09 <= u && u <= 0x0d) || u == 0x20 || u == 0x85 || u == 0xa0 || u == 0x1680 || (0x2000
        <= u && u <= 0x200a) || u == 0x2028 || u == 0x2029 || u == 0x202f || u == 0x205f || u
        == 0x3000
}

/// `String::push`: appends one character.
#[verifier::external_body]
pub(crate) fn push_char(s: &mut String, c: char)
    ensures
        final(s)@ == old(s)@.push(c),
{
    s.push(c);
}

/// The characters of a string slice, in order.
pub fn chars_of(s: &str) -> (v: Vec<char>)
    ensures
        v@ == s@,
{
    let mut v: Vec<char> = Vec::new();
    for c in it: s.chars()
        invariant
            v@ == it.seq().take(it.index() as int),
    {
        v.push(c);
    }
    v
}


/// `pat` occurs in `s` starting at index `i`.
pub open spec fn matches_at(s: Seq<char>, pat: Seq<char>, i: int) -> bool {
    0 <= i && i + pat.len() <= s.len() && s.subrange(i, i + pat.len()) == pat
}

/// The first index `i` in `[from, to - |pat|]` at which `pat` occurs, so that the
/// occurrence lies inside `[from, to)`.
pub open spec fn find_first(s: Seq<char>, pat: Seq<char>, from: int, to: int) -> Option<int>
    decreases to - from + 1,
{
    if from < 0 || to > s.len() || from + pat.len() > to {
        None
    } else if s.subrange(from, from + pat.len()) == pat {
        Some(from)
    } else {
        find_first(s, pat, from + 1, to)
    }
}

/// The last index at which `pat` occurs inside `[from, to)`.
pub open spec fn find_last(s: Seq<char>, pat: Seq<char>, from: int, to: int) -> Option<int>
    decreases to - from + 1,
{
    if from < 0 || to > s.len() || from + pat.len() > to {
        None
    } else if s.subrange(to - pat.len(), to) == pat {
        Some(to - pat.len())
    } else {
        find_last(s, pat, from, to - 1)
    }
}

/// An exec `Option<usize>` read as an `Option<int>`.
pub open spec fn opt_int(r: Option<usize>) -> Option<int> {
    match r {
        Some(i) => Some(i as int),
        None => None,
    }
}

pub proof fn lemma_find_first_bounds(s: Seq<char>, pat: Seq<char>, from: int, to: int)
    ensures
        find_first(s, pat, from, to) matches Some(i) ==> from <= i && i + pat.len() <= to
            && to <= s.len() && matches_at(s, pat, i),
    decreases to - from + 1,
{
    if !(from < 0 || to > s.len() || from + pat.len() > to) && s.subrange(from, from + pat.len())
        != pat {
        lemma_find_first_bounds(s, pat, from + 1, to);
    }
}

pub proof fn lemma_find_last_bounds(s: Seq<char>, pat: Seq<char>, from: int, to: int)
    ensures
        find_last(s, pat, from, to) matches Some(i) ==> from <= i && i + pat.len() <= to && to
            <= s.len() && matches_at(s, pat, i),
    decreases to - from + 1,
{
    if !(from < 0 || to > s.len() || from + pat.len() > to) && s.subrange(to - pat.len(), to)
        != pat {
        lemma_find_last_bounds(s, pat, from, to - 1);
    }
}

/// `find_first` returns an occurrence when none comes before it.
pub proof fn lemma_find_first_at(s: Seq<char>, pat: Seq<char>, from: int, to: int, j: int)
    requires
        0 <= from <= j,
        j + pat.len() <= to <= s.len(),
        s.subrange(j, j + pat.len()) == pat,
        forall|i: int| from <= i < j ==> #[trigger] s.subrange(i, i + pat.len()) != pat,
    ensures
        find_first(s, pat, from, to) == Some(j),
    decreases j - from,
{
    if from < j {
        assert(s.subrange(from, from + pat.len()) != pat);
        lemma_find_first_at(s, pat, from + 1, to, j);
    }
}

/// When `pat` occurs at `j`, `find_first` finds an occurrence at or before it.
pub proof fn lemma_find_first_some(s: Seq<char>, pat: Seq<char>, from: int, to: int, j: int)
    requires
        0 <= from <= j,
        j + pat.len() <= to <= s.len(),
        s.subrange(j, j + pat.len()) == pat,
    ensures
        find_first(s, pat, from, to) matches Some(i) && from <= i <= j,
    decreases j - from,
{
    if from < j && s.subrange(from, from + pat.len()) != pat {
        lemma_find_first_some(s, pat, from + 1, to, j);
    }
}

/// `find_first` finds nothing when nothing matches.
pub proof fn lemma_find_first_none(s: Seq<char>, pat: Seq<char>, from: int, to: int)
    requires
        0 <= from,
        to <= s.len(),
        forall|i: int| from <= i && i + pat.len() <= to ==> #[trigger] s.subrange(i, i + pat.len())
            != pat,
    ensures
        find_first(s, pat, from, to) is None,
    decreases to - from + 1,
{
    if from + pat.len() <= to {
        assert(s.subrange(from, from + pat.len()) != pat);
        lemma_find_first_none(s, pat, from + 1, to);
    }
}

/// Leading whitespace in front of text that does not start with whitespace
/// is exactly what `trim_start` drops.
pub proof fn lemma_trim_start_prefix(w: Seq<char>, x: Seq<char>)
    requires
        forall|i: int| 0 <= i < w.len() ==> is_ws(#[trigger] w[i]),
        x.len() == 0 || !is_ws(x[0]),
    ensures
        trim_start(w + x) == x,
    decreases w.len(),
{
    if w.len() == 0 {
        assert(w + x =~= x);
    } else {
        assert((w + x).drop_first() =~= w.drop_first() + x);
        assert(is_ws(w[0]));
        lemma_trim_start_prefix(w.drop_first(), x);
    }
}

/// Text that neither starts nor ends with whitespace is its own trim.
pub proof fn lemma_trim_identity(s: Seq<char>)
    requires
        s.len() == 0 || (!is_ws(s[0]) && !is_ws(s.last())),
    ensures
        trim(s) == s,
{
}

/// `find_first` inside the slice `s[a..b]` is `find_first` on `s`, moved by `a`.
pub proof fn lemma_find_first_sub(
    s: Seq<char>,
    pat: Seq<char>,
    a: int,
    b: int,
    from: int,
    to: int,
)
    requires
        0 <= a <= b <= s.len(),
        0 <= from,
        to <= b - a,
    ensures
        find_first(s.subrange(a, b), pat, from, to) == match find_first(s, pat, a + from, a + to) {
            Some(i) => Some(i - a),
            None => None,
        },
    decreases to - from + 1,
{
    let t = s.subrange(a, b);
    if !(from + pat.len() > to) {
        assert(t.subrange(from, from + pat.len()) =~= s.subrange(a + from, a + from + pat.len()));
        if t.subrange(from, from + pat.len()) != pat {
            lemma_find_first_sub(s, pat, a, b, from + 1, to);
        }
    }
}

/// Whether `pat` occurs in `s` at index `i`.
pub fn eq_at(s: &Vec<char>, pat: &Vec<char>, i: usize) -> (r: bool)
    requires
        i + pat@.len() <= s@.len(),
    ensures
        r == (s@.subrange(i as int, i + pat@.len()) == pat@),
{
    let n = pat.len();
    let len = s.len();
    let mut j: usize = 0;
    while j < n
        invariant
            len == s@.len(),
            j <= n,
            n == pat@.len(),
            i + n <= s@.len(),
            forall|k: int| 0 <= k < j ==> s@[i + k] == pat@[k],
        decreases n - j,
    {
        if s[i + j] != pat[j] {
            assert(s@.subrange(i as int, i + n)[j as int] != pat@[j as int]);
            return false;
        }
        j = j + 1;
    }
    assert(s@.subrange(i as int, i + n) =~= pat@);
    true
}

/// The first occurrence of `pat` inside `s[from..to]`.
pub fn find(s: &Vec<char>, pat: &Vec<char>, from: usize, to: usize) -> (r: Option<usize>)
    requires
        from <= to <= s@.len(),
    ensures
        opt_int(r) == find_first(s@, pat@, from as int, to as int),
{
    let n = pat.len();
    if n == 0 {
        assert(s@.subrange(from as int, from as int) =~= pat@);
        return Some(from);
    }
    if n > to - from {
        return None;
    }
    let mut i = from;
    while i <= to - n
        invariant
            from <= i,
            to <= s@.len(),
            n == pat@.len(),
            0 < n <= to,
            find_first(s@, pat@, from as int, to as int) == find_first(
                s@,
                pat@,
                i as int,
                to as int,
            ),
        decreases to + 1 - i,
    {
        if eq_at(s, pat, i) {
            return Some(i);
        }
        i = i + 1;
    }
    None
}

/// The last occurrence of `pat` inside `s[from..to]`.
pub fn rfind(s: &Vec<char>, pat: &Vec<char>, from: usize, to: usize) -> (r: Option<usize>)
    requires
        from <= to <= s@.len(),
    ensures
        opt_int(r) == find_last(s@, pat@, from as int, to as int),
{
    let n = pat.len();
    if n == 0 {
        assert(s@.subrange(to as int, to as int) =~= pat@);
        return Some(to);
    }
    let mut j = to;
    while j >= from && j - from >= n
        invariant
            from <= to <= s@.len(),
            from <= j <= to,
            n == pat@.len(),
            n > 0,
            find_last(s@, pat@, from as int, to as int) == find_last(
                s@,
                pat@,
                from as int,
                j as int,
            ),
        decreases j,
    {
        if eq_at(s, pat, j - n) {
            return Some(j - n);
        }
        j = j - 1;
    }
    None
}

/// The characters of `s[lo..hi]` as a `String`.
pub fn string_of(s: &Vec<char>, lo: usize, hi: usize) -> (r: String)
    requires
        lo <= hi <= s@.len(),
    ensures
        r@ == s@.subrange(lo as int, hi as int),
{
    let mut r = String::new();
    let mut i = lo;
    while i < hi
        invariant
            lo <= i <= hi <= s@.len(),
            r@ == s@.subrange(lo as int, i as int),
        decreases hi - i,
    {
        push_char(&mut r, s[i]);
        assert(s@.subrange(lo as int, i + 1) =~= s@.subrange(lo as int, i as int).push(s@[i as int]));
        i = i + 1;
    }
    r
}


/// `s` without its leading whitespace.
pub open spec fn trim_start(s: Seq<char>) -> Seq<char>
    decreases s.len(),
{
    if s.len() > 0 && is_ws(s[0]) {
        trim_start(s.drop_first())
    } else {
        s
    }
}

/// `s` without its trailing whitespace.
pub open spec fn trim_end(s: Seq<char>) -> Seq<char>
    decreases s.len(),
{
    if s.len() > 0 && is_ws(s.last()) {
        trim_end(s.drop_last())
    } else {
        s
    }
}

/// `s` without leading and trailing whitespace (what `str::trim` returns).
pub open spec fn trim(s: Seq<char>) -> Seq<char> {
    trim_end(trim_start(s))
}

/// The span of `s[lo..hi]` left after dropping leading whitespace.
pub fn trim_start_span(s: &Vec<char>, lo: usize, hi: usize) -> (a: usize)
    requires
        lo <= hi <= s@.len(),
    ensures
        lo <= a <= hi,
        s@.subrange(a as int, hi as int) == trim_start(s@.subrange(lo as int, hi as int)),
{
    let mut a = lo;
    while a < hi && is_whitespace(s[a])
        invariant
            lo <= a <= hi <= s@.len(),
            trim_start(s@.subrange(lo as int, hi as int)) == trim_start(
                s@.subrange(a as int, hi as int),
            ),
        decreases hi - a,
    {
        assert(s@.subrange(a as int, hi as int).drop_first() =~= s@.subrange(a + 1, hi as int));
        a = a + 1;
    }
    a
}

/// The span of `s[lo..hi]` left after dropping trailing whitespace.
pub fn trim_end_span(s: &Vec<char>, lo: usize, hi: usize) -> (b: usize)
    requires
        lo <= hi <= s@.len(),
    ensures
        lo <= b <= hi,
        s@.subrange(lo as int, b as int) == trim_end(s@.subrange(lo as int, hi as int)),
{
    let mut b = hi;
    while b > lo && is_whitespace(s[b - 1])
        invariant
            lo <= b <= hi <= s@.len(),
            trim_end(s@.subrange(lo as int, hi as int)) == trim_end(
                s@.subrange(lo as int, b as int),
            ),
        decreases b,
    {
        assert(s@.subrange(lo as int, b as int).drop_last() =~= s@.subrange(lo as int, b - 1));
        b = b - 1;
    }
    b
}

/// The span of `s[lo..hi]` left after `str::trim`.
pub fn trim_span(s: &Vec<char>, lo: usize, hi: usize) -> (r: (usize, usize))
    requires
        lo <= hi <= s@.len(),
    ensures
        lo <= r.0 <= r.1 <= hi,
        s@.subrange(r.0 as int, r.1 as int) == trim(s@.subrange(lo as int, hi as int)),
{
    let a = trim_start_span(s, lo, hi);
    let b = trim_end_span(s, a, hi);
    (a, b)
}

/// Strict lexicographic order on character sequences, comparing code points
/// (the order of `String`'s `Ord`, which compares UTF-8 bytes).
pub open spec fn lex_lt(a: Seq<char>, b: Seq<char>) -> bool
    decreases a.len(),
{
    if b.len() == 0 {
        false
    } else if a.len() == 0 {
        true
    } else if a[0] != b[0] {
        a[0] < b[0]
    } else {
        lex_lt(a.drop_first(), b.drop_first())
    }
}

pub proof fn lemma_lex_irreflexive(a: Seq<char>)
    ensures
        !lex_lt(a, a),
    decreases a.len(),
{
    if a.len() > 0 {
        lemma_lex_irreflexive(a.drop_first());
    }
}

pub proof fn lemma_lex_asymmetric(a: Seq<char>, b: Seq<char>)
    ensures
        !(lex_lt(a, b) && lex_lt(b, a)),
    decreases a.len(),
{
    if a.len() > 0 && b.len() > 0 && a[0] == b[0] {
        lemma_lex_asymmetric(a.drop_first(), b.drop_first());
    }
}

pub proof fn lemma_lex_transitive(a: Seq<char>, b: Seq<char>, c: Seq<char>)
    requires
        lex_lt(a, b),
        lex_lt(b, c),
    ensures
        lex_lt(a, c),
    decreases a.len(),
{
    if a.len() > 0 && b.len() > 0 && c.len() > 0 && a[0] == b[0] && b[0] == c[0] {
        lemma_lex_transitive(a.drop_first(), b.drop_first(), c.drop_first());
    }
}

/// The result of comparing two character sequences.
pub enum Order {
    Less,
    Equal,
    Greater,
}

/// Compares `a` and `b` in the order `lex_lt`.
pub fn compare(a: &Vec<char>, b: &Vec<char>) -> (r: Order)
    ensures
        r is Less <==> lex_lt(a@, b@),
        r is Equal <==> a@ == b@,
        r is Greater <==> lex_lt(b@, a@),
{
    proof {
        lemma_lex_irreflexive(a@);
        lemma_lex_asymmetric(a@, b@);
    }
    let la = a.len();
    let lb = b.len();
    let mut i: usize = 0;
    assert(a@.skip(0) =~= a@);
    assert(b@.skip(0) =~= b@);
    while i < la && i < lb
        invariant
            i <= la == a@.len(),
            i <= lb == b@.len(),
            forall|k: int| 0 <= k < i ==> a@[k] == b@[k],
            lex_lt(a@, b@) == lex_lt(a@.skip(i as int), b@.skip(i as int)),
            lex_lt(b@, a@) == lex_lt(b@.skip(i as int), a@.skip(i as int)),
        decreases la - i,
    {
        if a[i] != b[i] {
            let xa = a[i];
            let xb = b[i];

            assert(a@ != b@) by {
                assert(a@[i as int] != b@[i as int]);
            }
            assert(a@.skip(i as int)[0] == a@[i as int]);
            assert(b@.skip(i as int)[0] == b@[i as int]);
            if xa < xb {
                assert(lex_lt(a@.skip(i as int), b@.skip(i as int)));
                return Order::Less;
            } else {
                assert(lex_lt(b@.skip(i as int), a@.skip(i as int)));
                return Order::Greater;
            }
        }
        assert(a@.skip(i as int).drop_first() =~= a@.skip(i + 1));
        assert(b@.skip(i as int).drop_first() =~= b@.skip(i + 1));
        i = i + 1;
    }
    if la == lb {
        assert(a@ =~= b@);
        Order::Equal
    } else if la < lb {
        assert(a@ != b@);
        Order::Less
    } else {
        assert(a@ != b@);
        Order::Greater
    }
}

} // verus!
