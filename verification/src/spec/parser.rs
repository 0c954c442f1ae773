//! The spec file parser.
//!
//! A spec is line-oriented. Blank lines and lines whose first non-blank
//! character is `#` are skipped; every other line starts with a keyword:
//!
//! ```text
//! spec "name"
//! target "path"              (one or more)
//! runner <name>
//! runner_args ["a", "b"]
//! lang <name>
//! fixture NAME {  ...lines...  }
//! witness "name" hard {  ...lines...  }
//! witness "name" soft weight 0.5 {  ...lines...  }
//! objective {
//!     minimises "name" target 200
//!     maximises "name"
//! }
//! ```
//!
//! A fixture or witness body runs to the first line that is `}` once
//! trimmed; it is kept with the common indentation of its non-blank lines
//! removed.

use crate::decimal::{decimal_micros, parse_decimal, Decimal};
use crate::spec::ast::{
    strings_view, Fixture, FixtureView, Objective, ObjectiveKind, ObjectiveView, Spec, SpecView,
};
use crate::text::{
    chars_of, find, find_first, is_whitespace, is_ws, lemma_find_first_at, lemma_find_first_bounds, lemma_find_first_none,
    lemma_find_first_sub, push_char, string_of, trim, trim_end, trim_span, trim_start,
    trim_start_span, lemma_trim_start_prefix, lemma_trim_identity,
};
use crate::witness::{Kind, Witness, WitnessView};
use vstd::prelude::*;

verus! {

/// Why a spec could not be parsed. Line numbers count from 1; a block's
/// start is the 0-based index of its header line, plus one.
#[derive(Clone, Debug, PartialEq, Eq)]
pub enum SpecError {
    /// A quoted string was expected.
    ExpectedQuoted,
    /// A quoted string has no closing quote.
    UnterminatedQuoted,
    /// Text follows a quoted string (the text after the closing quote).
    TrailingContent(String),
    /// `runner_args` is not enclosed in `[...]`.
    ExpectedArray,
    /// A second `spec` directive, at this line.
    DuplicateSpec(usize),
    /// A second `runner` directive, at this line.
    DuplicateRunner(usize),
    /// A fixture header that does not end in `{`, at this line.
    FixtureBrace(usize),
    /// A witness header that does not end in `{`, at this line.
    WitnessBrace(usize),
    /// An objective header that is not `objective {`, at this line.
    ObjectiveBrace(usize),
    /// A block with no closing `}`, starting around this line.
    UnterminatedBlock(usize),
    /// A soft weight that is not a decimal, at this line.
    BadWeight(usize),
    /// A witness mode other than `hard` or `soft weight W`, and its line.
    UnknownMode(String, usize),
    /// An objective line other than `minimises`/`maximises`, and the keyword.
    UnknownObjective(usize, String),
    /// An objective target that is not `target <decimal>`, at this line.
    BadObjectiveTarget(usize),
    /// A line that starts with no known keyword, and the keyword.
    UnknownKeyword(usize, String),
    MissingSpec,
    MissingTarget,
    MissingRunner,
    MissingLang,
}

/// `SpecError` with its text as character sequences.
pub enum SpecErrorView {
    ExpectedQuoted,
    UnterminatedQuoted,
    TrailingContent(Seq<char>),
    ExpectedArray,
    DuplicateSpec(int),
    DuplicateRunner(int),
    FixtureBrace(int),
    WitnessBrace(int),
    ObjectiveBrace(int),
    UnterminatedBlock(int),
    BadWeight(int),
    UnknownMode(Seq<char>, int),
    UnknownObjective(int, Seq<char>),
    BadObjectiveTarget(int),
    UnknownKeyword(int, Seq<char>),
    MissingSpec,
    MissingTarget,
    MissingRunner,
    MissingLang,
}

impl View for SpecError {
    type V = SpecErrorView;

    open spec fn view(&self) -> SpecErrorView {
        match self {
            SpecError::ExpectedQuoted => SpecErrorView::ExpectedQuoted,
            SpecError::UnterminatedQuoted => SpecErrorView::UnterminatedQuoted,
            SpecError::TrailingContent(s) => SpecErrorView::TrailingContent(s@),
            SpecError::ExpectedArray => SpecErrorView::ExpectedArray,
            SpecError::DuplicateSpec(l) => SpecErrorView::DuplicateSpec(*l as int),
            SpecError::DuplicateRunner(l) => SpecErrorView::DuplicateRunner(*l as int),
            SpecError::FixtureBrace(l) => SpecErrorView::FixtureBrace(*l as int),
            SpecError::WitnessBrace(l) => SpecErrorView::WitnessBrace(*l as int),
            SpecError::ObjectiveBrace(l) => SpecErrorView::ObjectiveBrace(*l as int),
            SpecError::UnterminatedBlock(l) => SpecErrorView::UnterminatedBlock(*l as int),
            SpecError::BadWeight(l) => SpecErrorView::BadWeight(*l as int),
            SpecError::UnknownMode(s, l) => SpecErrorView::UnknownMode(s@, *l as int),
            SpecError::UnknownObjective(l, s) => SpecErrorView::UnknownObjective(*l as int, s@),
            SpecError::BadObjectiveTarget(l) => SpecErrorView::BadObjectiveTarget(*l as int),
            SpecError::UnknownKeyword(l, s) => SpecErrorView::UnknownKeyword(*l as int, s@),
            SpecError::MissingSpec => SpecErrorView::MissingSpec,
            SpecError::MissingTarget => SpecErrorView::MissingTarget,
            SpecError::MissingRunner => SpecErrorView::MissingRunner,
            SpecError::MissingLang => SpecErrorView::MissingLang,
        }
    }
}

// ---------------------------------------------------------------------------
// Lines

/// `l` without one trailing carriage return.
pub open spec fn strip_cr(l: Seq<char>) -> Seq<char> {
    if l.len() > 0 && l.last() == '\r' {
        l.drop_last()
    } else {
        l
    }
}

/// The lines of `s`, as `str::lines` gives them: split at `'\n'`, each without
/// a trailing `'\r'`, and no empty line after a final `'\n'`.
pub open spec fn split_lines(s: Seq<char>) -> Seq<Seq<char>>
    decreases s.len(),
{
    if s.len() == 0 {
        Seq::empty()
    } else {
        match find_first(s, seq!['\n'], 0, s.len() as int) {
            None => seq![strip_cr(s)],
            Some(i) => {
                proof {
                    lemma_find_first_bounds(s, seq!['\n'], 0, s.len() as int);
                }
                seq![strip_cr(s.subrange(0, i))] + split_lines(s.subrange(i + 1, s.len() as int))
            },
        }
    }
}

// ---------------------------------------------------------------------------
// Words and quoted strings

/// The index of the first whitespace character of `t` at or after `i`.
pub open spec fn first_ws(t: Seq<char>, i: int) -> Option<int>
    decreases t.len() - i,
{
    if i < 0 || i >= t.len() {
        None
    } else if is_ws(t[i]) {
        Some(i)
    } else {
        first_ws(t, i + 1)
    }
}

/// A line split into its keyword and the trimmed rest, at its first
/// whitespace character (`str::split_once`).
pub open spec fn keyword_split(t: Seq<char>) -> (Seq<char>, Seq<char>) {
    match first_ws(t, 0) {
        None => (t, Seq::empty()),
        Some(w) => (t.subrange(0, w), trim(t.subrange(w + 1, t.len() as int))),
    }
}

/// A leading quoted string of `s` (after leading whitespace), and what
/// follows its closing quote.
pub open spec fn split_quoted(s: Seq<char>) -> Result<(Seq<char>, Seq<char>), SpecErrorView> {
    let t = trim_start(s);
    if t.len() == 0 || t[0] != '"' {
        Err(SpecErrorView::ExpectedQuoted)
    } else {
        let u = t.drop_first();
        match find_first(u, seq!['"'], 0, u.len() as int) {
            None => Err(SpecErrorView::UnterminatedQuoted),
            Some(i) => Ok((u.subrange(0, i), u.subrange(i + 1, u.len() as int))),
        }
    }
}

/// Splitting `w"a"r`, with `w` whitespace and `a` free of quotes, gives
/// back `a` and `r`.
pub proof fn law_split_quoted_round_trip(w: Seq<char>, a: Seq<char>, r: Seq<char>)
    requires
        forall|i: int| 0 <= i < w.len() ==> is_ws(#[trigger] w[i]),
        forall|i: int| 0 <= i < a.len() ==> #[trigger] a[i] != '"',
    ensures
        split_quoted(w + seq!['"'] + a + seq!['"'] + r) == Ok::<_, SpecErrorView>((a, r)),
        trim(r).len() == 0 ==> extract_quoted(w + seq!['"'] + a + seq!['"'] + r) == Ok::<
            _,
            SpecErrorView,
        >(a),
{
    let x = seq!['"'] + a + seq!['"'] + r;
    assert(w + seq!['"'] + a + seq!['"'] + r =~= w + x);
    lemma_trim_start_prefix(w, x);
    let u = x.drop_first();
    assert(u =~= a + seq!['"'] + r);
    assert forall|i: int| 0 <= i < a.len() implies #[trigger] u.subrange(i, i + 1) != seq!['"'] by {
        assert(u.subrange(i, i + 1)[0] == a[i]);
    }
    assert(u.subrange(a.len() as int, a.len() + 1 as int) =~= seq!['"']);
    lemma_find_first_at(u, seq!['"'], 0, u.len() as int, a.len() as int);
    assert(u.subrange(0, a.len() as int) =~= a);
    assert(u.subrange(a.len() + 1 as int, u.len() as int) =~= r);
}

/// Text whose first non-space character is not a quote, or that holds no
/// second quote after its first, is not a quoted string.
pub proof fn law_split_quoted_refuses(s: Seq<char>)
    requires
        trim_start(s).len() == 0 || trim_start(s)[0] != '"' || forall|i: int|
            1 <= i < trim_start(s).len() ==> #[trigger] trim_start(s)[i] != '"',
    ensures
        split_quoted(s) is Err,
{
    let t = trim_start(s);
    if t.len() > 0 && t[0] == '"' {
        let u = t.drop_first();
        assert forall|i: int| 0 <= i && i + 1 <= u.len() implies #[trigger] u.subrange(i, i + 1)
            != seq!['"'] by {
            assert(u.subrange(i, i + 1)[0] == t[i + 1]);
        }
        lemma_find_first_none(u, seq!['"'], 0, u.len() as int);
    }
}

/// `s` as one quoted string and nothing after it but whitespace.
pub open spec fn extract_quoted(s: Seq<char>) -> Result<Seq<char>, SpecErrorView> {
    match split_quoted(s) {
        Err(e) => Err(e),
        Ok((q, rest)) => if trim(rest).len() > 0 {
            Err(SpecErrorView::TrailingContent(rest))
        } else {
            Ok(q)
        },
    }
}

/// The items of a list `"a", "b"` read from `inner[i..]`: `cur` is the item
/// read so far, `inq` whether a quote is open, `acc` the items done. A comma
/// outside quotes ends an item; each item is one quoted string.
pub open spec fn list_items(
    inner: Seq<char>,
    i: int,
    cur: Seq<char>,
    inq: bool,
    acc: Seq<Seq<char>>,
) -> Result<Seq<Seq<char>>, SpecErrorView>
    decreases inner.len() - i,
{
    if i < 0 || i >= inner.len() {
        let last = trim(cur);
        if last.len() > 0 {
            match extract_quoted(last) {
                Err(e) => Err(e),
                Ok(q) => Ok(acc.push(q)),
            }
        } else {
            Ok(acc)
        }
    } else {
        let ch = inner[i];
        if ch == '"' {
            list_items(inner, i + 1, cur.push('"'), !inq, acc)
        } else if ch == ',' && !inq {
            match extract_quoted(trim(cur)) {
                Err(e) => Err(e),
                Ok(q) => list_items(inner, i + 1, Seq::empty(), inq, acc.push(q)),
            }
        } else {
            list_items(inner, i + 1, cur.push(ch), inq, acc)
        }
    }
}

/// The strings of an array `["a", "b"]`.
pub open spec fn string_array(s: Seq<char>) -> Result<Seq<Seq<char>>, SpecErrorView> {
    let t = trim(s);
    if !(t.len() > 0 && t[0] == '[' && t.last() == ']') {
        Err(SpecErrorView::ExpectedArray)
    } else {
        let inner = trim(t.subrange(1, t.len() - 1));
        if inner.len() == 0 {
            Ok(Seq::empty())
        } else {
            list_items(inner, 0, Seq::empty(), false, Seq::empty())
        }
    }
}

/// `x` in double quotes.
pub open spec fn quoted(x: Seq<char>) -> Seq<char> {
    seq!['"'] + x + seq!['"']
}

/// No character of `x` is a double quote.
pub open spec fn no_quote(x: Seq<char>) -> bool {
    forall|i: int| 0 <= i < x.len() ==> #[trigger] x[i] != '"'
}

/// The items after the first of an array as written: each as `, "y"`.
pub open spec fn items_tail(ys: Seq<Seq<char>>) -> Seq<char>
    decreases ys.len(),
{
    if ys.len() == 0 {
        Seq::empty()
    } else {
        seq![',', ' '] + quoted(ys[0]) + items_tail(ys.drop_first())
    }
}

/// An array of strings as written: `["a", "b"]`, or `[]`.
pub open spec fn array_text(xs: Seq<Seq<char>>) -> Seq<char> {
    if xs.len() == 0 {
        seq!['[', ']']
    } else {
        seq!['['] + quoted(xs[0]) + items_tail(xs.drop_first()) + seq![']']
    }
}

proof fn lemma_items_tail_ends(ys: Seq<Seq<char>>)
    ensures
        items_tail(ys).len() == 0 || items_tail(ys).last() == '"',
    decreases ys.len(),
{
    if ys.len() > 0 {
        lemma_items_tail_ends(ys.drop_first());
    }
}

/// Inside quotes, a run without a quote goes into the current item as is.
proof fn lemma_list_items_quoted_run(
    inner: Seq<char>,
    i: int,
    j: int,
    cur: Seq<char>,
    acc: Seq<Seq<char>>,
)
    requires
        0 <= i <= j <= inner.len(),
        forall|k: int| i <= k < j ==> #[trigger] inner[k] != '"',
    ensures
        list_items(inner, i, cur, true, acc) == list_items(
            inner,
            j,
            cur + inner.subrange(i, j),
            true,
            acc,
        ),
    decreases j - i,
{
    if i < j {
        lemma_list_items_quoted_run(inner, i + 1, j, cur.push(inner[i]), acc);
        assert(cur.push(inner[i]) + inner.subrange(i + 1, j) =~= cur + inner.subrange(i, j));
    } else {
        assert(cur + inner.subrange(i, i) =~= cur);
    }
}

/// A quoted item is read into the current item whole.
proof fn lemma_list_items_item(
    inner: Seq<char>,
    i: int,
    y: Seq<char>,
    cur: Seq<char>,
    acc: Seq<Seq<char>>,
)
    requires
        0 <= i,
        i + y.len() + 2 <= inner.len(),
        inner.subrange(i, i + y.len() + 2) == quoted(y),
        no_quote(y),
    ensures
        list_items(inner, i, cur, false, acc) == list_items(
            inner,
            i + y.len() + 2,
            cur + quoted(y),
            false,
            acc,
        ),
{
    let n = y.len() as int;
    assert(inner[i] == inner.subrange(i, i + n + 2)[0]);
    assert forall|k: int| i + 1 <= k < i + 1 + n implies #[trigger] inner[k] != '"' by {
        assert(inner[k] == inner.subrange(i, i + n + 2)[k - i]);
        assert(quoted(y)[k - i] == y[k - i - 1]);
    }
    lemma_list_items_quoted_run(inner, i + 1, i + 1 + n, cur.push('"'), acc);
    assert forall|k: int| 0 <= k < n implies #[trigger] inner.subrange(i + 1, i + 1 + n)[k]
        == y[k] by {
        assert(inner[i + 1 + k] == inner.subrange(i, i + n + 2)[k + 1]);
        assert(quoted(y)[k + 1] == y[k]);
    }
    assert(inner.subrange(i + 1, i + 1 + n) =~= y);
    assert(inner[i + 1 + n] == inner.subrange(i, i + n + 2)[n + 1]);
    assert((cur.push('"') + y).push('"') =~= cur + quoted(y));
}

/// After an item whose trimmed text is `"x"`, the rest `, "y"...` reads as
/// `x` followed by the `ys`.
proof fn lemma_list_items_tail(
    inner: Seq<char>,
    i: int,
    cur: Seq<char>,
    acc: Seq<Seq<char>>,
    x: Seq<char>,
    ys: Seq<Seq<char>>,
)
    requires
        0 <= i <= inner.len(),
        inner.subrange(i, inner.len() as int) == items_tail(ys),
        trim(cur) == quoted(x),
        no_quote(x),
        forall|k: int| 0 <= k < ys.len() ==> no_quote(#[trigger] ys[k]),
    ensures
        list_items(inner, i, cur, false, acc) == Ok::<_, SpecErrorView>(acc.push(x) + ys),
    decreases ys.len(),
{
    law_split_quoted_round_trip(Seq::empty(), x, Seq::empty());
    assert(Seq::<char>::empty() + seq!['"'] + x + seq!['"'] + Seq::<char>::empty() =~= quoted(x));
    if ys.len() == 0 {
        assert(acc.push(x) + ys =~= acc.push(x));
    } else {
        let y = ys[0];
        let rest = ys.drop_first();
        let n = y.len() as int;
        let t = inner.subrange(i, inner.len() as int);
        assert(t == seq![',', ' '] + quoted(y) + items_tail(rest));
        assert(quoted(y).len() == n + 2);
        assert(t.len() == 4 + n + items_tail(rest).len());
        assert(t[0] == ',');
        assert(t[1] == ' ');
        assert(inner[i] == t[0]);
        assert(inner[i + 1] == t[1]);
        assert(list_items(inner, i, cur, false, acc) == list_items(
            inner,
            i + 1,
            Seq::empty(),
            false,
            acc.push(x),
        ));
        assert(list_items(inner, i + 1, Seq::empty(), false, acc.push(x)) == list_items(
            inner,
            i + 2,
            Seq::<char>::empty().push(' '),
            false,
            acc.push(x),
        ));
        assert(inner.subrange(i + 2, i + 2 + n + 2) =~= quoted(y)) by {
            assert forall|k: int| 0 <= k < n + 2 implies inner.subrange(i + 2, i + 2 + n + 2)[k]
                == #[trigger] quoted(y)[k] by {
                assert(inner[i + 2 + k] == t[2 + k]);
                assert(t[2 + k] == quoted(y)[k]);
            }
        }
        lemma_list_items_item(inner, i + 2, y, Seq::<char>::empty().push(' '), acc.push(x));
        let cur2 = Seq::<char>::empty().push(' ') + quoted(y);
        assert(cur2 =~= seq![' '] + quoted(y));
        assert(is_ws(' '));
        lemma_trim_start_prefix(seq![' '], quoted(y));
        lemma_trim_identity(quoted(y));
        assert(inner.subrange(i + 4 + n, inner.len() as int) =~= items_tail(rest)) by {
            assert forall|k: int| 0 <= k < items_tail(rest).len() implies inner.subrange(
                i + 4 + n,
                inner.len() as int,
            )[k] == #[trigger] items_tail(rest)[k] by {
                assert(inner[i + 4 + n + k] == t[4 + n + k]);
                assert(t[4 + n + k] == items_tail(rest)[k]);
            }
        }
        assert forall|k: int| 0 <= k < rest.len() implies no_quote(#[trigger] rest[k]) by {
            assert(rest[k] == ys[k + 1]);
        }
        lemma_list_items_tail(inner, i + 4 + n, cur2, acc.push(x), y, rest);
        assert(acc.push(x).push(y) + rest =~= acc.push(x) + ys);
    }
}

/// An array written as `["a", "b"]` reads back as its strings, for strings
/// that hold no double quote (commas and brackets inside them are kept).
pub proof fn law_string_array_round_trip(xs: Seq<Seq<char>>)
    requires
        forall|k: int| 0 <= k < xs.len() ==> no_quote(#[trigger] xs[k]),
    ensures
        string_array(array_text(xs)) == Ok::<_, SpecErrorView>(xs),
{
    let s = array_text(xs);
    lemma_trim_identity(s);
    let t = trim(s);
    if xs.len() == 0 {
        assert(t.subrange(1, t.len() - 1) =~= Seq::<char>::empty());
        assert(xs =~= Seq::<Seq<char>>::empty());
    } else {
        let x = xs[0];
        let rest = xs.drop_first();
        let body = quoted(x) + items_tail(rest);
        let m = x.len() + 2int;
        assert(t.subrange(1, t.len() - 1) =~= body);
        lemma_items_tail_ends(rest);
        if items_tail(rest).len() > 0 {
            assert(body.last() == items_tail(rest).last());
        }
        lemma_trim_identity(body);
        assert(body.subrange(0, m) =~= quoted(x));
        lemma_list_items_item(body, 0, x, Seq::empty(), Seq::empty());
        assert(Seq::<char>::empty() + quoted(x) =~= quoted(x));
        lemma_trim_identity(quoted(x));
        assert(body.subrange(m, body.len() as int) =~= items_tail(rest));
        assert forall|k: int| 0 <= k < rest.len() implies no_quote(#[trigger] rest[k]) by {
            assert(rest[k] == xs[k + 1]);
        }
        lemma_list_items_tail(body, m, quoted(x), Seq::empty(), x, rest);
        assert(Seq::<Seq<char>>::empty().push(x) + rest =~= xs);
    }
}

// ---------------------------------------------------------------------------
// Blocks

/// The index of the first line at or after `i` that is `}` once trimmed.
pub open spec fn block_end(ls: Seq<Seq<char>>, i: int) -> Option<int>
    decreases ls.len() - i,
{
    if i < 0 || i >= ls.len() {
        None
    } else if trim(ls[i]) == seq!['}'] {
        Some(i)
    } else {
        block_end(ls, i + 1)
    }
}

/// The number of leading whitespace characters of `l`.
pub open spec fn indent(l: Seq<char>) -> nat
    decreases l.len(),
{
    if l.len() > 0 && is_ws(l[0]) {
        1 + indent(l.drop_first())
    } else {
        0
    }
}

pub open spec fn is_blank(l: Seq<char>) -> bool {
    trim(l).len() == 0
}

/// The least indentation of the non-blank lines of `ls`.
pub open spec fn min_indent(ls: Seq<Seq<char>>) -> Option<nat>
    decreases ls.len(),
{
    if ls.len() == 0 {
        None
    } else if is_blank(ls.last()) {
        min_indent(ls.drop_last())
    } else {
        match min_indent(ls.drop_last()) {
            None => Some(indent(ls.last())),
            Some(m) => Some(if m <= indent(ls.last()) {
                m
            } else {
                indent(ls.last())
            }),
        }
    }
}

/// A block line with `k` leading characters removed; a blank line becomes empty.
pub open spec fn dedent(l: Seq<char>, k: nat) -> Seq<char> {
    if is_blank(l) {
        Seq::empty()
    } else if k <= l.len() {
        l.subrange(k as int, l.len() as int)
    } else {
        Seq::empty()
    }
}

/// Lines joined with `'\n'` between them.
pub open spec fn join_lines(ls: Seq<Seq<char>>) -> Seq<char>
    decreases ls.len(),
{
    if ls.len() == 0 {
        Seq::empty()
    } else if ls.len() == 1 {
        ls[0]
    } else {
        join_lines(ls.drop_last()) + seq!['\n'] + ls.last()
    }
}

/// The body of the block lines `ls`: their common indentation removed,
/// joined with `'\n'`.
pub open spec fn block_body(ls: Seq<Seq<char>>) -> Seq<char> {
    let k = match min_indent(ls) {
        Some(m) => m,
        None => 0,
    };
    join_lines(Seq::new(ls.len(), |j: int| dedent(ls[j], k)))
}

/// A block whose lines start at `start`: its body and the index of its
/// closing `}` line.
pub open spec fn collect_block(ls: Seq<Seq<char>>, start: int) -> Result<
    (Seq<char>, int),
    SpecErrorView,
> {
    match block_end(ls, start) {
        None => Err(SpecErrorView::UnterminatedBlock(start)),
        Some(e) => Ok((block_body(ls.subrange(start, e)), e)),
    }
}

pub proof fn lemma_block_end_bounds(ls: Seq<Seq<char>>, i: int)
    ensures
        block_end(ls, i) matches Some(e) ==> 0 <= i <= e < ls.len(),
    decreases ls.len() - i,
{
    if !(i < 0 || i >= ls.len()) && trim(ls[i]) != seq!['}'] {
        lemma_block_end_bounds(ls, i + 1);
    }
}

// ---------------------------------------------------------------------------
// Directives

/// The directives read so far.
#[verifier::ext_equal]
pub struct Draft {
    pub name: Option<Seq<char>>,
    pub targets: Seq<Seq<char>>,
    pub runner: Option<Seq<char>>,
    pub runner_args: Seq<Seq<char>>,
    pub lang: Option<Seq<char>>,
    pub fixtures: Seq<FixtureView>,
    pub witnesses: Seq<WitnessView>,
    pub objectives: Seq<ObjectiveView>,
}

pub open spec fn empty_draft() -> Draft {
    Draft {
        name: None,
        targets: Seq::empty(),
        runner: None,
        runner_args: Seq::empty(),
        lang: None,
        fixtures: Seq::empty(),
        witnesses: Seq::empty(),
        objectives: Seq::empty(),
    }
}

/// `s` without its trailing `'{'` characters (`trim_end_matches('{')`).
pub open spec fn strip_open_braces(s: Seq<char>) -> Seq<char>
    decreases s.len(),
{
    if s.len() > 0 && s.last() == '{' {
        strip_open_braces(s.drop_last())
    } else {
        s
    }
}

pub open spec fn ends_with_brace(s: Seq<char>) -> bool {
    s.len() > 0 && s.last() == '{'
}

pub open spec fn starts_with(s: Seq<char>, p: Seq<char>) -> bool {
    p.len() <= s.len() && s.subrange(0, p.len() as int) == p
}

/// A decimal as written, if its value in millionths fits a `Decimal`.
pub open spec fn decimal_of(s: Seq<char>) -> Option<Decimal> {
    match decimal_micros(s) {
        Some(m) => if m <= u64::MAX {
            Some(Decimal { micros: m as u64 })
        } else {
            None
        },
        None => None,
    }
}

/// The kind named by a witness mode (`hard` or `soft weight W`) on line `line`.
pub open spec fn witness_kind(mode: Seq<char>, line: int) -> Result<Kind, SpecErrorView> {
    if mode == "hard"@ {
        Ok(Kind::Hard)
    } else if starts_with(mode, "soft weight "@) {
        match decimal_of(trim(mode.subrange(12, mode.len() as int))) {
            Some(w) => Ok(Kind::Soft(w)),
            None => Err(SpecErrorView::BadWeight(line)),
        }
    } else {
        Err(SpecErrorView::UnknownMode(mode, line))
    }
}

/// An objective line `minimises "name"` or `maximises "name" target N`, on
/// line `line`.
pub open spec fn objective_line(t: Seq<char>, line: int) -> Result<ObjectiveView, SpecErrorView> {
    let (kw, rest) = keyword_split(t);
    if kw != "minimises"@ && kw != "maximises"@ {
        Err(SpecErrorView::UnknownObjective(line, kw))
    } else {
        let kind = if kw == "minimises"@ {
            ObjectiveKind::Minimise
        } else {
            ObjectiveKind::Maximise
        };
        match split_quoted(rest) {
            Err(e) => Err(e),
            Ok((name, rem)) => {
                let r = trim(rem);
                if r.len() == 0 {
                    Ok(ObjectiveView { kind, name, target: None })
                } else {
                    let (k2, v) = keyword_split(r);
                    if k2 == "target"@ && decimal_of(v) is Some {
                        Ok(ObjectiveView { kind, name, target: decimal_of(v) })
                    } else {
                        Err(SpecErrorView::BadObjectiveTarget(line))
                    }
                }
            },
        }
    }
}

/// The objective lines from `j` to the closing `}`: the objectives appended
/// and the index of the `}` line. `start` is the block's first line.
pub open spec fn objective_lines(
    ls: Seq<Seq<char>>,
    j: int,
    start: int,
    acc: Seq<ObjectiveView>,
) -> Result<(Seq<ObjectiveView>, int), SpecErrorView>
    decreases ls.len() - j,
{
    if j < 0 || j >= ls.len() {
        Err(SpecErrorView::UnterminatedBlock(start))
    } else {
        let t = trim(ls[j]);
        if t == seq!['}'] {
            Ok((acc, j))
        } else if t.len() == 0 || t[0] == '#' {
            objective_lines(ls, j + 1, start, acc)
        } else {
            match objective_line(t, j + 1) {
                Err(e) => Err(e),
                Ok(o) => objective_lines(ls, j + 1, start, acc.push(o)),
            }
        }
    }
}

pub proof fn lemma_objective_lines_bounds(
    ls: Seq<Seq<char>>,
    j: int,
    start: int,
    acc: Seq<ObjectiveView>,
)
    ensures
        objective_lines(ls, j, start, acc) matches Ok((_, e)) ==> 0 <= j <= e < ls.len(),
    decreases ls.len() - j,
{
    if !(j < 0 || j >= ls.len()) {
        let t = trim(ls[j]);
        if t != seq!['}'] {
            if t.len() == 0 || t[0] == '#' {
                lemma_objective_lines_bounds(ls, j + 1, start, acc);
            } else {
                match objective_line(t, j + 1) {
                    Err(e) => {},
                    Ok(o) => lemma_objective_lines_bounds(ls, j + 1, start, acc.push(o)),
                }
            }
        }
    }
}

/// What the line `i` (a directive, not blank or a comment) does to the
/// draft `d`: the new draft and the index of the line it ended on.
pub open spec fn directive(ls: Seq<Seq<char>>, i: int, d: Draft) -> Result<(Draft, int), SpecErrorView> {
    let (kw, rest) = keyword_split(trim(ls[i]));
    if kw == "spec"@ {
        if d.name is Some {
            Err(SpecErrorView::DuplicateSpec(i + 1))
        } else {
            match extract_quoted(rest) {
                Err(e) => Err(e),
                Ok(n) => Ok((Draft { name: Some(n), ..d }, i)),
            }
        }
    } else if kw == "target"@ {
        match extract_quoted(rest) {
            Err(e) => Err(e),
            Ok(t) => Ok((Draft { targets: d.targets.push(t), ..d }, i)),
        }
    } else if kw == "runner"@ {
        if d.runner is Some {
            Err(SpecErrorView::DuplicateRunner(i + 1))
        } else {
            Ok((Draft { runner: Some(rest), ..d }, i))
        }
    } else if kw == "runner_args"@ {
        match string_array(rest) {
            Err(e) => Err(e),
            Ok(a) => Ok((Draft { runner_args: a, ..d }, i)),
        }
    } else if kw == "lang"@ {
        Ok((Draft { lang: Some(rest), ..d }, i))
    } else if kw == "fixture"@ {
        if !ends_with_brace(rest) {
            Err(SpecErrorView::FixtureBrace(i + 1))
        } else {
            let fname = trim(strip_open_braces(rest));
            match collect_block(ls, i + 1) {
                Err(e) => Err(e),
                Ok((body, e)) => Ok(
                    (
                        Draft { fixtures: d.fixtures.push(FixtureView { name: fname, body }), ..d },
                        e,
                    ),
                ),
            }
        }
    } else if kw == "witness"@ {
        match split_quoted(rest) {
            Err(e) => Err(e),
            Ok((wname, rem)) => {
                let r = trim(rem);
                if !ends_with_brace(r) {
                    Err(SpecErrorView::WitnessBrace(i + 1))
                } else {
                    match witness_kind(trim(strip_open_braces(r)), i + 1) {
                        Err(e) => Err(e),
                        Ok(kind) => match collect_block(ls, i + 1) {
                            Err(e) => Err(e),
                            Ok((body, e)) => Ok(
                                (
                                    Draft {
                                        witnesses: d.witnesses.push(
                                            WitnessView { name: wname, kind, body },
                                        ),
                                        ..d
                                    },
                                    e,
                                ),
                            ),
                        },
                    }
                }
            },
        }
    } else if kw == "objective"@ {
        if !(ends_with_brace(rest) && trim(strip_open_braces(rest)).len() == 0) {
            Err(SpecErrorView::ObjectiveBrace(i + 1))
        } else {
            match objective_lines(ls, i + 1, i + 1, d.objectives) {
                Err(e) => Err(e),
                Ok((os, e)) => Ok((Draft { objectives: os, ..d }, e)),
            }
        }
    } else {
        Err(SpecErrorView::UnknownKeyword(i + 1, kw))
    }
}

pub proof fn lemma_directive_bounds(ls: Seq<Seq<char>>, i: int, d: Draft)
    requires
        0 <= i < ls.len(),
    ensures
        directive(ls, i, d) matches Ok((_, e)) ==> i <= e < ls.len(),
{
    lemma_block_end_bounds(ls, i + 1);
    lemma_objective_lines_bounds(ls, i + 1, i + 1, d.objectives);
}

/// Reading an objective block keeps the objectives read before it, in
/// order, and adds after them.
proof fn lemma_objective_lines_extend(
    ls: Seq<Seq<char>>,
    j: int,
    start: int,
    acc: Seq<ObjectiveView>,
)
    ensures
        objective_lines(ls, j, start, acc) matches Ok((os, _)) ==> acc.is_prefix_of(os),
    decreases ls.len() - j,
{
    if !(j < 0 || j >= ls.len()) {
        let t = trim(ls[j]);
        if t == seq!['}'] {
            assert(acc.is_prefix_of(acc));
        } else if t.len() == 0 || t[0] == '#' {
            lemma_objective_lines_extend(ls, j + 1, start, acc);
        } else {
            match objective_line(t, j + 1) {
                Err(e) => {},
                Ok(o) => {
                    lemma_objective_lines_extend(ls, j + 1, start, acc.push(o));
                    if let Ok((os, _)) = objective_lines(ls, j + 1, start, acc.push(o)) {
                        assert(acc.is_prefix_of(os)) by {
                            assert(os.subrange(0, acc.len() as int) =~= os.subrange(
                                0,
                                acc.len() + 1int,
                            ).subrange(0, acc.len() as int));
                            assert(acc.push(o).subrange(0, acc.len() as int) =~= acc);
                        }
                    }
                },
            }
        }
    }
}

/// One directive never drops or changes what earlier lines read: the
/// targets, fixtures, witnesses and objectives read before it stay, in
/// order, at the front. A `witness` directive adds exactly one witness, at
/// the end, named by the quoted name on its line; a `fixture` directive adds
/// exactly one fixture and a `target` directive exactly one target; no other
/// directive changes the witnesses.
pub proof fn law_directive_keeps_earlier(ls: Seq<Seq<char>>, i: int, d: Draft)
    requires
        0 <= i < ls.len(),
    ensures
        directive(ls, i, d) matches Ok((d2, _)) ==> {
            let kw = keyword_split(trim(ls[i])).0;
            let rest = keyword_split(trim(ls[i])).1;
            &&& d.targets.is_prefix_of(d2.targets)
            &&& d.fixtures.is_prefix_of(d2.fixtures)
            &&& d.witnesses.is_prefix_of(d2.witnesses)
            &&& d.objectives.is_prefix_of(d2.objectives)
            &&& d2.witnesses.len() == d.witnesses.len() + if kw == "witness"@ {
                1int
            } else {
                0int
            }
            &&& d2.fixtures.len() == d.fixtures.len() + if kw == "fixture"@ {
                1int
            } else {
                0int
            }
            &&& d2.targets.len() == d.targets.len() + if kw == "target"@ {
                1int
            } else {
                0int
            }
            &&& kw == "witness"@ ==> (split_quoted(rest) matches Ok((n, rem)) && {
                &&& witness_kind(trim(strip_open_braces(trim(rem))), i + 1) matches Ok(k)
                &&& collect_block(ls, i + 1) matches Ok((b, _))
                &&& d2.witnesses == d.witnesses.push(WitnessView { name: n, kind: k, body: b })
            })
        },
{
    let (kw, rest) = keyword_split(trim(ls[i]));
    reveal_strlit("spec");
    reveal_strlit("target");
    reveal_strlit("runner");
    reveal_strlit("runner_args");
    reveal_strlit("lang");
    reveal_strlit("fixture");
    reveal_strlit("witness");
    reveal_strlit("objective");
    assert("fixture"@[0] != "witness"@[0]);
    assert("target"@[0] != "runner"@[0]);
    assert(d.targets.is_prefix_of(d.targets));
    assert(d.fixtures.is_prefix_of(d.fixtures));
    assert(d.witnesses.is_prefix_of(d.witnesses));
    assert(d.objectives.is_prefix_of(d.objectives));
    if let Ok((d2, _)) = directive(ls, i, d) {
        if kw == "target"@ {
            assert(d2.targets.subrange(0, d.targets.len() as int) =~= d.targets);
        } else if kw == "fixture"@ {
            assert(d2.fixtures.subrange(0, d.fixtures.len() as int) =~= d.fixtures);
        } else if kw == "witness"@ {
            assert(d2.witnesses.subrange(0, d.witnesses.len() as int) =~= d.witnesses);
        } else if kw == "objective"@ {
            lemma_objective_lines_extend(ls, i + 1, i + 1, d.objectives);
        }
    }
}

/// The draft after the lines from `i` on.
pub open spec fn parse_lines(ls: Seq<Seq<char>>, i: int, d: Draft) -> Result<Draft, SpecErrorView>
    decreases ls.len() - i,
{
    if i < 0 || i >= ls.len() {
        Ok(d)
    } else {
        let t = trim(ls[i]);
        if t.len() == 0 || t[0] == '#' {
            parse_lines(ls, i + 1, d)
        } else {
            match directive(ls, i, d) {
                Err(e) => Err(e),
                Ok((d2, e)) => {
                    proof {
                        lemma_directive_bounds(ls, i, d);
                    }
                    parse_lines(ls, e + 1, d2)
                },
            }
        }
    }
}

/// Reading the lines from `i` on never drops or reorders what was read
/// before: the targets, fixtures, witnesses and objectives of the draft `d`
/// stay, in order, at the front of what the lines give.
pub proof fn law_parse_keeps_earlier(ls: Seq<Seq<char>>, i: int, d: Draft)
    ensures
        parse_lines(ls, i, d) matches Ok(d2) ==> {
            &&& d.targets.is_prefix_of(d2.targets)
            &&& d.fixtures.is_prefix_of(d2.fixtures)
            &&& d.witnesses.is_prefix_of(d2.witnesses)
            &&& d.objectives.is_prefix_of(d2.objectives)
        },
    decreases ls.len() - i,
{
    assert(d.targets.is_prefix_of(d.targets));
    assert(d.fixtures.is_prefix_of(d.fixtures));
    assert(d.witnesses.is_prefix_of(d.witnesses));
    assert(d.objectives.is_prefix_of(d.objectives));
    if !(i < 0 || i >= ls.len()) {
        let t = trim(ls[i]);
        if t.len() == 0 || t[0] == '#' {
            law_parse_keeps_earlier(ls, i + 1, d);
        } else {
            if let Ok((d2, e)) = directive(ls, i, d) {
                lemma_directive_bounds(ls, i, d);
                law_directive_keeps_earlier(ls, i, d);
                law_parse_keeps_earlier(ls, e + 1, d2);
                if let Ok(d3) = parse_lines(ls, e + 1, d2) {
                    lemma_prefix_trans(d.targets, d2.targets, d3.targets);
                    lemma_prefix_trans(d.fixtures, d2.fixtures, d3.fixtures);
                    lemma_prefix_trans(d.witnesses, d2.witnesses, d3.witnesses);
                    lemma_prefix_trans(d.objectives, d2.objectives, d3.objectives);
                }
            }
        }
    }
}

proof fn lemma_prefix_trans<T>(a: Seq<T>, b: Seq<T>, c: Seq<T>)
    requires
        a.is_prefix_of(b),
        b.is_prefix_of(c),
    ensures
        a.is_prefix_of(c),
{
    assert(c.subrange(0, a.len() as int) =~= c.subrange(0, b.len() as int).subrange(
        0,
        a.len() as int,
    ));
}

/// The spec a draft makes, once `spec`, `target`, `runner` and `lang` are
/// all there.
pub open spec fn finish(d: Draft) -> Result<SpecView, SpecErrorView> {
    if d.name is None {
        Err(SpecErrorView::MissingSpec)
    } else if d.targets.len() == 0 {
        Err(SpecErrorView::MissingTarget)
    } else if d.runner is None {
        Err(SpecErrorView::MissingRunner)
    } else if d.lang is None {
        Err(SpecErrorView::MissingLang)
    } else {
        Ok(
            SpecView {
                name: d.name.unwrap(),
                targets: d.targets,
                runner: d.runner.unwrap(),
                runner_args: d.runner_args,
                lang: d.lang.unwrap(),
                fixtures: d.fixtures,
                witnesses: d.witnesses,
                objectives: d.objectives,
            },
        )
    }
}

/// The spec written in the text `s`.
pub open spec fn spec_of_text(s: Seq<char>) -> Result<SpecView, SpecErrorView> {
    match parse_lines(split_lines(s), 0, empty_draft()) {
        Err(e) => Err(e),
        Ok(d) => finish(d),
    }
}


// ---------------------------------------------------------------------------
// Executable parser

/// The views of a vector of lines.
pub open spec fn lines_view(v: Seq<Vec<char>>) -> Seq<Seq<char>> {
    Seq::new(v.len(), |i: int| v[i]@)
}

/// `c[a..b]` as a new buffer.
fn span_vec(c: &Vec<char>, a: usize, b: usize) -> (r: Vec<char>)
    requires
        a <= b <= c@.len(),
    ensures
        r@ == c@.subrange(a as int, b as int),
{
    let mut r: Vec<char> = Vec::new();
    let mut i = a;
    while i < b
        invariant
            a <= i <= b <= c@.len(),
            r@ == c@.subrange(a as int, i as int),
        decreases b - i,
    {
        r.push(c[i]);
        assert(c@.subrange(a as int, i + 1) =~= c@.subrange(a as int, i as int).push(c@[i as int]));
        i = i + 1;
    }
    r
}

/// `c[a..b]` without one trailing carriage return, as a new buffer.
fn line_vec(c: &Vec<char>, a: usize, b: usize) -> (r: Vec<char>)
    requires
        a <= b <= c@.len(),
    ensures
        r@ == strip_cr(c@.subrange(a as int, b as int)),
{
    if b > a && c[b - 1] == '\r' {
        assert(c@.subrange(a as int, b as int).drop_last() =~= c@.subrange(a as int, b - 1));
        span_vec(c, a, b - 1)
    } else {
        span_vec(c, a, b)
    }
}

/// The lines of `c` (see `split_lines`).
fn lines_of(c: &Vec<char>) -> (ls: Vec<Vec<char>>)
    ensures
        lines_view(ls@) == split_lines(c@),
{
    let n = c.len();
    let nl = vec!['\n'];
    assert(nl@ =~= seq!['\n']);
    let mut ls: Vec<Vec<char>> = Vec::new();
    let mut cur: usize = 0;
    assert(c@.subrange(0, n as int) =~= c@);
    assert(lines_view(ls@) + split_lines(c@) =~= split_lines(c@));
    while cur < n
        invariant
            cur <= n == c@.len(),
            nl@ == seq!['\n'],
            split_lines(c@) == lines_view(ls@) + split_lines(c@.subrange(cur as int, n as int)),
        decreases n - cur,
    {
        let ghost rest = c@.subrange(cur as int, n as int);
        proof {
            lemma_find_first_sub(c@, seq!['\n'], cur as int, n as int, 0, n - cur);
        }
        match find(c, &nl, cur, n) {
            None => {
                let l = line_vec(c, cur, n);
                let ghost prev = lines_view(ls@);
                ls.push(l);
                assert(lines_view(ls@) =~= prev + seq![strip_cr(rest)]);
                assert(split_lines(c@.subrange(n as int, n as int)) =~= Seq::<Seq<char>>::empty()) by {
                    assert(c@.subrange(n as int, n as int).len() == 0);
                }
                assert(lines_view(ls@) + Seq::<Seq<char>>::empty() =~= lines_view(ls@));
                cur = n;
            },
            Some(i) => {
                proof {
                    lemma_find_first_bounds(c@, seq!['\n'], cur as int, n as int);
                }
                let l = line_vec(c, cur, i);
                let ghost prev = lines_view(ls@);
                ls.push(l);
                assert(rest.subrange(0, i - cur) =~= c@.subrange(cur as int, i as int));
                assert(rest.subrange(i - cur + 1, rest.len() as int) =~= c@.subrange(
                    i + 1,
                    n as int,
                ));
                assert(lines_view(ls@) =~= prev + seq![strip_cr(c@.subrange(cur as int, i as int))]);
                assert(prev + (seq![strip_cr(c@.subrange(cur as int, i as int))] + split_lines(
                    c@.subrange(i + 1, n as int),
                )) =~= lines_view(ls@) + split_lines(c@.subrange(i + 1, n as int)));
                cur = i + 1;
            },
        }
    }
    assert(split_lines(c@.subrange(n as int, n as int)) =~= Seq::<Seq<char>>::empty()) by {
        assert(c@.subrange(n as int, n as int).len() == 0);
    }
    assert(lines_view(ls@) + Seq::<Seq<char>>::empty() =~= lines_view(ls@));
    ls
}

/// Whether `l[lo..hi]` is `lit`.
fn span_is(l: &Vec<char>, lo: usize, hi: usize, lit: &Vec<char>) -> (r: bool)
    requires
        lo <= hi <= l@.len(),
    ensures
        r == (l@.subrange(lo as int, hi as int) == lit@),
{
    if hi - lo != lit.len() {
        return false;
    }
    crate::text::eq_at(l, lit, lo)
}

/// The keyword of the line `l[lo..hi]` (ending at `r.0`) and its trimmed rest
/// (`l[r.1..r.2]`), as `keyword_split` gives them.
fn split_keyword(l: &Vec<char>, lo: usize, hi: usize) -> (r: (usize, usize, usize))
    requires
        lo <= hi <= l@.len(),
    ensures
        lo <= r.0 <= hi,
        r.1 <= r.2 <= hi,
        keyword_split(l@.subrange(lo as int, hi as int)) == (
            l@.subrange(lo as int, r.0 as int),
            l@.subrange(r.1 as int, r.2 as int),
        ),
{
    let ghost t = l@.subrange(lo as int, hi as int);
    let mut w = lo;
    while w < hi && !is_whitespace(l[w])
        invariant
            lo <= w <= hi <= l@.len(),
            t == l@.subrange(lo as int, hi as int),
            first_ws(t, 0) == first_ws(t, w - lo),
        decreases hi - w,
    {
        w = w + 1;
    }
    if w == hi {
        assert(t.subrange(0, t.len() as int) =~= t);
        assert(l@.subrange(hi as int, hi as int) =~= Seq::<char>::empty());
        (hi, hi, hi)
    } else {
        let (a, b) = trim_span(l, w + 1, hi);
        assert(t.subrange(0, w - lo) =~= l@.subrange(lo as int, w as int));
        assert(t.subrange(w - lo + 1, t.len() as int) =~= l@.subrange(w + 1, hi as int));
        (w, a, b)
    }
}

/// A leading quoted string of `l[lo..hi]` and where the text after its
/// closing quote starts (it runs to `hi`).
fn split_quoted_span(l: &Vec<char>, lo: usize, hi: usize) -> (r: Result<(String, usize), SpecError>)
    requires
        lo <= hi <= l@.len(),
    ensures
        match r {
            Ok((q, rs)) => rs <= hi && split_quoted(l@.subrange(lo as int, hi as int)) == Ok::<
                _,
                SpecErrorView,
            >((q@, l@.subrange(rs as int, hi as int))),
            Err(e) => split_quoted(l@.subrange(lo as int, hi as int)) == Err::<
                (Seq<char>, Seq<char>),
                _,
            >(e@),
        },
{
    let a = trim_start_span(l, lo, hi);
    if a == hi || l[a] != '"' {
        return Err(SpecError::ExpectedQuoted);
    }
    let q = vec!['"'];
    assert(q@ =~= seq!['"']);
    let ghost u = l@.subrange(a + 1, hi as int);
    assert(l@.subrange(a as int, hi as int).drop_first() =~= u);
    proof {
        lemma_find_first_sub(l@, seq!['"'], a + 1, hi as int, 0, hi - a - 1);
    }
    match find(l, &q, a + 1, hi) {
        None => Err(SpecError::UnterminatedQuoted),
        Some(i) => {
            proof {
                lemma_find_first_bounds(l@, seq!['"'], a + 1, hi as int);
            }
            assert(u.subrange(0, i - a - 1) =~= l@.subrange(a + 1, i as int));
            assert(u.subrange(i - a, u.len() as int) =~= l@.subrange(i + 1, hi as int));
            Ok((string_of(l, a + 1, i), i + 1))
        },
    }
}

/// `l[lo..hi]` as one quoted string (see `extract_quoted`).
fn extract_quoted_span(l: &Vec<char>, lo: usize, hi: usize) -> (r: Result<String, SpecError>)
    requires
        lo <= hi <= l@.len(),
    ensures
        match r {
            Ok(q) => extract_quoted(l@.subrange(lo as int, hi as int)) == Ok::<_, SpecErrorView>(q@),
            Err(e) => extract_quoted(l@.subrange(lo as int, hi as int)) == Err::<Seq<char>, _>(e@),
        },
{
    let (q, rs) = split_quoted_span(l, lo, hi)?;
    let (a, b) = trim_span(l, rs, hi);
    if b > a {
        return Err(SpecError::TrailingContent(string_of(l, rs, hi)));
    }
    Ok(q)
}


/// The strings of the array `l[lo..hi]` (see `string_array`).
fn extract_string_array(l: &Vec<char>, lo: usize, hi: usize) -> (r: Result<Vec<String>, SpecError>)
    requires
        lo <= hi <= l@.len(),
    ensures
        match r {
            Ok(v) => string_array(l@.subrange(lo as int, hi as int)) == Ok::<_, SpecErrorView>(
                strings_view(v@),
            ),
            Err(e) => string_array(l@.subrange(lo as int, hi as int)) == Err::<Seq<Seq<char>>, _>(
                e@,
            ),
        },
{
    let (a, b) = trim_span(l, lo, hi);
    let ghost t = l@.subrange(a as int, b as int);
    if !(b > a && l[a] == '[' && l[b - 1] == ']') {
        proof {
            if t.len() > 0 {
                assert(t[0] == l@[a as int] && t.last() == l@[b - 1]);
            }
        }
        return Err(SpecError::ExpectedArray);
    }
    assert(t[0] == l@[a as int] && t.last() == l@[b - 1]);
    assert(b - a >= 2);
    assert(t.subrange(1, t.len() - 1) =~= l@.subrange(a + 1, b - 1));
    let (ia, ib) = trim_span(l, a + 1, b - 1);
    let mut res: Vec<String> = Vec::new();
    if ia == ib {
        assert(strings_view(res@) =~= Seq::<Seq<char>>::empty());
        return Ok(res);
    }
    let ghost inner = l@.subrange(ia as int, ib as int);
    let mut cur: Vec<char> = Vec::new();
    let mut inq = false;
    let mut k = ia;
    assert(strings_view(res@) =~= Seq::<Seq<char>>::empty());
    assert(cur@ =~= Seq::<char>::empty());
    while k < ib
        invariant
            ia <= k <= ib <= l@.len(),
            inner == l@.subrange(ia as int, ib as int),
            string_array(l@.subrange(lo as int, hi as int)) == list_items(
                inner,
                k - ia,
                cur@,
                inq,
                strings_view(res@),
            ),
        decreases ib - k,
    {
        let ch = l[k];
        assert(inner[k - ia] == ch);
        if ch == '"' {
            inq = !inq;
            cur.push('"');
        } else if ch == ',' && !inq {
            let cn = cur.len();
            assert(cur@.subrange(0, cn as int) =~= cur@);
            let (ca, cb) = trim_span(&cur, 0, cn);
            let q = extract_quoted_span(&cur, ca, cb)?;
            let ghost prev = strings_view(res@);
            res.push(q);
            assert(strings_view(res@) =~= prev.push(q@));
            cur = Vec::new();
            assert(cur@ =~= Seq::<char>::empty());
        } else {
            cur.push(ch);
        }
        k = k + 1;
    }
    let cn = cur.len();
    assert(cur@.subrange(0, cn as int) =~= cur@);
    let (ca, cb) = trim_span(&cur, 0, cn);
    if cb > ca {
        let q = extract_quoted_span(&cur, ca, cb)?;
        let ghost prev = strings_view(res@);
        res.push(q);
        assert(strings_view(res@) =~= prev.push(q@));
    }
    Ok(res)
}

/// The number of leading whitespace characters of `l`.
fn indent_of(l: &Vec<char>) -> (k: usize)
    ensures
        k == indent(l@),
        k <= l@.len(),
{
    let n = l.len();
    let mut k: usize = 0;
    assert(l@.skip(0) =~= l@);
    while k < n && is_whitespace(l[k])
        invariant
            k <= n == l@.len(),
            indent(l@) == k + indent(l@.skip(k as int)),
        decreases n - k,
    {
        assert(l@.skip(k as int).drop_first() =~= l@.skip(k + 1));
        k = k + 1;
    }
    k
}

/// Whether the line `l` is blank.
fn blank(l: &Vec<char>) -> (r: bool)
    ensures
        r == is_blank(l@),
{
    let n = l.len();
    assert(l@.subrange(0, n as int) =~= l@);
    let (a, b) = trim_span(l, 0, n);
    a == b
}

/// The block starting at line `start` (see `collect_block`).
fn collect_block_lines(ls: &Vec<Vec<char>>, start: usize) -> (r: Result<(String, usize), SpecError>)
    requires
        start <= ls@.len(),
    ensures
        match r {
            Ok((body, e)) => collect_block(lines_view(ls@), start as int) == Ok::<
                _,
                SpecErrorView,
            >((body@, e as int)),
            Err(err) => collect_block(lines_view(ls@), start as int) == Err::<(Seq<char>, int), _>(
                err@,
            ),
        },
{
    let ghost lv = lines_view(ls@);
    let n = ls.len();
    let close = vec!['}'];
    assert(close@ =~= seq!['}']);
    let mut e = start;
    while e < n
        invariant
            start <= e <= n == ls@.len(),
            lv == lines_view(ls@),
            close@ == seq!['}'],
            block_end(lv, start as int) == block_end(lv, e as int),
        ensures
            start <= e <= n,
            block_end(lv, start as int) == block_end(lv, e as int),
            e < n ==> trim(lv[e as int]) == seq!['}'],
        decreases n - e,
    {
        let line = &ls[e];
        let ln = line.len();
        assert(line@.subrange(0, ln as int) =~= line@);
        let (a, b) = trim_span(line, 0, ln);
        if span_is(line, a, b, &close) {
            break ;
        }
        e = e + 1;
    }
    if e == n {
        return Err(SpecError::UnterminatedBlock(start));
    }
    assert(block_end(lv, e as int) == Some(e as int));
    let ghost blk = lv.subrange(start as int, e as int);
    let mut m: Option<usize> = None;
    let mut j = start;
    assert(lv.subrange(start as int, start as int) =~= Seq::<Seq<char>>::empty());
    while j < e
        invariant
            start <= j <= e < n == ls@.len(),
            lv == lines_view(ls@),
            match m {
                Some(x) => min_indent(lv.subrange(start as int, j as int)) == Some(x as nat),
                None => min_indent(lv.subrange(start as int, j as int)) is None,
            },
        decreases e - j,
    {
        let line = &ls[j];
        assert(lv.subrange(start as int, j + 1).drop_last() =~= lv.subrange(start as int, j as int));
        assert(lv.subrange(start as int, j + 1).last() == line@);
        if !blank(line) {
            let ind = indent_of(line);
            m = match m {
                None => Some(ind),
                Some(x) => Some(if x <= ind { x } else { ind }),
            };
        }
        j = j + 1;
    }
    let k: usize = match m {
        Some(x) => x,
        None => 0,
    };
    let ghost d = Seq::new(blk.len(), |x: int| dedent(blk[x], k as nat));
    let mut out: Vec<char> = Vec::new();
    let mut j = start;
    assert(d.take(0) =~= Seq::<Seq<char>>::empty());
    while j < e
        invariant
            start <= j <= e < n == ls@.len(),
            lv == lines_view(ls@),
            blk == lv.subrange(start as int, e as int),
            d == Seq::new(blk.len(), |x: int| dedent(blk[x], k as nat)),
            out@ == join_lines(d.take(j - start)),
        decreases e - j,
    {
        let line = &ls[j];
        assert(blk[j - start] == line@);
        let ghost prev = out@;
        if j > start {
            out.push('\n');
        }
        let ln = line.len();
        if !blank(line) && k <= ln {
            let mut x = k;
            while x < ln
                invariant
                    k <= x <= ln == line@.len(),
                    out@ == (if j > start {
                        prev + seq!['\n']
                    } else {
                        prev
                    }) + line@.subrange(k as int, x as int),
                decreases ln - x,
            {
                out.push(line[x]);
                x = x + 1;
            }
        }
        assert(d[j - start] == dedent(line@, k as nat));
        assert(d.take(j - start + 1).drop_last() =~= d.take(j - start));
        if j > start {
            assert(out@ =~= join_lines(d.take(j - start)) + seq!['\n'] + d[j - start]);
        } else {
            assert(out@ =~= d[j - start]);
        }
        j = j + 1;
    }
    assert(d.take(e - start) =~= d);
    let body = string_of(&out, 0, out.len());
    assert(out@.subrange(0, out@.len() as int) =~= out@);
    Ok((body, e))
}


/// An optional string's view.
pub open spec fn opt_view(o: Option<String>) -> Option<Seq<char>> {
    match o {
        Some(s) => Some(s@),
        None => None,
    }
}

/// The objectives' views.
pub open spec fn objectives_view(v: Seq<Objective>) -> Seq<ObjectiveView> {
    Seq::new(v.len(), |i: int| v[i]@)
}

/// The directives read so far, as values.
struct DraftBuf {
    name: Option<String>,
    targets: Vec<String>,
    runner: Option<String>,
    runner_args: Vec<String>,
    lang: Option<String>,
    fixtures: Vec<Fixture>,
    witnesses: Vec<Witness>,
    objectives: Vec<Objective>,
}

impl View for DraftBuf {
    type V = Draft;

    closed spec fn view(&self) -> Draft {
        Draft {
            name: opt_view(self.name),
            targets: strings_view(self.targets@),
            runner: opt_view(self.runner),
            runner_args: strings_view(self.runner_args@),
            lang: opt_view(self.lang),
            fixtures: Seq::new(self.fixtures@.len(), |i: int| self.fixtures@[i]@),
            witnesses: Seq::new(self.witnesses@.len(), |i: int| self.witnesses@[i]@),
            objectives: objectives_view(self.objectives@),
        }
    }
}

/// The keywords of the format, as character buffers.
struct Words {
    spec: Vec<char>,
    target: Vec<char>,
    runner: Vec<char>,
    runner_args: Vec<char>,
    lang: Vec<char>,
    fixture: Vec<char>,
    witness: Vec<char>,
    objective: Vec<char>,
    hard: Vec<char>,
    soft_weight: Vec<char>,
    minimises: Vec<char>,
    maximises: Vec<char>,
    target_word: Vec<char>,
}

impl Words {
    spec fn wf(&self) -> bool {
        &&& self.spec@ == "spec"@
        &&& self.target@ == "target"@
        &&& self.runner@ == "runner"@
        &&& self.runner_args@ == "runner_args"@
        &&& self.lang@ == "lang"@
        &&& self.fixture@ == "fixture"@
        &&& self.witness@ == "witness"@
        &&& self.objective@ == "objective"@
        &&& self.hard@ == "hard"@
        &&& self.soft_weight@ == "soft weight "@
        &&& self.soft_weight@.len() == 12
        &&& self.minimises@ == "minimises"@
        &&& self.maximises@ == "maximises"@
        &&& self.target_word@ == "target"@
    }

    fn new() -> (w: Words)
        ensures
            w.wf(),
    {
        let w = Words {
            spec: chars_of("spec"),
            target: chars_of("target"),
            runner: chars_of("runner"),
            runner_args: chars_of("runner_args"),
            lang: chars_of("lang"),
            fixture: chars_of("fixture"),
            witness: chars_of("witness"),
            objective: chars_of("objective"),
            hard: chars_of("hard"),
            soft_weight: chars_of("soft weight "),
            minimises: chars_of("minimises"),
            maximises: chars_of("maximises"),
            target_word: chars_of("target"),
        };
        proof {
            reveal_strlit("soft weight ");
        }
        w
    }
}

/// The end of `l[lo..hi]` once trailing `'{'` characters are dropped.
fn strip_braces_end(l: &Vec<char>, lo: usize, hi: usize) -> (z: usize)
    requires
        lo <= hi <= l@.len(),
    ensures
        lo <= z <= hi,
        l@.subrange(lo as int, z as int) == strip_open_braces(l@.subrange(lo as int, hi as int)),
{
    let mut z = hi;
    while z > lo && l[z - 1] == '{'
        invariant
            lo <= z <= hi <= l@.len(),
            strip_open_braces(l@.subrange(lo as int, hi as int)) == strip_open_braces(
                l@.subrange(lo as int, z as int),
            ),
        decreases z,
    {
        assert(l@.subrange(lo as int, z as int).drop_last() =~= l@.subrange(lo as int, z - 1));
        z = z - 1;
    }
    z
}

/// The objective on the trimmed line `l[a..b]`, line number `line`.
fn objective_line_span(l: &Vec<char>, a: usize, b: usize, line: usize, w: &Words) -> (r: Result<
    Objective,
    SpecError,
>)
    requires
        a <= b <= l@.len(),
        w.wf(),
    ensures
        match r {
            Ok(o) => objective_line(l@.subrange(a as int, b as int), line as int) == Ok::<
                _,
                SpecErrorView,
            >(o@),
            Err(e) => objective_line(l@.subrange(a as int, b as int), line as int) == Err::<
                ObjectiveView,
                _,
            >(e@),
        },
{
    let (ke, ra, rb) = split_keyword(l, a, b);
    let is_min = span_is(l, a, ke, &w.minimises);
    let is_max = span_is(l, a, ke, &w.maximises);
    if !is_min && !is_max {
        return Err(SpecError::UnknownObjective(line, string_of(l, a, ke)));
    }
    let kind = if is_min {
        ObjectiveKind::Minimise
    } else {
        ObjectiveKind::Maximise
    };
    let (name, rs) = split_quoted_span(l, ra, rb)?;
    let (ta, tb) = trim_span(l, rs, rb);
    if ta == tb {
        return Ok(Objective { kind, name, target: None });
    }
    let (k2, va, vb) = split_keyword(l, ta, tb);
    if span_is(l, ta, k2, &w.target_word) {
        match parse_decimal(l, va, vb) {
            Some(d) => {
                return Ok(Objective { kind, name, target: Some(d) });
            },
            None => {},
        }
    }
    Err(SpecError::BadObjectiveTarget(line))
}

/// The objective block whose lines start at `j0` (see `objective_lines`).
fn objective_block(ls: &Vec<Vec<char>>, j0: usize, start: usize, acc: Vec<Objective>, w: &Words) -> (r:
    Result<(Vec<Objective>, usize), SpecError>)
    requires
        j0 <= ls@.len(),
        w.wf(),
    ensures
        match r {
            Ok((os, e)) => objective_lines(
                lines_view(ls@),
                j0 as int,
                start as int,
                objectives_view(acc@),
            ) == Ok::<_, SpecErrorView>((objectives_view(os@), e as int)),
            Err(err) => objective_lines(
                lines_view(ls@),
                j0 as int,
                start as int,
                objectives_view(acc@),
            ) == Err::<(Seq<ObjectiveView>, int), _>(err@),
        },
{
    let ghost lv = lines_view(ls@);
    let ghost acc0 = objectives_view(acc@);
    let n = ls.len();
    let close = vec!['}'];
    assert(close@ =~= seq!['}']);
    let mut os = acc;
    let mut j = j0;
    while j < n
        invariant
            j0 <= j <= n == ls@.len(),
            lv == lines_view(ls@),
            close@ == seq!['}'],
            w.wf(),
            acc0 == objectives_view(acc@),
            objective_lines(lv, j0 as int, start as int, acc0) == objective_lines(
                lv,
                j as int,
                start as int,
                objectives_view(os@),
            ),
        decreases n - j,
    {
        let line = &ls[j];
        let ln = line.len();
        assert(line@.subrange(0, ln as int) =~= line@);
        assert(lv[j as int] == line@);
        let (a, b) = trim_span(line, 0, ln);
        if span_is(line, a, b, &close) {
            return Ok((os, j));
        }
        if a == b || line[a] == '#' {
            proof {
                if a < b {
                    assert(line@.subrange(a as int, b as int)[0] == line@[a as int]);
                }
            }
        } else {
            assert(line@.subrange(a as int, b as int)[0] == line@[a as int]);
            let o = objective_line_span(line, a, b, j + 1, w)?;
            let ghost prev = objectives_view(os@);
            os.push(o);
            assert(objectives_view(os@) =~= prev.push(o@));
        }
        j = j + 1;
    }
    Err(SpecError::UnterminatedBlock(start))
}


/// The kind named by the witness mode `l[a..b]` on line `line`.
fn witness_kind_span(l: &Vec<char>, a: usize, b: usize, line: usize, w: &Words) -> (r: Result<
    Kind,
    SpecError,
>)
    requires
        a <= b <= l@.len(),
        w.wf(),
    ensures
        match r {
            Ok(k) => witness_kind(l@.subrange(a as int, b as int), line as int) == Ok::<
                _,
                SpecErrorView,
            >(k),
            Err(e) => witness_kind(l@.subrange(a as int, b as int), line as int) == Err::<Kind, _>(
                e@,
            ),
        },
{
    let ghost mode = l@.subrange(a as int, b as int);
    if span_is(l, a, b, &w.hard) {
        return Ok(Kind::Hard);
    }
    if b - a >= 12 && crate::text::eq_at(l, &w.soft_weight, a) {
        assert(mode.subrange(0, 12) =~= l@.subrange(a as int, a + 12));
        assert(mode.subrange(12, mode.len() as int) =~= l@.subrange(a + 12, b as int));
        let (va, vb) = trim_span(l, a + 12, b);
        match parse_decimal(l, va, vb) {
            Some(d) => Ok(Kind::Soft(d)),
            None => Err(SpecError::BadWeight(line)),
        }
    } else {
        proof {
            if mode.len() >= 12 {
                assert(mode.subrange(0, 12) =~= l@.subrange(a as int, a + 12));
            }
        }
        Err(SpecError::UnknownMode(string_of(l, a, b), line))
    }
}

/// What the directive on line `i` does to the draft `d` (see `directive`).
fn apply_directive(ls: &Vec<Vec<char>>, i: usize, d: DraftBuf, w: &Words) -> (r: Result<
    (DraftBuf, usize),
    SpecError,
>)
    requires
        i < ls@.len(),
        w.wf(),
    ensures
        match r {
            Ok((d2, e)) => directive(lines_view(ls@), i as int, d@) == Ok::<_, SpecErrorView>(
                (d2@, e as int),
            ),
            Err(err) => directive(lines_view(ls@), i as int, d@) == Err::<(Draft, int), _>(err@),
        },
{
    let ghost lv = lines_view(ls@);
    let mut d = d;
    let ghost d0 = d@;
    let n = ls.len();
    assert(i + 1 <= n);
    let line = &ls[i];
    assert(lv[i as int] == line@);
    let ln = line.len();
    assert(line@.subrange(0, ln as int) =~= line@);
    let (a, b) = trim_span(line, 0, ln);
    let (ke, ra, rb) = split_keyword(line, a, b);
    if span_is(line, a, ke, &w.spec) {
        if d.name.is_some() {
            return Err(SpecError::DuplicateSpec(i + 1));
        }
        let q = extract_quoted_span(line, ra, rb)?;
        d.name = Some(q);
        assert(d@ =~= Draft { name: Some(q@), ..d0 });
        Ok((d, i))
    } else if span_is(line, a, ke, &w.target) {
        let t = extract_quoted_span(line, ra, rb)?;
        d.targets.push(t);
        assert(strings_view(d.targets@) =~= d0.targets.push(t@));
        assert(d@ =~= Draft { targets: d0.targets.push(t@), ..d0 });
        Ok((d, i))
    } else if span_is(line, a, ke, &w.runner) {
        if d.runner.is_some() {
            return Err(SpecError::DuplicateRunner(i + 1));
        }
        let r = string_of(line, ra, rb);
        d.runner = Some(r);
        assert(d@ =~= Draft { runner: Some(r@), ..d0 });
        Ok((d, i))
    } else if span_is(line, a, ke, &w.runner_args) {
        let args = extract_string_array(line, ra, rb)?;
        d.runner_args = args;
        assert(d@ =~= Draft { runner_args: strings_view(args@), ..d0 });
        Ok((d, i))
    } else if span_is(line, a, ke, &w.lang) {
        let lg = string_of(line, ra, rb);
        d.lang = Some(lg);
        assert(d@ =~= Draft { lang: Some(lg@), ..d0 });
        Ok((d, i))
    } else if span_is(line, a, ke, &w.fixture) {
        if !(rb > ra && line[rb - 1] == '{') {
            proof {
                if rb > ra {
                    assert(line@.subrange(ra as int, rb as int).last() == line@[rb - 1]);
                }
            }
            return Err(SpecError::FixtureBrace(i + 1));
        }
        assert(line@.subrange(ra as int, rb as int).last() == line@[rb - 1]);
        let z = strip_braces_end(line, ra, rb);
        let (fa, fb) = trim_span(line, ra, z);
        let fname = string_of(line, fa, fb);
        let (body, e) = collect_block_lines(ls, i + 1)?;
        let ghost fv = FixtureView { name: fname@, body: body@ };
        d.fixtures.push(Fixture { name: fname, body });
        assert(d@ =~= Draft { fixtures: d0.fixtures.push(fv), ..d0 });
        Ok((d, e))
    } else if span_is(line, a, ke, &w.witness) {
        let (wname, rs) = split_quoted_span(line, ra, rb)?;
        let (x, y) = trim_span(line, rs, rb);
        if !(y > x && line[y - 1] == '{') {
            proof {
                if y > x {
                    assert(line@.subrange(x as int, y as int).last() == line@[y - 1]);
                }
            }
            return Err(SpecError::WitnessBrace(i + 1));
        }
        assert(line@.subrange(x as int, y as int).last() == line@[y - 1]);
        let z = strip_braces_end(line, x, y);
        let (ma, mb) = trim_span(line, x, z);
        let kind = witness_kind_span(line, ma, mb, i + 1, w)?;
        let (body, e) = collect_block_lines(ls, i + 1)?;
        let ghost wv = WitnessView { name: wname@, kind, body: body@ };
        d.witnesses.push(Witness { name: wname, kind, body });
        assert(d@ =~= Draft { witnesses: d0.witnesses.push(wv), ..d0 });
        Ok((d, e))
    } else if span_is(line, a, ke, &w.objective) {
        let z = if rb > ra && line[rb - 1] == '{' {
            strip_braces_end(line, ra, rb)
        } else {
            ra
        };
        let (oa, ob) = trim_span(line, ra, z);
        if !(rb > ra && line[rb - 1] == '{' && oa == ob) {
            proof {
                if rb > ra {
                    assert(line@.subrange(ra as int, rb as int).last() == line@[rb - 1]);
                }
            }
            return Err(SpecError::ObjectiveBrace(i + 1));
        }
        assert(line@.subrange(ra as int, rb as int).last() == line@[rb - 1]);
        let mut objs: Vec<Objective> = Vec::new();
        std::mem::swap(&mut objs, &mut d.objectives);
        assert(objectives_view(objs@) == d0.objectives);
        let (os, e) = objective_block(ls, i + 1, i + 1, objs, w)?;
        d.objectives = os;
        assert(d@ =~= Draft { objectives: objectives_view(os@), ..d0 });
        Ok((d, e))
    } else {
        Err(SpecError::UnknownKeyword(i + 1, string_of(line, a, ke)))
    }
}

/// Parses the text of a spec.
pub fn parse(content: &str) -> (r: Result<Spec, SpecError>)
    ensures
        match r {
            Ok(s) => spec_of_text(content@) == Ok::<_, SpecErrorView>(s@),
            Err(e) => spec_of_text(content@) == Err::<SpecView, _>(e@),
        },
{
    let c = chars_of(content);
    let ls = lines_of(&c);
    let ghost lv = lines_view(ls@);
    let w = Words::new();
    let mut d = DraftBuf {
        name: None,
        targets: Vec::new(),
        runner: None,
        runner_args: Vec::new(),
        lang: None,
        fixtures: Vec::new(),
        witnesses: Vec::new(),
        objectives: Vec::new(),
    };
    assert(d@ =~= empty_draft());
    let n = ls.len();
    let mut i: usize = 0;
    while i < n
        invariant
            i <= n == ls@.len(),
            lv == lines_view(ls@),
            lv == split_lines(c@),
            c@ == content@,
            w.wf(),
            parse_lines(lv, 0, empty_draft()) == parse_lines(lv, i as int, d@),
        decreases n - i,
    {
        let line = &ls[i];
        assert(lv[i as int] == line@);
        let ln = line.len();
        assert(line@.subrange(0, ln as int) =~= line@);
        let (a, b) = trim_span(line, 0, ln);
        if a == b || line[a] == '#' {
            proof {
                if a < b {
                    assert(line@.subrange(a as int, b as int)[0] == line@[a as int]);
                }
            }
            i = i + 1;
        } else {
            assert(line@.subrange(a as int, b as int)[0] == line@[a as int]);
            let (d2, e) = apply_directive(&ls, i, d, &w)?;
            proof {
                lemma_directive_bounds(lv, i as int, d@);
            }
            d = d2;
            i = e + 1;
        }
    }
    let name = match d.name {
        Some(x) => x,
        None => {
            return Err(SpecError::MissingSpec);
        },
    };
    if d.targets.len() == 0 {
        return Err(SpecError::MissingTarget);
    }
    let runner = match d.runner {
        Some(x) => x,
        None => {
            return Err(SpecError::MissingRunner);
        },
    };
    let lang = match d.lang {
        Some(x) => x,
        None => {
            return Err(SpecError::MissingLang);
        },
    };
    let s = Spec {
        name,
        targets: d.targets,
        runner,
        runner_args: d.runner_args,
        lang,
        fixtures: d.fixtures,
        witnesses: d.witnesses,
        objectives: d.objectives,
    };
    Ok(s)
}

} // verus!
