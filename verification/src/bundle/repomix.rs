//! The Repomix XML bundle format.
//!
//! A bundle is a `<file_summary>` block, a directory listing and a `<files>`
//! block holding one `<file path="...">` element per file, whose content is
//! wrapped in one or more CDATA sections.

use crate::bundle::{compute_fingerprint, files_fingerprint, Bundle};
use crate::text::{
    chars_of, find, find_first, find_last, is_ws, lemma_find_first_at, lemma_find_first_bounds,
    lemma_find_first_none, lemma_find_first_some, lemma_find_first_sub, lemma_find_last_bounds,
    lemma_trim_identity, opt_int, push_char, rfind, string_of, trim, trim_span,
};
use crate::text_map::{keys_sorted, lookup, TextMap};
use vstd::prelude::*;

verus! {

/// Why a bundle could not be read.
#[derive(Clone, Debug, PartialEq, Eq)]
pub enum BundleError {
    /// There is no `<files>` block.
    MissingFiles,
    /// The `<files>` block has no `</files>` after it.
    MissingFilesEnd,
    /// A `<file` opening tag has no closing `>`.
    UnterminatedFileTag,
    /// A `<file>` tag's attributes hold no `=` (the trimmed attribute text).
    MalformedAttribute(String),
    /// A `<file>` tag's path is not in double quotes (the trimmed attribute text).
    UnquotedPath(String),
    /// A path that contains `..` (the path, with forward slashes).
    UnsafePath(String),
    /// A CDATA section in this file has no `]]>`.
    UnterminatedCdata(String),
    /// This file has no `</file>`.
    MissingFileEnd(String),
}

/// `BundleError` with its text as character sequences.
pub enum BundleErrorView {
    MissingFiles,
    MissingFilesEnd,
    UnterminatedFileTag,
    MalformedAttribute(Seq<char>),
    UnquotedPath(Seq<char>),
    UnsafePath(Seq<char>),
    UnterminatedCdata(Seq<char>),
    MissingFileEnd(Seq<char>),
}

impl View for BundleError {
    type V = BundleErrorView;

    open spec fn view(&self) -> BundleErrorView {
        match self {
            BundleError::MissingFiles => BundleErrorView::MissingFiles,
            BundleError::MissingFilesEnd => BundleErrorView::MissingFilesEnd,
            BundleError::UnterminatedFileTag => BundleErrorView::UnterminatedFileTag,
            BundleError::MalformedAttribute(s) => BundleErrorView::MalformedAttribute(s@),
            BundleError::UnquotedPath(s) => BundleErrorView::UnquotedPath(s@),
            BundleError::UnsafePath(s) => BundleErrorView::UnsafePath(s@),
            BundleError::UnterminatedCdata(s) => BundleErrorView::UnterminatedCdata(s@),
            BundleError::MissingFileEnd(s) => BundleErrorView::MissingFileEnd(s@),
        }
    }
}

pub open spec fn tok_summary_open() -> Seq<char> {
    seq!['<', 'f', 'i', 'l', 'e', '_', 's', 'u', 'm', 'm', 'a', 'r', 'y', '>']
}

pub open spec fn tok_summary_close() -> Seq<char> {
    seq!['<', '/', 'f', 'i', 'l', 'e', '_', 's', 'u', 'm', 'm', 'a', 'r', 'y', '>']
}

pub open spec fn tok_files_open() -> Seq<char> {
    seq!['<', 'f', 'i', 'l', 'e', 's', '>']
}

pub open spec fn tok_files_close() -> Seq<char> {
    seq!['<', '/', 'f', 'i', 'l', 'e', 's', '>']
}

pub open spec fn tok_file_open() -> Seq<char> {
    seq!['<', 'f', 'i', 'l', 'e', ' ']
}

pub open spec fn tok_file_close() -> Seq<char> {
    seq!['<', '/', 'f', 'i', 'l', 'e', '>']
}

pub open spec fn tok_cdata_open() -> Seq<char> {
    seq!['<', '!', '[', 'C', 'D', 'A', 'T', 'A', '[']
}

pub open spec fn tok_cdata_close() -> Seq<char> {
    seq![']', ']', '>']
}

/// The summary text: the trimmed text between the first `<file_summary>`
/// and the first `</file_summary>` after it, if both are there.
pub open spec fn summary_text(c: Seq<char>) -> Option<Seq<char>> {
    match find_first(c, tok_summary_open(), 0, c.len() as int) {
        None => None,
        Some(start) => {
            let after = start + tok_summary_open().len();
            match find_first(c, tok_summary_close(), after, c.len() as int) {
                None => None,
                Some(end) => Some(trim(c.subrange(after, end))),
            }
        },
    }
}

/// `s` with every backslash replaced by a forward slash.
pub open spec fn forward_slashes(s: Seq<char>) -> Seq<char> {
    s.map_values(|ch: char| if ch == '\\' { '/' } else { ch })
}

/// The path named by a `<file>` tag's attribute text: after the first `=`,
/// a value in double quotes, with backslashes made forward slashes. A path
/// that contains `..` is refused.
pub open spec fn path_attr(attr: Seq<char>) -> Result<Seq<char>, BundleErrorView> {
    let a = trim(attr);
    match find_first(a, seq!['='], 0, a.len() as int) {
        None => Err(BundleErrorView::MalformedAttribute(a)),
        Some(eq) => {
            let v = trim(a.subrange(eq + 1, a.len() as int));
            if v.len() >= 2 && v[0] == '"' && v.last() == '"' {
                let p = forward_slashes(v.subrange(1, v.len() - 1));
                if find_first(p, seq!['.', '.'], 0, p.len() as int) is Some {
                    Err(BundleErrorView::UnsafePath(p))
                } else {
                    Ok(p)
                }
            } else {
                Err(BundleErrorView::UnquotedPath(a))
            }
        },
    }
}

/// How the search for a `</file>` can fail.
pub enum CloseFailure {
    MissingClose,
    UnterminatedCdata,
}

/// The position of the `</file>` that ends a file body starting at `from`,
/// skipping CDATA sections, so that a `</file>` inside one does not count.
pub open spec fn body_end(c: Seq<char>, from: int, end: int) -> Result<int, CloseFailure>
    decreases end - from,
{
    match find_first(c, tok_file_close(), from, end) {
        None => Err(CloseFailure::MissingClose),
        Some(cl) => match find_first(c, tok_cdata_open(), from, end) {
            Some(cd) => if cd < cl {
                match find_first(c, tok_cdata_close(), cd, end) {
                    None => Err(CloseFailure::UnterminatedCdata),
                    Some(x) => {
                        proof {
                            lemma_find_first_bounds(c, tok_cdata_close(), cd, end);
                            lemma_find_first_bounds(c, tok_cdata_open(), from, end);
                        }
                        body_end(c, x + 3, end)
                    },
                }
            } else {
                Ok(cl)
            },
            None => Ok(cl),
        },
    }
}

pub proof fn lemma_body_end_bounds(c: Seq<char>, from: int, end: int)
    ensures
        body_end(c, from, end) matches Ok(x) ==> from <= x && x + 7 <= end && end <= c.len(),
    decreases end - from,
{
    lemma_find_first_bounds(c, tok_file_close(), from, end);
    lemma_find_first_bounds(c, tok_cdata_open(), from, end);
    match find_first(c, tok_file_close(), from, end) {
        None => {},
        Some(cl) => match find_first(c, tok_cdata_open(), from, end) {
            Some(cd) => if cd < cl {
                lemma_find_first_bounds(c, tok_cdata_close(), cd, end);
                match find_first(c, tok_cdata_close(), cd, end) {
                    None => {},
                    Some(x) => {
                        lemma_body_end_bounds(c, x + 3, end);
                    },
                }
            },
            None => {},
        },
    }
}

/// The contents of the CDATA sections of `b` from `from` on, joined; a
/// section with no `]]>` ends the join.
pub open spec fn cdata_join(b: Seq<char>, from: int) -> Seq<char>
    decreases b.len() - from,
{
    match find_first(b, tok_cdata_open(), from, b.len() as int) {
        None => Seq::empty(),
        Some(o) => {
            let cs = o + 9;
            match find_first(b, tok_cdata_close(), cs, b.len() as int) {
                None => Seq::empty(),
                Some(cl) => {
                    proof {
                        lemma_find_first_bounds(b, tok_cdata_open(), from, b.len() as int);
                        lemma_find_first_bounds(b, tok_cdata_close(), cs, b.len() as int);
                    }
                    b.subrange(cs, cl) + cdata_join(b, cl + 3)
                },
            }
        },
    }
}

/// `s` without one leading line break (`"\r\n"` or `"\n"`).
pub open spec fn strip_leading_newline(s: Seq<char>) -> Seq<char> {
    if s.len() >= 2 && s[0] == '\r' && s[1] == '\n' {
        s.subrange(2, s.len() as int)
    } else if s.len() >= 1 && s[0] == '\n' {
        s.subrange(1, s.len() as int)
    } else {
        s
    }
}

/// `s` without one trailing line break (`"\r\n"` or `"\n"`).
pub open spec fn strip_trailing_newline(s: Seq<char>) -> Seq<char> {
    if s.len() >= 2 && s[s.len() - 2] == '\r' && s[s.len() - 1] == '\n' {
        s.subrange(0, s.len() - 2)
    } else if s.len() >= 1 && s[s.len() - 1] == '\n' {
        s.subrange(0, s.len() - 1)
    } else {
        s
    }
}

/// The content of a file body: with no CDATA section, the trimmed body;
/// otherwise its CDATA sections joined (Repomix splits a `]]>` in content
/// across two sections), less the one line break Repomix adds at each end.
pub open spec fn body_content(b: Seq<char>) -> Seq<char> {
    if find_first(b, tok_cdata_open(), 0, b.len() as int) is None {
        trim(b)
    } else {
        strip_trailing_newline(strip_leading_newline(cdata_join(b, 0)))
    }
}

/// Every character of `w` is whitespace.
pub open spec fn all_ws(w: Seq<char>) -> bool {
    forall|i: int| 0 <= i < w.len() ==> is_ws(#[trigger] w[i])
}

/// `raw` holds no `]]>`, so it can stand inside one CDATA section.
pub open spec fn section_safe(raw: Seq<char>) -> bool {
    forall|i: int| 0 <= i && i + 3 <= raw.len() ==> #[trigger] raw.subrange(i, i + 3)
        != tok_cdata_close()
}

/// The CDATA sections holding the texts `raws`, one right after another
/// (as Repomix splits a content that holds `]]>`).
pub open spec fn sections(raws: Seq<Seq<char>>) -> Seq<char>
    decreases raws.len(),
{
    if raws.len() == 0 {
        Seq::empty()
    } else {
        tok_cdata_open() + raws[0] + tok_cdata_close() + sections(raws.drop_first())
    }
}

/// The texts `raws` joined.
pub open spec fn joined(raws: Seq<Seq<char>>) -> Seq<char>
    decreases raws.len(),
{
    if raws.len() == 0 {
        Seq::empty()
    } else {
        raws[0] + joined(raws.drop_first())
    }
}

/// Every text of `raws` can stand inside a CDATA section.
pub open spec fn sections_safe(raws: Seq<Seq<char>>) -> bool {
    forall|k: int| 0 <= k < raws.len() ==> section_safe(#[trigger] raws[k])
}

/// A file body made of the CDATA sections holding `raws`, with the
/// whitespace `w1` before them and `w2` after them.
pub open spec fn section_body(w1: Seq<char>, raws: Seq<Seq<char>>, w2: Seq<char>) -> Seq<char> {
    w1 + sections(raws) + w2
}

/// What a file reads as when its body is the CDATA sections holding `raws`:
/// their texts joined, less one line break at each end.
pub open spec fn section_content(raws: Seq<Seq<char>>) -> Seq<char> {
    strip_trailing_newline(strip_leading_newline(joined(raws)))
}

/// Inside `b`, the first `]]>` at or after `from` (which lies before the
/// section text `raw` at `rs`) is the one that closes the section.
proof fn lemma_section_close(b: Seq<char>, from: int, rs: int, raw: Seq<char>, end: int)
    requires
        0 <= from <= rs,
        rs + raw.len() + 3 <= end <= b.len(),
        b.subrange(rs, rs + raw.len() + 3) == raw + tok_cdata_close(),
        section_safe(raw),
        forall|i: int| from <= i < rs ==> #[trigger] b[i] != ']',
    ensures
        find_first(b, tok_cdata_close(), from, end) == Some(rs + raw.len()),
{
    let r = raw.len() as int;
    let t = raw + tok_cdata_close();
    assert forall|k: int| 0 <= k < r + 3 implies #[trigger] b[rs + k] == t[k] by {
        assert(b.subrange(rs, rs + r + 3)[k] == b[rs + k]);
    }
    assert forall|i: int| from <= i < rs + r implies #[trigger] b.subrange(i, i + 3)
        != tok_cdata_close() by {
        if i < rs {
            assert(b.subrange(i, i + 3)[0] == b[i]);
        } else if i + 3 <= rs + r {
            let q = i - rs;
            assert(raw.subrange(q, q + 3) != tok_cdata_close());
            assert(b.subrange(i, i + 3) =~= raw.subrange(q, q + 3)) by {
                assert forall|j: int| 0 <= j < 3 implies #[trigger] b.subrange(i, i + 3)[j]
                    == raw.subrange(q, q + 3)[j] by {
                    assert(b[rs + (q + j)] == t[q + j]);
                }
            }
        } else {
            assert(b.subrange(i, i + 3)[2] == b[rs + (i + 2 - rs)]);
            assert(t[i + 2 - rs] == ']');
        }
    }
    assert(b.subrange(rs + r, rs + r + 3) =~= tok_cdata_close()) by {
        assert forall|j: int| 0 <= j < 3 implies #[trigger] b.subrange(rs + r, rs + r + 3)[j]
            == tok_cdata_close()[j] by {
            assert(b[rs + (r + j)] == t[r + j]);
        }
    }
    lemma_find_first_at(b, tok_cdata_close(), from, end, rs + r);
}

/// Whitespace trims to nothing.
proof fn lemma_trim_ws(w: Seq<char>)
    requires
        all_ws(w),
    ensures
        trim(w).len() == 0,
    decreases w.len(),
{
    if w.len() > 0 {
        assert(is_ws(w[0]));
        assert forall|i: int| 0 <= i < w.drop_first().len() implies is_ws(
            #[trigger] w.drop_first()[i],
        ) by {
            assert(w.drop_first()[i] == w[i + 1]);
        }
        lemma_trim_ws(w.drop_first());
    }
}

/// From `from` on, `b` holds the whitespace `w`, the sections for `raws`
/// and the whitespace `tail` to its end: the join from `from` is the texts
/// joined, and there is a section to find exactly when `raws` is not empty.
proof fn lemma_join_sections(
    b: Seq<char>,
    from: int,
    w: Seq<char>,
    raws: Seq<Seq<char>>,
    tail: Seq<char>,
)
    requires
        0 <= from <= b.len(),
        b.subrange(from, b.len() as int) == w + sections(raws) + tail,
        all_ws(w),
        all_ws(tail),
        sections_safe(raws),
    ensures
        cdata_join(b, from) == joined(raws),
        (raws.len() == 0) <==> find_first(b, tok_cdata_open(), from, b.len() as int) is None,
    decreases raws.len(),
{
    let len = b.len() as int;
    let u = w + sections(raws) + tail;
    assert forall|k: int| 0 <= k < len - from implies #[trigger] b[from + k] == u[k] by {
        assert(b.subrange(from, len)[k] == b[from + k]);
    }
    let a = w.len() as int;
    if raws.len() == 0 {
        assert(u =~= w + tail);
        assert forall|i: int| from <= i && i + 9 <= len implies #[trigger] b.subrange(i, i + 9)
            != tok_cdata_open() by {
            assert(b.subrange(i, i + 9)[0] == b[from + (i - from)]);
            if i - from < a {
                assert(is_ws(w[i - from]));
            } else {
                assert(u[i - from] == tail[i - from - a]);
                assert(is_ws(tail[i - from - a]));
            }
        }
        lemma_find_first_none(b, tok_cdata_open(), from, len);
    } else {
        let raw = raws[0];
        let rest = raws.drop_first();
        let r = raw.len() as int;
        assert(section_safe(raws[0]));
        let v = w + tok_cdata_open() + raw + tok_cdata_close();
        assert(u =~= v + (sections(rest) + tail));
        assert forall|k: int| 0 <= k < a + 12 + r implies #[trigger] b[from + k] == v[k] by {
            assert(u[k] == v[k]);
        }
        let cd = from + a;
        assert forall|i: int| from <= i < cd implies #[trigger] b.subrange(i, i + 9)
            != tok_cdata_open() by {
            assert(b.subrange(i, i + 9)[0] == b[from + (i - from)]);
            assert(is_ws(w[i - from]));
        }
        assert(b.subrange(cd, cd + 9) =~= tok_cdata_open()) by {
            assert forall|k: int| 0 <= k < 9 implies #[trigger] b.subrange(cd, cd + 9)[k]
                == tok_cdata_open()[k] by {
                assert(b[from + (a + k)] == v[a + k]);
            }
        }
        lemma_find_first_at(b, tok_cdata_open(), from, len, cd);
        assert(b.subrange(cd + 9, cd + 12 + r) =~= raw + tok_cdata_close()) by {
            assert forall|k: int| 0 <= k < r + 3 implies #[trigger] b.subrange(cd + 9, cd + 12 + r)[k]
                == (raw + tok_cdata_close())[k] by {
                assert(b[from + (a + 9 + k)] == v[a + 9 + k]);
            }
        }
        lemma_section_close(b, cd + 9, cd + 9, raw, len);
        let nx = cd + 12 + r;
        assert(b.subrange(nx, len) =~= Seq::<char>::empty() + sections(rest) + tail) by {
            assert forall|k: int| 0 <= k < len - nx implies #[trigger] b.subrange(nx, len)[k]
                == (sections(rest) + tail)[k] by {
                assert(b[from + (a + 12 + r + k)] == u[a + 12 + r + k]);
            }
        }
        assert forall|k: int| 0 <= k < rest.len() implies section_safe(#[trigger] rest[k]) by {
            assert(rest[k] == raws[k + 1]);
        }
        lemma_join_sections(b, nx, Seq::empty(), rest, tail);
        assert(b.subrange(cd + 9, cd + 9 + r) =~= raw);
    }
}

/// A body made of CDATA sections reads as their content, whatever
/// whitespace stands around them.
pub proof fn law_section_body(w1: Seq<char>, raws: Seq<Seq<char>>, w2: Seq<char>)
    requires
        all_ws(w1),
        all_ws(w2),
        sections_safe(raws),
    ensures
        body_content(section_body(w1, raws, w2)) == section_content(raws),
{
    let b = section_body(w1, raws, w2);
    assert(b.subrange(0, b.len() as int) =~= b);
    lemma_join_sections(b, 0, w1, raws, w2);
    if raws.len() == 0 {
        assert(b =~= w1 + w2);
        assert forall|i: int| 0 <= i < b.len() implies is_ws(#[trigger] b[i]) by {
            if i < w1.len() {
                assert(is_ws(w1[i]));
            } else {
                assert(is_ws(w2[i - w1.len()]));
            }
        }
        lemma_trim_ws(b);
        assert(trim(b) =~= Seq::<char>::empty());
    }
}

/// A file body holding the content `x` in one CDATA section, with the line
/// break Repomix adds at each end inside the section, and the whitespace
/// `w1` before the section and `w2` after it.
pub open spec fn spaced_body(w1: Seq<char>, x: Seq<char>, w2: Seq<char>) -> Seq<char> {
    w1 + tok_cdata_open() + seq!['\n'] + x + seq!['\n'] + tok_cdata_close() + w2
}

/// The body Repomix writes for a file's content `c`: a line break, the
/// CDATA section holding `c` between two line breaks, and a line break.
pub open spec fn cdata_body(c: Seq<char>) -> Seq<char> {
    spaced_body(seq!['\n'], c, seq!['\n'])
}

/// Content that a CDATA section carries unchanged: no `]]>` in it, and no
/// carriage return at its end.
pub open spec fn cdata_safe(x: Seq<char>) -> bool {
    &&& forall|i: int| 0 <= i && i + 3 <= x.len() ==> #[trigger] x.subrange(i, i + 3)
        != tok_cdata_close()
    &&& x.len() == 0 || x.last() != '\r'
}

/// The section Repomix writes for `x`, with its two line breaks, holds no
/// `]]>` and reads back as `x`.
proof fn lemma_written_section(x: Seq<char>)
    requires
        cdata_safe(x),
    ensures
        section_safe(seq!['\n'] + x + seq!['\n']),
        strip_trailing_newline(strip_leading_newline(seq!['\n'] + x + seq!['\n'])) == x,
{
    let raw = seq!['\n'] + x + seq!['\n'];
    let n = x.len() as int;
    assert forall|i: int| 0 <= i && i + 3 <= raw.len() implies #[trigger] raw.subrange(i, i + 3)
        != tok_cdata_close() by {
        if i == 0 {
            assert(raw.subrange(i, i + 3)[0] == '\n');
        } else if i + 3 <= n + 1 {
            let j = i - 1;
            assert(x.subrange(j, j + 3) != tok_cdata_close());
            assert(raw.subrange(i, i + 3) =~= x.subrange(j, j + 3));
        } else {
            assert(raw.subrange(i, i + 3)[n + 1 - i] == '\n');
            assert(tok_cdata_close()[n + 1 - i] != '\n');
        }
    }
    let l = strip_leading_newline(raw);
    assert(l =~= x + seq!['\n']);
    if n > 0 {
        assert(l[l.len() - 2] == x.last());
    }
    assert(strip_trailing_newline(l) =~= x);
}

/// A body as Repomix writes it reads back as its content, whatever the
/// whitespace around its CDATA section.
pub proof fn law_cdata_spacing(w1: Seq<char>, x: Seq<char>, w2: Seq<char>)
    requires
        all_ws(w1),
        all_ws(w2),
        cdata_safe(x),
    ensures
        body_content(spaced_body(w1, x, w2)) == x,
{
    lemma_written_section(x);
    let raws = seq![seq!['\n'] + x + seq!['\n']];
    assert(raws.drop_first() =~= Seq::<Seq<char>>::empty());
    assert(joined(Seq::<Seq<char>>::empty()) == Seq::<char>::empty());
    assert(sections(Seq::<Seq<char>>::empty()) == Seq::<char>::empty());
    assert(sections(raws) == tok_cdata_open() + raws[0] + tok_cdata_close() + sections(
        raws.drop_first(),
    ));
    assert(joined(raws) == raws[0] + joined(raws.drop_first()));
    assert(spaced_body(w1, x, w2) =~= section_body(w1, raws, w2));
    assert(joined(raws) =~= seq!['\n'] + x + seq!['\n']);
    assert(sections_safe(raws));
    law_section_body(w1, raws, w2);
}

/// Reading back the body that Repomix writes gives the content unchanged,
/// for content that holds no `]]>` and does not end in a carriage return.
pub proof fn law_cdata_round_trip(c: Seq<char>)
    requires
        cdata_safe(c),
    ensures
        body_content(cdata_body(c)) == c,
{
    assert(is_ws('\n'));
    law_cdata_spacing(seq!['\n'], c, seq!['\n']);
}

/// A `<file>` element with the attribute text `attr` whose body is the CDATA
/// sections holding `raws`, with `w1` and `w2` around them.
pub open spec fn element_of(
    attr: Seq<char>,
    w1: Seq<char>,
    raws: Seq<Seq<char>>,
    w2: Seq<char>,
) -> Seq<char> {
    tok_file_open() + attr + seq!['>'] + section_body(w1, raws, w2) + tok_file_close()
}

/// The elements for `es` (each an attribute text and section texts), each
/// after the whitespace `ls[k].0`, with `ls[k].1` and `ls[k].2` around its
/// section.
pub open spec fn elements_of(
    es: Seq<(Seq<char>, Seq<Seq<char>>)>,
    ls: Seq<(Seq<char>, Seq<char>, Seq<char>)>,
) -> Seq<char>
    decreases es.len(),
{
    if es.len() == 0 || ls.len() == 0 {
        Seq::empty()
    } else {
        ls[0].0 + element_of(es[0].0, ls[0].1, es[0].1, ls[0].2) + elements_of(
            es.drop_first(),
            ls.drop_first(),
        )
    }
}

/// A bundle document: the text `pre`, then a `<files>` block holding the
/// elements for `es` spaced by `ls`, and the whitespace `last`.
pub open spec fn document_of(
    pre: Seq<char>,
    es: Seq<(Seq<char>, Seq<Seq<char>>)>,
    ls: Seq<(Seq<char>, Seq<char>, Seq<char>)>,
    last: Seq<char>,
) -> Seq<char> {
    pre + tok_files_open() + elements_of(es, ls) + last + tok_files_close() + seq!['\n']
}

/// The entries read from the elements `es`: each path as its attribute text
/// names it, each content as its section reads; the first refused path is
/// the error.
pub open spec fn entries_of(es: Seq<(Seq<char>, Seq<Seq<char>>)>) -> Result<
    Seq<(Seq<char>, Seq<char>)>,
    BundleErrorView,
>
    decreases es.len(),
{
    if es.len() == 0 {
        Ok(Seq::empty())
    } else {
        match path_attr(es[0].0) {
            Err(e) => Err(e),
            Ok(p) => match entries_of(es.drop_first()) {
                Err(e) => Err(e),
                Ok(r) => Ok(seq![(p, section_content(es[0].1))] + r),
            },
        }
    }
}

/// An element that the format delimits: an attribute text without `>` and
/// section texts without `]]>`.
pub open spec fn element_ok(e: (Seq<char>, Seq<Seq<char>>)) -> bool {
    &&& forall|i: int| 0 <= i < e.0.len() ==> #[trigger] e.0[i] != '>'
    &&& sections_safe(e.1)
}

/// Every element is delimited by the format.
pub open spec fn elements_ok(es: Seq<(Seq<char>, Seq<Seq<char>>)>) -> bool {
    forall|k: int| 0 <= k < es.len() ==> element_ok(#[trigger] es[k])
}

/// Spacing made only of whitespace.
pub open spec fn spacing_ws(ls: Seq<(Seq<char>, Seq<char>, Seq<char>)>) -> bool {
    forall|k: int| 0 <= k < ls.len() ==> all_ws(#[trigger] ls[k].0) && all_ws(ls[k].1) && all_ws(
        ls[k].2,
    )
}

/// Text that holds `<files>` only where `<files>` is appended to it.
pub open spec fn prefix_ok(pre: Seq<char>) -> bool {
    forall|i: int| 0 <= i < pre.len() ==> #[trigger] (pre + tok_files_open()).subrange(i, i + 7)
        != tok_files_open()
}

/// The tag `<file attr>` after the whitespace `s` at `q`.
proof fn lemma_scan_tag(c: Seq<char>, q: int, end: int, s: Seq<char>, attr: Seq<char>)
    requires
        0 <= q,
        q + s.len() + 7 + attr.len() <= end <= c.len(),
        c.subrange(q, q + s.len() + 7 + attr.len()) == s + tok_file_open() + attr + seq!['>'],
        all_ws(s),
        forall|i: int| 0 <= i < attr.len() ==> #[trigger] attr[i] != '>',
    ensures
        find_first(c, tok_file_open(), q, end) == Some(q + s.len()),
        find_first(c, seq!['>'], q + s.len() + 6, end) == Some(q + s.len() + 6 + attr.len()),
        c.subrange(q + s.len() + 6, q + s.len() + 6 + attr.len()) == attr,
{
    let al = attr.len() as int;
    let sl = s.len() as int;
    let e = s + tok_file_open() + attr + seq!['>'];
    let g = q + sl;
    assert forall|k: int| 0 <= k < sl + 7 + al implies #[trigger] c[q + k] == e[k] by {
        assert(c.subrange(q, q + sl + 7 + al)[k] == c[q + k]);
    }
    assert(c.subrange(g, g + 6) =~= tok_file_open()) by {
        assert forall|k: int| 0 <= k < 6 implies #[trigger] c.subrange(g, g + 6)[k]
            == tok_file_open()[k] by {
            assert(c[q + (sl + k)] == e[sl + k]);
        }
    }
    assert forall|i: int| q <= i < g implies #[trigger] c.subrange(i, i + 6) != tok_file_open() by {
        assert(c.subrange(i, i + 6)[0] == c[q + (i - q)]);
        assert(is_ws(s[i - q]));
    }
    lemma_find_first_at(c, tok_file_open(), q, end, g);
    let te = g + 6 + al;
    assert forall|i: int| g + 6 <= i < te implies #[trigger] c.subrange(i, i + 1) != seq!['>'] by {
        assert(c.subrange(i, i + 1)[0] == c[q + (i - q)]);
        assert(e[i - q] == attr[i - g - 6]);
    }
    assert(c.subrange(te, te + 1) =~= seq!['>']) by {
        assert(c.subrange(te, te + 1)[0] == c[q + (sl + 6 + al)]);
    }
    lemma_find_first_at(c, seq!['>'], g + 6, end, te);
    assert(c.subrange(g + 6, te) =~= attr) by {
        assert forall|k: int| 0 <= k < al implies #[trigger] c.subrange(g + 6, te)[k] == attr[k] by {
            assert(c[q + (sl + 6 + k)] == e[sl + 6 + k]);
        }
    }
}

/// From `from` on, `c` holds the whitespace `w`, the sections for `raws`,
/// the whitespace `w2` and `</file>`: the body ends at that `</file>`.
proof fn lemma_body_end_sections(
    c: Seq<char>,
    from: int,
    end: int,
    w: Seq<char>,
    raws: Seq<Seq<char>>,
    w2: Seq<char>,
)
    requires
        0 <= from,
        from + w.len() + sections(raws).len() + w2.len() + 7 <= end <= c.len(),
        c.subrange(from, from + w.len() + sections(raws).len() + w2.len() + 7) == w + sections(
            raws,
        ) + w2 + tok_file_close(),
        all_ws(w),
        all_ws(w2),
        sections_safe(raws),
    ensures
        body_end(c, from, end) == Ok::<int, CloseFailure>(
            from + w.len() + sections(raws).len() + w2.len(),
        ),
    decreases raws.len(),
{
    let a = w.len() as int;
    let sl = sections(raws).len() as int;
    let l = a + sl + w2.len();
    let be = from + l;
    let t = w + sections(raws) + w2 + tok_file_close();
    assert forall|k: int| 0 <= k < l + 7 implies #[trigger] c[from + k] == t[k] by {
        assert(c.subrange(from, from + l + 7)[k] == c[from + k]);
    }
    assert(c.subrange(be, be + 7) =~= tok_file_close()) by {
        assert forall|k: int| 0 <= k < 7 implies #[trigger] c.subrange(be, be + 7)[k]
            == tok_file_close()[k] by {
            assert(c[from + (l + k)] == t[l + k]);
        }
    }
    lemma_find_first_some(c, tok_file_close(), from, end, be);
    lemma_find_first_bounds(c, tok_file_close(), from, end);
    let cl = find_first(c, tok_file_close(), from, end)->0;
    if raws.len() == 0 {
        assert(t =~= w + w2 + tok_file_close());
        assert forall|i: int| from <= i < be implies #[trigger] c.subrange(i, i + 7)
            != tok_file_close() by {
            assert(c.subrange(i, i + 7)[0] == c[from + (i - from)]);
            if i - from < a {
                assert(is_ws(w[i - from]));
            } else {
                assert(t[i - from] == w2[i - from - a]);
                assert(is_ws(w2[i - from - a]));
            }
        }
        lemma_find_first_at(c, tok_file_close(), from, end, be);
        lemma_find_first_bounds(c, tok_cdata_open(), from, end);
        if let Some(cd) = find_first(c, tok_cdata_open(), from, end) {
            assert(cd > be) by {
                assert(c.subrange(cd, cd + 9)[0] == c[cd]);
                assert(c.subrange(cd, cd + 9)[1] == c[cd + 1]);
                if cd < be {
                    assert(c[cd] == c[from + (cd - from)]);
                    if cd - from < a {
                        assert(is_ws(w[cd - from]));
                    } else {
                        assert(t[cd - from] == w2[cd - from - a]);
                        assert(is_ws(w2[cd - from - a]));
                    }
                }
                if cd == be {
                    assert(c[from + (l + 1)] == t[l + 1]);
                }
            }
        }
    } else {
        let raw = raws[0];
        let rest = raws.drop_first();
        let r = raw.len() as int;
        assert(section_safe(raws[0]));
        let v = w + tok_cdata_open() + raw + tok_cdata_close();
        let t2 = sections(rest) + w2 + tok_file_close();
        assert(t =~= v + t2);
        assert forall|k: int| 0 <= k < a + 12 + r implies #[trigger] c[from + k] == v[k] by {
            assert(t[k] == v[k]);
        }
        let cd = from + a;
        assert(cl > cd) by {
            assert(c.subrange(cl, cl + 7)[0] == c[from + (cl - from)]);
            assert(c.subrange(cl, cl + 7)[1] == c[from + (cl - from + 1)]);
            if cl < cd {
                assert(is_ws(w[cl - from]));
            }
        }
        assert forall|i: int| from <= i < cd implies #[trigger] c.subrange(i, i + 9)
            != tok_cdata_open() by {
            assert(c.subrange(i, i + 9)[0] == c[from + (i - from)]);
            assert(is_ws(w[i - from]));
        }
        assert(c.subrange(cd, cd + 9) =~= tok_cdata_open()) by {
            assert forall|k: int| 0 <= k < 9 implies #[trigger] c.subrange(cd, cd + 9)[k]
                == tok_cdata_open()[k] by {
                assert(c[from + (a + k)] == v[a + k]);
            }
        }
        lemma_find_first_at(c, tok_cdata_open(), from, end, cd);
        assert(c.subrange(cd + 9, cd + 12 + r) =~= raw + tok_cdata_close()) by {
            assert forall|k: int| 0 <= k < r + 3 implies #[trigger] c.subrange(cd + 9, cd + 12 + r)[k]
                == (raw + tok_cdata_close())[k] by {
                assert(c[from + (a + 9 + k)] == v[a + 9 + k]);
            }
        }
        assert forall|i: int| cd <= i < cd + 9 implies #[trigger] c[i] != ']' by {
            assert(c[from + (a + (i - cd))] == v[a + (i - cd)]);
        }
        lemma_section_close(c, cd, cd + 9, raw, end);
        let nx = cd + 12 + r;
        assert(sections(raws).len() == 12 + r + sections(rest).len());
        assert(c.subrange(nx, nx + sections(rest).len() + w2.len() + 7) =~= Seq::<char>::empty()
            + sections(rest) + w2 + tok_file_close()) by {
            assert forall|k: int| 0 <= k < sections(rest).len() + w2.len() + 7 implies #[trigger] c.subrange(
                nx,
                nx + sections(rest).len() + w2.len() + 7,
            )[k] == t2[k] by {
                assert(c[from + (a + 12 + r + k)] == t[a + 12 + r + k]);
            }
        }
        assert forall|k: int| 0 <= k < rest.len() implies section_safe(#[trigger] rest[k]) by {
            assert(rest[k] == raws[k + 1]);
        }
        lemma_body_end_sections(c, nx, end, Seq::empty(), rest, w2);
    }
}

/// A body of CDATA sections, then `</file>`, ends at that `</file>` and
/// reads as the sections' content.
proof fn lemma_scan_body(
    c: Seq<char>,
    bb: int,
    end: int,
    w1: Seq<char>,
    raws: Seq<Seq<char>>,
    w2: Seq<char>,
)
    requires
        0 <= bb,
        bb + section_body(w1, raws, w2).len() + 7 <= end <= c.len(),
        c.subrange(bb, bb + section_body(w1, raws, w2).len() + 7) == section_body(w1, raws, w2)
            + tok_file_close(),
        all_ws(w1),
        all_ws(w2),
        sections_safe(raws),
    ensures
        body_end(c, bb, end) == Ok::<int, CloseFailure>(bb + section_body(w1, raws, w2).len()),
        body_content(c.subrange(bb, bb + section_body(w1, raws, w2).len())) == section_content(
            raws,
        ),
{
    let sb = section_body(w1, raws, w2);
    let m = sb.len() as int;
    assert(sb + tok_file_close() =~= w1 + sections(raws) + w2 + tok_file_close());
    lemma_body_end_sections(c, bb, end, w1, raws, w2);
    assert(c.subrange(bb, bb + m) =~= sb) by {
        assert forall|k: int| 0 <= k < m implies #[trigger] c.subrange(bb, bb + m)[k] == sb[k] by {
            assert(c.subrange(bb, bb + m + 7)[k] == c[bb + k]);
        }
    }
    law_section_body(w1, raws, w2);
}

/// Scanning from the whitespace `s` followed by one element reads that
/// element's entry (or its path's error) and goes on after it.
proof fn lemma_scan_one(
    c: Seq<char>,
    q: int,
    end: int,
    s: Seq<char>,
    attr: Seq<char>,
    w1: Seq<char>,
    raws: Seq<Seq<char>>,
    w2: Seq<char>,
    rest: Seq<char>,
)
    requires
        0 <= q <= end <= c.len(),
        c.subrange(q, end) == s + element_of(attr, w1, raws, w2) + rest,
        all_ws(s),
        all_ws(w1),
        all_ws(w2),
        forall|i: int| 0 <= i < attr.len() ==> #[trigger] attr[i] != '>',
        sections_safe(raws),
    ensures
        scan_files(c, q, end) == match path_attr(attr) {
            Err(e) => Err(e),
            Ok(p) => match scan_files(c, q + s.len() + element_of(attr, w1, raws, w2).len(), end) {
                Err(e) => Err(e),
                Ok(r) => Ok::<_, BundleErrorView>(seq![(p, section_content(raws))] + r),
            },
        },
{
    let al = attr.len() as int;
    let sl = s.len() as int;
    let sb = section_body(w1, raws, w2);
    let head = s + tok_file_open() + attr + seq!['>'];
    let tail = sb + tok_file_close();
    assert(s + element_of(attr, w1, raws, w2) + rest =~= head + tail + rest);
    assert(c.subrange(q, q + sl + 7 + al) =~= head) by {
        assert forall|k: int| 0 <= k < sl + 7 + al implies #[trigger] c.subrange(
            q,
            q + sl + 7 + al,
        )[k] == head[k] by {
            assert(c.subrange(q, end)[k] == c[q + k]);
        }
    }
    lemma_scan_tag(c, q, end, s, attr);
    let bb = q + sl + 7 + al;
    assert(c.subrange(bb, bb + sb.len() + 7) =~= tail) by {
        assert forall|k: int| 0 <= k < sb.len() + 7 implies #[trigger] c.subrange(
            bb,
            bb + sb.len() + 7,
        )[k] == tail[k] by {
            assert(c.subrange(q, end)[sl + 7 + al + k] == c[bb + k]);
        }
    }
    lemma_scan_body(c, bb, end, w1, raws, w2);
    assert(bb + sb.len() + 7 == q + sl + element_of(attr, w1, raws, w2).len());
}

/// Scanning the elements for `es` spaced by `ls`, then the whitespace
/// `last`, reads `entries_of(es)`.
proof fn lemma_scan_all(
    c: Seq<char>,
    q: int,
    end: int,
    es: Seq<(Seq<char>, Seq<Seq<char>>)>,
    ls: Seq<(Seq<char>, Seq<char>, Seq<char>)>,
    last: Seq<char>,
)
    requires
        0 <= q <= end <= c.len(),
        ls.len() == es.len(),
        c.subrange(q, end) == elements_of(es, ls) + last,
        all_ws(last),
        spacing_ws(ls),
        elements_ok(es),
    ensures
        scan_files(c, q, end) == entries_of(es),
    decreases es.len(),
{
    if es.len() == 0 {
        assert(c.subrange(q, end) =~= last);
        assert forall|i: int| q <= i && i + 6 <= end implies #[trigger] c.subrange(i, i + 6)
            != tok_file_open() by {
            assert(c.subrange(i, i + 6)[0] == c.subrange(q, end)[i - q]);
            assert(is_ws(last[i - q]));
        }
        lemma_find_first_none(c, tok_file_open(), q, end);
    } else {
        let rest = es.drop_first();
        let lrest = ls.drop_first();
        let (s, w1, w2) = ls[0];
        let (attr, raws) = es[0];
        let el = element_of(attr, w1, raws, w2);
        let r = elements_of(rest, lrest) + last;
        assert(c.subrange(q, end) =~= s + el + r);
        assert(all_ws(ls[0].0) && all_ws(ls[0].1) && all_ws(ls[0].2));
        assert(element_ok(es[0]));
        lemma_scan_one(c, q, end, s, attr, w1, raws, w2, r);
        let q2 = q + s.len() + el.len();
        assert(c.subrange(q2, end) =~= r) by {
            assert forall|k: int| 0 <= k < r.len() implies #[trigger] c.subrange(q2, end)[k]
                == r[k] by {
                assert(c.subrange(q, end)[s.len() + el.len() + k] == c[q2 + k]);
            }
        }
        assert forall|k: int| 0 <= k < rest.len() implies element_ok(#[trigger] rest[k]) by {
            assert(rest[k] == es[k + 1]);
        }
        assert forall|k: int| 0 <= k < lrest.len() implies all_ws(#[trigger] lrest[k].0) && all_ws(
            lrest[k].1,
        ) && all_ws(lrest[k].2) by {
            assert(lrest[k] == ls[k + 1]);
        }
        lemma_scan_all(c, q2, end, rest, lrest, last);
    }
}

/// What a bundle document reads as depends on its elements alone: the text
/// before `<files>` (when it holds no `<files>`), the whitespace between the
/// elements and before `</files>`, and the whitespace around each CDATA
/// section do not enter into it.
pub proof fn law_document_entries(
    pre: Seq<char>,
    es: Seq<(Seq<char>, Seq<Seq<char>>)>,
    ls: Seq<(Seq<char>, Seq<char>, Seq<char>)>,
    last: Seq<char>,
)
    requires
        prefix_ok(pre),
        ls.len() == es.len(),
        spacing_ws(ls),
        all_ws(last),
        elements_ok(es),
    ensures
        file_entries(document_of(pre, es, ls, last)) == entries_of(es),
{
    let d = document_of(pre, es, ls, last);
    let m = pre.len() as int;
    let el = elements_of(es, ls);
    let len = d.len() as int;
    assert(len == m + 7 + el.len() + last.len() + 9);
    assert forall|i: int| 0 <= i < m implies #[trigger] d.subrange(i, i + 7) != tok_files_open() by {
        assert(d.subrange(i, i + 7) =~= (pre + tok_files_open()).subrange(i, i + 7));
    }
    assert(d.subrange(m, m + 7) =~= tok_files_open());
    lemma_find_first_at(d, tok_files_open(), 0, len, m);
    let fs0 = m + 7;
    assert(d.subrange(len - 8, len)[0] == '/');
    assert(d.subrange(len - 9, len - 1) =~= tok_files_close());
    assert(find_last(d, tok_files_close(), fs0, len - 1) == Some(len - 9));
    assert(find_last(d, tok_files_close(), fs0, len) == Some(len - 9));
    assert(d.subrange(fs0, len - 9) =~= el + last);
    lemma_scan_all(d, fs0, len - 9, es, ls, last);
}

/// Two bundle documents that differ only in the text before `<files>` and
/// in whitespace between, after and inside their elements around each CDATA
/// section read the same: both fail alike, or both give the same entries.
pub proof fn law_bundle_whitespace_insensitive(
    pre1: Seq<char>,
    ls1: Seq<(Seq<char>, Seq<char>, Seq<char>)>,
    last1: Seq<char>,
    pre2: Seq<char>,
    ls2: Seq<(Seq<char>, Seq<char>, Seq<char>)>,
    last2: Seq<char>,
    es: Seq<(Seq<char>, Seq<Seq<char>>)>,
)
    requires
        prefix_ok(pre1),
        prefix_ok(pre2),
        ls1.len() == es.len(),
        ls2.len() == es.len(),
        spacing_ws(ls1),
        spacing_ws(ls2),
        all_ws(last1),
        all_ws(last2),
        elements_ok(es),
    ensures
        file_entries(document_of(pre1, es, ls1, last1)) == file_entries(
            document_of(pre2, es, ls2, last2),
        ),
{
    law_document_entries(pre1, es, ls1, last1);
    law_document_entries(pre2, es, ls2, last2);
}

/// `<file path="`, the start of a `<file>` element as Repomix writes it.
pub open spec fn tok_path_open() -> Seq<char> {
    seq!['<', 'f', 'i', 'l', 'e', ' ', 'p', 'a', 't', 'h', '=', '"']
}

/// A `<file>` element as Repomix writes it for the path `p` and content `x`.
pub open spec fn file_element(p: Seq<char>, x: Seq<char>) -> Seq<char> {
    tok_path_open() + p + seq!['"', '>'] + cdata_body(x) + tok_file_close()
}

/// The elements for the entries `fs`, each after a line break.
pub open spec fn file_elements(fs: Seq<(Seq<char>, Seq<char>)>) -> Seq<char>
    decreases fs.len(),
{
    if fs.len() == 0 {
        Seq::empty()
    } else {
        seq!['\n'] + file_element(fs[0].0, fs[0].1) + file_elements(fs.drop_first())
    }
}

/// A bundle document as Repomix writes it: whatever comes first (the
/// summary, the directory structure), then the `<files>` block.
pub open spec fn bundle_text(pre: Seq<char>, fs: Seq<(Seq<char>, Seq<char>)>) -> Seq<char> {
    pre + tok_files_open() + file_elements(fs) + seq!['\n'] + tok_files_close() + seq!['\n']
}

/// A path and content that the format can carry unchanged: a path with no
/// `"`, `>`, `\` or `..`, and content with no `]]>` that does not end in a
/// carriage return.
pub open spec fn entry_writable(p: Seq<char>, x: Seq<char>) -> bool {
    &&& forall|i: int| 0 <= i < p.len() ==> #[trigger] p[i] != '"' && p[i] != '>' && p[i] != '\\'
    &&& forall|i: int| 0 <= i && i + 2 <= p.len() ==> #[trigger] p.subrange(i, i + 2) != seq![
        '.',
        '.',
    ]
    &&& cdata_safe(x)
}

proof fn lemma_path_attr_plain(p: Seq<char>, x: Seq<char>)
    requires
        entry_writable(p, x),
    ensures
        path_attr(seq!['p', 'a', 't', 'h', '=', '"'] + p + seq!['"']) == Ok::<_, BundleErrorView>(
            p,
        ),
{
    let a = seq!['p', 'a', 't', 'h', '=', '"'] + p + seq!['"'];
    lemma_trim_identity(a);
    assert forall|i: int| 0 <= i < 4 implies #[trigger] a.subrange(i, i + 1) != seq!['='] by {
        assert(a.subrange(i, i + 1)[0] == a[i]);
    }
    assert(a.subrange(4, 5) =~= seq!['=']);
    lemma_find_first_at(a, seq!['='], 0, a.len() as int, 4);
    let w = a.subrange(5, a.len() as int);
    assert(w =~= seq!['"'] + p + seq!['"']);
    lemma_trim_identity(w);
    assert(w.subrange(1, w.len() - 1) =~= p);
    assert(forward_slashes(p) =~= p);
    lemma_find_first_none(p, seq!['.', '.'], 0, p.len() as int);
}

/// The attribute and section texts Repomix writes for the entries `fs`.
pub open spec fn written_elements(fs: Seq<(Seq<char>, Seq<char>)>) -> Seq<
    (Seq<char>, Seq<Seq<char>>),
> {
    Seq::new(
        fs.len(),
        |k: int|
            (
                seq!['p', 'a', 't', 'h', '=', '"'] + fs[k].0 + seq!['"'],
                seq![seq!['\n'] + fs[k].1 + seq!['\n']],
            ),
    )
}

/// The one section Repomix writes for `x`: its sections text is the body,
/// and it reads back as `x`.
proof fn lemma_written_sections(x: Seq<char>)
    requires
        cdata_safe(x),
    ensures
        sections_safe(seq![seq!['\n'] + x + seq!['\n']]),
        section_content(seq![seq!['\n'] + x + seq!['\n']]) == x,
        section_body(seq!['\n'], seq![seq!['\n'] + x + seq!['\n']], seq!['\n']) == cdata_body(x),
{
    let raws = seq![seq!['\n'] + x + seq!['\n']];
    lemma_written_section(x);
    assert(raws.drop_first() =~= Seq::<Seq<char>>::empty());
    assert(joined(Seq::<Seq<char>>::empty()) == Seq::<char>::empty());
    assert(sections(Seq::<Seq<char>>::empty()) == Seq::<char>::empty());
    assert(sections(raws) == tok_cdata_open() + raws[0] + tok_cdata_close() + sections(
        raws.drop_first(),
    ));
    assert(joined(raws) == raws[0] + joined(raws.drop_first()));
    assert(joined(raws) =~= raws[0]);
    assert(section_body(seq!['\n'], raws, seq!['\n']) =~= cdata_body(x));
}

proof fn lemma_written_document(pre: Seq<char>, fs: Seq<(Seq<char>, Seq<char>)>)
    requires
        forall|k: int| 0 <= k < fs.len() ==> entry_writable(#[trigger] fs[k].0, fs[k].1),
    ensures
        file_elements(fs) == elements_of(
            written_elements(fs),
            Seq::new(fs.len(), |k: int| (seq!['\n'], seq!['\n'], seq!['\n'])),
        ),
        entries_of(written_elements(fs)) == Ok::<_, BundleErrorView>(fs),
        elements_ok(written_elements(fs)),
    decreases fs.len(),
{
    let es = written_elements(fs);
    let ls = Seq::new(fs.len(), |k: int| (seq!['\n'], seq!['\n'], seq!['\n']));
    assert forall|k: int| 0 <= k < es.len() implies element_ok(#[trigger] es[k]) by {
        assert(entry_writable(fs[k].0, fs[k].1));
        lemma_written_sections(fs[k].1);
        assert forall|i: int| 0 <= i < es[k].0.len() implies #[trigger] es[k].0[i] != '>' by {
            if 6 <= i < 6 + fs[k].0.len() {
                assert(es[k].0[i] == fs[k].0[i - 6]);
            }
        }
    }
    if fs.len() > 0 {
        let rest = fs.drop_first();
        assert forall|k: int| 0 <= k < rest.len() implies entry_writable(
            #[trigger] rest[k].0,
            rest[k].1,
        ) by {
            assert(rest[k] == fs[k + 1]);
        }
        lemma_written_document(pre, rest);
        assert(es.drop_first() =~= written_elements(rest));
        assert(ls.drop_first() =~= Seq::new(
            rest.len(),
            |k: int| (seq!['\n'], seq!['\n'], seq!['\n']),
        ));
        assert(entry_writable(fs[0].0, fs[0].1));
        lemma_written_sections(fs[0].1);
        lemma_path_attr_plain(fs[0].0, fs[0].1);
        assert(file_element(fs[0].0, fs[0].1) =~= element_of(es[0].0, seq!['\n'], es[0].1, seq![
            '\n',
        ]));
        assert(seq![(fs[0].0, fs[0].1)] + rest =~= fs);
    } else {
        assert(Seq::<(Seq<char>, Seq<char>)>::empty() =~= fs);
    }
}

/// A bundle written for the entries `fs` reads back as exactly those
/// entries, in order, whatever comes before `<files>` (as long as it does
/// not itself hold `<files>`).
pub proof fn law_bundle_round_trip(pre: Seq<char>, fs: Seq<(Seq<char>, Seq<char>)>)
    requires
        prefix_ok(pre),
        forall|k: int| 0 <= k < fs.len() ==> entry_writable(#[trigger] fs[k].0, fs[k].1),
    ensures
        file_entries(bundle_text(pre, fs)) == Ok::<_, BundleErrorView>(fs),
{
    let ls = Seq::new(fs.len(), |k: int| (seq!['\n'], seq!['\n'], seq!['\n']));
    lemma_written_document(pre, fs);
    assert(is_ws('\n'));
    assert(all_ws(seq!['\n']));
    assert(spacing_ws(ls));
    assert(bundle_text(pre, fs) =~= document_of(pre, written_elements(fs), ls, seq!['\n']));
    law_document_entries(pre, written_elements(fs), ls, seq!['\n']);
}

/// The `(path, content)` entries of the `<file>` elements in `c[cursor..end]`,
/// in document order.
pub open spec fn scan_files(c: Seq<char>, cursor: int, end: int) -> Result<
    Seq<(Seq<char>, Seq<char>)>,
    BundleErrorView,
>
    decreases end - cursor,
{
    match find_first(c, tok_file_open(), cursor, end) {
        None => Ok(Seq::empty()),
        Some(ts) => {
            let at = ts + 6;
            match find_first(c, seq!['>'], at, end) {
                None => Err(BundleErrorView::UnterminatedFileTag),
                Some(te) => match path_attr(c.subrange(at, te)) {
                    Err(e) => Err(e),
                    Ok(p) => match body_end(c, te + 1, end) {
                        Err(CloseFailure::MissingClose) => Err(BundleErrorView::MissingFileEnd(p)),
                        Err(CloseFailure::UnterminatedCdata) => Err(
                            BundleErrorView::UnterminatedCdata(p),
                        ),
                        Ok(be) => {
                            proof {
                                lemma_find_first_bounds(c, tok_file_open(), cursor, end);
                                lemma_find_first_bounds(c, seq!['>'], at, end);
                                lemma_body_end_bounds(c, te + 1, end);
                            }
                            match scan_files(c, be + 7, end) {
                                Err(e) => Err(e),
                                Ok(rest) => Ok(
                                    seq![(p, body_content(c.subrange(te + 1, be)))] + rest,
                                ),
                            }
                        },
                    },
                },
            }
        },
    }
}

/// The file entries of a Repomix document, in document order: the `<file>`
/// elements between the first `<files>` and the last `</files>` after it.
pub open spec fn file_entries(c: Seq<char>) -> Result<
    Seq<(Seq<char>, Seq<char>)>,
    BundleErrorView,
> {
    match find_first(c, tok_files_open(), 0, c.len() as int) {
        None => Err(BundleErrorView::MissingFiles),
        Some(s) => {
            let fs = s + 7;
            match find_last(c, tok_files_close(), fs, c.len() as int) {
                None => Err(BundleErrorView::MissingFilesEnd),
                Some(fe) => scan_files(c, fs, fe),
            }
        },
    }
}


/// The key under which a Repomix bundle's summary is recorded.
pub open spec fn raw_key() -> Seq<char> {
    seq!['r', 'a', 'w']
}

/// The tokens of the format, as character buffers.
struct Tokens {
    summary_open: Vec<char>,
    summary_close: Vec<char>,
    files_open: Vec<char>,
    files_close: Vec<char>,
    file_open: Vec<char>,
    file_close: Vec<char>,
    cdata_open: Vec<char>,
    cdata_close: Vec<char>,
    gt: Vec<char>,
    eq: Vec<char>,
    dotdot: Vec<char>,
}

impl Tokens {
    spec fn wf(&self) -> bool {
        &&& self.summary_open@ == tok_summary_open()
        &&& self.summary_close@ == tok_summary_close()
        &&& self.files_open@ == tok_files_open()
        &&& self.files_close@ == tok_files_close()
        &&& self.file_open@ == tok_file_open()
        &&& self.file_close@ == tok_file_close()
        &&& self.cdata_open@ == tok_cdata_open()
        &&& self.cdata_close@ == tok_cdata_close()
        &&& self.gt@ == seq!['>']
        &&& self.eq@ == seq!['=']
        &&& self.dotdot@ == seq!['.', '.']
    }

    fn new() -> (t: Tokens)
        ensures
            t.wf(),
    {
        let t = Tokens {
            summary_open: chars_of("<file_summary>"),
            summary_close: chars_of("</file_summary>"),
            files_open: chars_of("<files>"),
            files_close: chars_of("</files>"),
            file_open: chars_of("<file "),
            file_close: chars_of("</file>"),
            cdata_open: chars_of("<![CDATA["),
            cdata_close: chars_of("]]>"),
            gt: chars_of(">"),
            eq: chars_of("="),
            dotdot: chars_of(".."),
        };
        proof {
            reveal_strlit("<file_summary>");
            reveal_strlit("</file_summary>");
            reveal_strlit("<files>");
            reveal_strlit("</files>");
            reveal_strlit("<file ");
            reveal_strlit("</file>");
            reveal_strlit("<![CDATA[");
            reveal_strlit("]]>");
            reveal_strlit(">");
            reveal_strlit("=");
            reveal_strlit("..");
        }
        assert(t.summary_open@ =~= tok_summary_open());
        assert(t.summary_close@ =~= tok_summary_close());
        assert(t.files_open@ =~= tok_files_open());
        assert(t.files_close@ =~= tok_files_close());
        assert(t.file_open@ =~= tok_file_open());
        assert(t.file_close@ =~= tok_file_close());
        assert(t.cdata_open@ =~= tok_cdata_open());
        assert(t.cdata_close@ =~= tok_cdata_close());
        assert(t.gt@ =~= seq!['>']);
        assert(t.eq@ =~= seq!['=']);
        assert(t.dotdot@ =~= seq!['.', '.']);
        t
    }
}

/// The summary metadata: `"raw"` mapped to the summary text, if there is one.
fn extract_summary(c: &Vec<char>, t: &Tokens) -> (m: TextMap)
    requires
        t.wf(),
    ensures
        keys_sorted(m@),
        forall|k: Seq<char>| #[trigger] lookup(m@, k) == if k == raw_key() {
            summary_text(c@)
        } else {
            None
        },
{
    let mut m = TextMap::new();
    let n = c.len();
    if let Some(start) = find(c, &t.summary_open, 0, n) {
        proof {
            lemma_find_first_bounds(c@, tok_summary_open(), 0, n as int);
        }
        let after = start + t.summary_open.len();
        if let Some(end) = find(c, &t.summary_close, after, n) {
            proof {
                lemma_find_first_bounds(c@, tok_summary_close(), after as int, n as int);
            }
            let (a, b) = trim_span(c, after, end);
            let raw = string_of(c, a, b);
            let raw_chars = chars_of("raw");
            proof {
                reveal_strlit("raw");
            }
            let key = string_of(&raw_chars, 0, 3);
            assert(key@ =~= raw_key());
            m.insert(key, raw);
        }
    }
    m
}

/// `c[lo..hi]` with backslashes made forward slashes.
fn forward_slashes_of(c: &Vec<char>, lo: usize, hi: usize) -> (r: String)
    requires
        lo <= hi <= c@.len(),
    ensures
        r@ == forward_slashes(c@.subrange(lo as int, hi as int)),
{
    let mut r = String::new();
    let mut i = lo;
    while i < hi
        invariant
            lo <= i <= hi <= c@.len(),
            r@ == forward_slashes(c@.subrange(lo as int, i as int)),
        decreases hi - i,
    {
        let ch = c[i];
        push_char(&mut r, if ch == '\\' { '/' } else { ch });
        assert(forward_slashes(c@.subrange(lo as int, i + 1)) =~= forward_slashes(
            c@.subrange(lo as int, i as int),
        ).push(if ch == '\\' { '/' } else { ch }));
        i = i + 1;
    }
    r
}

/// The path of a `<file>` tag whose attribute text is `c[lo..hi]`.
fn extract_path_attr(c: &Vec<char>, lo: usize, hi: usize, t: &Tokens) -> (r: Result<String, BundleError>)
    requires
        lo <= hi <= c@.len(),
        t.wf(),
    ensures
        match r {
            Ok(p) => path_attr(c@.subrange(lo as int, hi as int)) == Ok::<_, BundleErrorView>(p@),
            Err(e) => path_attr(c@.subrange(lo as int, hi as int)) == Err::<Seq<char>, _>(e@),
        },
{
    let (a, b) = trim_span(c, lo, hi);
    let ghost ta = c@.subrange(a as int, b as int);
    proof {
        lemma_find_first_sub(c@, seq!['='], a as int, b as int, 0, b - a);
    }
    match find(c, &t.eq, a, b) {
        None => Err(BundleError::MalformedAttribute(string_of(c, a, b))),
        Some(e) => {
            proof {
                lemma_find_first_bounds(c@, seq!['='], a as int, b as int);
            }
            let (va, vb) = trim_span(c, e + 1, b);
            assert(ta.subrange(e - a + 1, ta.len() as int) =~= c@.subrange(e + 1, b as int));
            let ghost v = c@.subrange(va as int, vb as int);
            if vb - va >= 2 && c[va] == '"' && c[vb - 1] == '"' {
                assert(v[0] == c@[va as int] && v.last() == c@[vb - 1]);
                let p = forward_slashes_of(c, va + 1, vb - 1);
                assert(v.subrange(1, v.len() - 1) =~= c@.subrange(va + 1, vb - 1));
                let pc = chars_of(p.as_str());
                if find(&pc, &t.dotdot, 0, pc.len()).is_some() {
                    Err(BundleError::UnsafePath(p))
                } else {
                    Ok(p)
                }
            } else {
                proof {
                    if v.len() >= 2 {
                        assert(v[0] == c@[va as int] && v.last() == c@[vb - 1]);
                    }
                }
                Err(BundleError::UnquotedPath(string_of(c, a, b)))
            }
        },
    }
}


/// The end of the body of a `<file>` element starting at `from`: the first
/// `</file>` that is not inside a CDATA section.
fn find_body_end(c: &Vec<char>, from: usize, end: usize, t: &Tokens) -> (r: Result<
    usize,
    CloseFailure,
>)
    requires
        from <= end <= c@.len(),
        t.wf(),
    ensures
        match r {
            Ok(x) => body_end(c@, from as int, end as int) == Ok::<int, CloseFailure>(x as int),
            Err(f) => body_end(c@, from as int, end as int) == Err::<int, CloseFailure>(f),
        },
{
    let mut cur = from;
    loop
        invariant
            from <= cur <= end <= c@.len(),
            t.wf(),
            body_end(c@, from as int, end as int) == body_end(c@, cur as int, end as int),
        decreases end - cur,
    {
        match find(c, &t.file_close, cur, end) {
            None => {
                return Err(CloseFailure::MissingClose);
            },
            Some(cl) => {
                match find(c, &t.cdata_open, cur, end) {
                    Some(cd) => {
                        if cd < cl {
                            proof {
                                lemma_find_first_bounds(c@, tok_cdata_open(), cur as int, end as int);
                            }
                            match find(c, &t.cdata_close, cd, end) {
                                None => {
                                    return Err(CloseFailure::UnterminatedCdata);
                                },
                                Some(x) => {
                                    proof {
                                        lemma_find_first_bounds(
                                            c@,
                                            tok_cdata_close(),
                                            cd as int,
                                            end as int,
                                        );
                                    }
                                    cur = x + 3;
                                },
                            }
                        } else {
                            return Ok(cl);
                        }
                    },
                    None => {
                        return Ok(cl);
                    },
                }
            },
        }
    }
}

/// Appends `c[a..b]` to `v`.
fn push_span(v: &mut Vec<char>, c: &Vec<char>, a: usize, b: usize)
    requires
        a <= b <= c@.len(),
    ensures
        final(v)@ == old(v)@ + c@.subrange(a as int, b as int),
{
    let mut i = a;
    while i < b
        invariant
            a <= i <= b <= c@.len(),
            v@ == old(v)@ + c@.subrange(a as int, i as int),
        decreases b - i,
    {
        v.push(c[i]);
        assert(c@.subrange(a as int, i + 1) =~= c@.subrange(a as int, i as int).push(c@[i as int]));
        i = i + 1;
    }
}

/// The content of the file body `c[lo..hi]` (see `body_content`).
fn extract_cdata(c: &Vec<char>, lo: usize, hi: usize, t: &Tokens) -> (r: String)
    requires
        lo <= hi <= c@.len(),
        t.wf(),
    ensures
        r@ == body_content(c@.subrange(lo as int, hi as int)),
{
    let ghost b = c@.subrange(lo as int, hi as int);
    proof {
        lemma_find_first_sub(c@, tok_cdata_open(), lo as int, hi as int, 0, hi - lo);
    }
    if find(c, &t.cdata_open, lo, hi).is_none() {
        let (a, z) = trim_span(c, lo, hi);
        return string_of(c, a, z);
    }
    let mut joined: Vec<char> = Vec::new();
    let mut cur = lo;
    loop
        invariant
            lo <= cur <= hi <= c@.len(),
            t.wf(),
            b == c@.subrange(lo as int, hi as int),
            cdata_join(b, 0) == joined@ + cdata_join(b, cur - lo),
        ensures
            cdata_join(b, 0) == joined@,
        decreases hi - cur,
    {
        proof {
            lemma_find_first_sub(c@, tok_cdata_open(), lo as int, hi as int, cur - lo, hi - lo);
        }
        match find(c, &t.cdata_open, cur, hi) {
            None => {
                assert(joined@ + Seq::<char>::empty() =~= joined@);
                break ;
            },
            Some(o) => {
                proof {
                    lemma_find_first_bounds(c@, tok_cdata_open(), cur as int, hi as int);
                }
                let cs = o + 9;
                proof {
                    lemma_find_first_sub(
                        c@,
                        tok_cdata_close(),
                        lo as int,
                        hi as int,
                        cs - lo,
                        hi - lo,
                    );
                }
                match find(c, &t.cdata_close, cs, hi) {
                    None => {
                        assert(joined@ + Seq::<char>::empty() =~= joined@);
                        break ;
                    },
                    Some(cl) => {
                        proof {
                            lemma_find_first_bounds(c@, tok_cdata_close(), cs as int, hi as int);
                        }
                        let ghost prev = joined@;
                        push_span(&mut joined, c, cs, cl);
                        assert(b.subrange(cs - lo, cl - lo) =~= c@.subrange(cs as int, cl as int));
                        assert(prev + (c@.subrange(cs as int, cl as int) + cdata_join(b, cl + 3 - lo))
                            =~= joined@ + cdata_join(b, cl + 3 - lo));
                        cur = cl + 3;
                    },
                }
            },
        }
    }
    let n = joined.len();
    let mut a: usize = 0;
    if n >= 2 && joined[0] == '\r' && joined[1] == '\n' {
        a = 2;
    } else if n >= 1 && joined[0] == '\n' {
        a = 1;
    }
    let ghost led = strip_leading_newline(joined@);
    assert(led =~= joined@.subrange(a as int, n as int));
    let mut z: usize = n;
    if n - a >= 2 && joined[n - 2] == '\r' && joined[n - 1] == '\n' {
        z = n - 2;
    } else if n - a >= 1 && joined[n - 1] == '\n' {
        z = n - 1;
    }
    assert(strip_trailing_newline(led) =~= joined@.subrange(a as int, z as int));
    string_of(&joined, a, z)
}

/// The files of the `<files>` block of `c`, as a map.
fn extract_files(c: &Vec<char>, t: &Tokens) -> (r: Result<TextMap, BundleError>)
    requires
        t.wf(),
    ensures
        match r {
            Ok(m) => file_entries(c@) matches Ok(es) && keys_sorted(m@) && forall|k: Seq<char>|
                #[trigger] lookup(m@, k) == lookup(es, k),
            Err(e) => file_entries(c@) == Err::<Seq<(Seq<char>, Seq<char>)>, _>(e@),
        },
{
    let n = c.len();
    let s = match find(c, &t.files_open, 0, n) {
        None => {
            return Err(BundleError::MissingFiles);
        },
        Some(s) => s,
    };
    proof {
        lemma_find_first_bounds(c@, tok_files_open(), 0, n as int);
    }
    let fs = s + 7;
    let fe = match rfind(c, &t.files_close, fs, n) {
        None => {
            return Err(BundleError::MissingFilesEnd);
        },
        Some(x) => x,
    };
    proof {
        lemma_find_last_bounds(c@, tok_files_close(), fs as int, n as int);
    }
    let mut files = TextMap::new();
    let ghost mut done: Seq<(Seq<char>, Seq<char>)> = Seq::empty();
    let mut cursor = fs;
    assert(done + Seq::<(Seq<char>, Seq<char>)>::empty() =~= Seq::<(Seq<char>, Seq<char>)>::empty());
    loop
        invariant
            fs <= cursor <= fe <= n == c@.len(),
            t.wf(),
            keys_sorted(files@),
            forall|k: Seq<char>| #[trigger] lookup(files@, k) == lookup(done, k),
            file_entries(c@) == match scan_files(c@, cursor as int, fe as int) {
                Ok(rest) => Ok(done + rest),
                Err(e) => Err(e),
            },
        decreases fe - cursor,
    {
        match find(c, &t.file_open, cursor, fe) {
            None => {
                assert(done + Seq::<(Seq<char>, Seq<char>)>::empty() =~= done);
                return Ok(files);
            },
            Some(ts) => {
                proof {
                    lemma_find_first_bounds(c@, tok_file_open(), cursor as int, fe as int);
                }
                let at = ts + 6;
                let te = match find(c, &t.gt, at, fe) {
                    None => {
                        return Err(BundleError::UnterminatedFileTag);
                    },
                    Some(x) => x,
                };
                proof {
                    lemma_find_first_bounds(c@, seq!['>'], at as int, fe as int);
                }
                let path = match extract_path_attr(c, at, te, t) {
                    Ok(p) => p,
                    Err(e) => {
                        return Err(e);
                    },
                };
                let be = match find_body_end(c, te + 1, fe, t) {
                    Ok(x) => x,
                    Err(CloseFailure::MissingClose) => {
                        return Err(BundleError::MissingFileEnd(path));
                    },
                    Err(CloseFailure::UnterminatedCdata) => {
                        return Err(BundleError::UnterminatedCdata(path));
                    },
                };
                proof {
                    lemma_body_end_bounds(c@, te + 1, fe as int);
                }
                let content = extract_cdata(c, te + 1, be, t);
                let ghost entry = (path@, content@);
                proof {
                    match scan_files(c@, be + 7, fe as int) {
                        Ok(rest) => {
                            assert(done + (seq![entry] + rest) =~= done.push(entry) + rest);
                        },
                        Err(_) => {},
                    }
                    assert forall|k: Seq<char>| #[trigger] lookup(done.push(entry), k) == if k
                        == entry.0 {
                        Some(entry.1)
                    } else {
                        lookup(done, k)
                    } by {
                        assert(done.push(entry).drop_last() =~= done);
                    }
                    done = done.push(entry);
                }
                files.insert(path, content);
                cursor = be + 7;
            },
        }
    }
}

/// `b` is what the document `c` reads as: its files are the entries of `c`
/// (a later entry with the same path wins) in path order, its metadata the
/// summary under `"raw"`, and its fingerprint that of its files.
pub open spec fn parsed_from(b: Bundle, c: Seq<char>) -> bool {
    &&& file_entries(c) matches Ok(es) && forall|k: Seq<char>| #[trigger] lookup(b.files@, k)
        == lookup(es, k)
    &&& keys_sorted(b.files@)
    &&& keys_sorted(b.metadata@)
    &&& forall|k: Seq<char>| #[trigger] lookup(b.metadata@, k) == if k == raw_key() {
        summary_text(c)
    } else {
        None
    }
    &&& b.fingerprint@ == files_fingerprint(b.files@)
}

/// Two documents with the same entries read as bundles with the same files
/// and the same fingerprint; only the metadata may differ. With
/// `law_bundle_whitespace_insensitive`, this holds of documents that differ
/// only in the text before `<files>` and in whitespace around elements and
/// CDATA sections.
pub proof fn law_same_entries_same_bundle(c1: Seq<char>, c2: Seq<char>, b1: Bundle, b2: Bundle)
    requires
        file_entries(c1) == file_entries(c2),
        parsed_from(b1, c1),
        parsed_from(b2, c2),
    ensures
        b1.files@ == b2.files@,
        b1.fingerprint@ == b2.fingerprint@,
{
    crate::text_map::lemma_sorted_determined(b1.files@, b2.files@);
}

/// Reads a Repomix document: its summary into the metadata under `"raw"`,
/// its `<file>` elements into the files (a later element with the same path
/// replaces an earlier one), and the fingerprint of the files.
pub fn parse(content: &str) -> (r: Result<Bundle, BundleError>)
    ensures
        match r {
            Ok(b) => parsed_from(b, content@),
            Err(e) => file_entries(content@) == Err::<Seq<(Seq<char>, Seq<char>)>, _>(e@),
        },
{
    let c = chars_of(content);
    let t = Tokens::new();
    let metadata = extract_summary(&c, &t);
    let files = match extract_files(&c, &t) {
        Ok(f) => f,
        Err(e) => {
            return Err(e);
        },
    };
    let fingerprint = compute_fingerprint(&files);
    Ok(Bundle { files, metadata, fingerprint })
}

} // verus!
