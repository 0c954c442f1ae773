//! Bundles: a whole repository packed into one document, read as a map from
//! file path to file content.

pub mod repomix;

use crate::digest::{fingerprint, fingerprint_of, push_bytes, utf8};
use crate::text_map::{keys_sorted, lookup, TextMap};
use vstd::prelude::*;

verus! {

/// A parsed bundle.
#[derive(Debug)]
pub struct Bundle {
    /// Path to content, in ascending path order.
    pub files: TextMap,
    /// Packer metadata; a Repomix bundle records its summary under `"raw"`.
    pub metadata: TextMap,
    /// The fingerprint of `files` (see `files_fingerprint`).
    pub fingerprint: String,
}

impl Bundle {
    /// A bundle with no files, no metadata and an empty fingerprint.
    pub fn empty() -> (b: Bundle)
        ensures
            b.files@.len() == 0,
            b.metadata@.len() == 0,
            b.fingerprint@.len() == 0,
    {
        Bundle { files: TextMap::new(), metadata: TextMap::new(), fingerprint: String::new() }
    }
}

/// The bytes hashed for a bundle fingerprint: for each file in order, its
/// path, a NUL byte, its content and a NUL byte, all as UTF-8.
pub open spec fn files_bytes(files: Seq<(Seq<char>, Seq<char>)>) -> Seq<u8>
    decreases files.len(),
{
    if files.len() == 0 {
        Seq::empty()
    } else {
        files_bytes(files.drop_last()) + utf8(files.last().0) + seq![0u8] + utf8(files.last().1)
            + seq![0u8]
    }
}

/// The total number of bytes in the records of `files`: for each file, the
/// UTF-8 lengths of its path and content and two NUL bytes.
pub open spec fn records_len(files: Seq<(Seq<char>, Seq<char>)>) -> int
    decreases files.len(),
{
    if files.len() == 0 {
        0
    } else {
        records_len(files.drop_last()) + utf8(files.last().0).len() + utf8(files.last().1).len()
            + 2
    }
}

/// Adding a file after the others appends exactly its path, a NUL byte, its
/// content and a NUL byte (as UTF-8) to the hashed bytes, and leaves the
/// bytes of every earlier file in place.
pub proof fn law_files_bytes_push(files: Seq<(Seq<char>, Seq<char>)>, f: (Seq<char>, Seq<char>))
    ensures
        files_bytes(files.push(f)) == files_bytes(files) + utf8(f.0) + seq![0u8] + utf8(f.1)
            + seq![0u8],
{
    assert(files.push(f).drop_last() =~= files);
}

/// The hashed bytes of two runs of files, one after the other, are the
/// bytes of the first run followed by those of the second: every file
/// contributes its bytes, in order, none is left out.
pub proof fn law_files_bytes_concat(
    a: Seq<(Seq<char>, Seq<char>)>,
    b: Seq<(Seq<char>, Seq<char>)>,
)
    ensures
        files_bytes(a + b) == files_bytes(a) + files_bytes(b),
    decreases b.len(),
{
    if b.len() == 0 {
        assert(a + b =~= a);
        assert(files_bytes(a) + files_bytes(b) =~= files_bytes(a));
    } else {
        let c = b.drop_last();
        law_files_bytes_concat(a, c);
        assert(a + b =~= (a + c).push(b.last()));
        law_files_bytes_push(a + c, b.last());
        law_files_bytes_push(c, b.last());
        assert(b =~= c.push(b.last()));
        assert(files_bytes(a + b) =~= files_bytes(a) + files_bytes(b));
    }
}

/// The hashed bytes of one file are its path, a NUL byte, its content and a
/// NUL byte, as UTF-8.
pub proof fn law_files_bytes_single(f: (Seq<char>, Seq<char>))
    ensures
        files_bytes(seq![f]) == utf8(f.0) + seq![0u8] + utf8(f.1) + seq![0u8],
{
    law_files_bytes_push(Seq::empty(), f);
    assert(Seq::<(Seq<char>, Seq<char>)>::empty().push(f) =~= seq![f]);
    assert(Seq::<u8>::empty() + utf8(f.0) + seq![0u8] + utf8(f.1) + seq![0u8] =~= utf8(f.0)
        + seq![0u8] + utf8(f.1) + seq![0u8]);
}

/// The number of hashed bytes is the sum, over all files, of the UTF-8
/// lengths of path and content plus two NUL bytes per file.
pub proof fn law_files_bytes_len(files: Seq<(Seq<char>, Seq<char>)>)
    ensures
        files_bytes(files).len() == records_len(files),
    decreases files.len(),
{
    if files.len() > 0 {
        law_files_bytes_len(files.drop_last());
    }
}

/// The fingerprint of a bundle whose files are `files`, in path order.
pub open spec fn files_fingerprint(files: Seq<(Seq<char>, Seq<char>)>) -> Seq<char> {
    fingerprint_of(files_bytes(files))
}

/// Fingerprints a set of files: SHA-256 over each path and content in path
/// order, each followed by a NUL byte.
pub fn compute_fingerprint(files: &TextMap) -> (r: String)
    ensures
        r@ == files_fingerprint(files@),
        r@.len() == 71,
{
    let mut bytes: Vec<u8> = Vec::new();
    let n = files.len();
    let mut i: usize = 0;
    while i < n
        invariant
            n == files@.len(),
            i <= n,
            bytes@ == files_bytes(files@.take(i as int)),
        decreases n - i,
    {
        let (path, content) = files.entry(i);
        push_bytes(&mut bytes, path.as_str().as_bytes());
        bytes.push(0u8);
        push_bytes(&mut bytes, content.as_str().as_bytes());
        bytes.push(0u8);
        assert(files@.take(i + 1).drop_last() =~= files@.take(i as int));
        assert(files@.take(i + 1).last() == files@[i as int]);
        i = i + 1;
    }
    assert(files@.take(n as int) =~= files@);
    fingerprint(bytes.as_slice())
}

/// Bundles with the same files have the same fingerprint, whatever order
/// the files were added in: the fingerprint depends on the path-to-content
/// map alone.
pub proof fn law_fingerprint_depends_only_on_files(
    a: Seq<(Seq<char>, Seq<char>)>,
    b: Seq<(Seq<char>, Seq<char>)>,
)
    requires
        keys_sorted(a),
        keys_sorted(b),
        forall|k: Seq<char>| lookup(a, k) == lookup(b, k),
    ensures
        files_fingerprint(a) == files_fingerprint(b),
{
    crate::text_map::lemma_sorted_determined(a, b);
}

} // verus!
