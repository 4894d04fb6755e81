//! Normalisation of the paths a run is started on.

use vstd::prelude::*;

verus! {

/// The byte that separates the components of a path.
pub const SEPARATOR: u8 = 47;

/// Whether `path` ends in a separator.
pub open spec fn ends_with_separator(path: Seq<u8>) -> bool {
    path.len() > 0 && path.last() == SEPARATOR
}

/// `path` without its trailing separators, however many it has. Nothing
/// else is touched and no link is resolved. A path made of separators only
/// becomes the empty path.
pub open spec fn stripped(path: Seq<u8>) -> Seq<u8>
    decreases path.len(),
{
    if ends_with_separator(path) {
        stripped(path.drop_last())
    } else {
        path
    }
}

/// Every root of `roots`, stripped.
pub open spec fn stripped_all(roots: Seq<Seq<u8>>) -> Seq<Seq<u8>> {
    Seq::new(roots.len(), |i: int| stripped(roots[i]))
}

/// Removes every trailing separator of `path`, in place.
pub fn strip_trailing_separator(path: Vec<u8>) -> (r: Vec<u8>)
    ensures
        r@ == stripped(path@),
        !ends_with_separator(r@),
        r@ == path@.take(r@.len() as int),
        forall|i: int| r@.len() <= i < path@.len() ==> path@[i] == SEPARATOR,
{
    proof {
        lemma_stripped_is_a_prefix(path@);
    }
    let ghost given = path@;
    let mut path = path;
    while path.len() > 0 && path[path.len() - 1] == SEPARATOR
        invariant
            stripped(path@) == stripped(given),
        decreases path.len(),
    {
        path.pop();
    }
    path
}

/// The paths held by `paths`, each as its bytes.
pub open spec fn paths_view(paths: Seq<Vec<u8>>) -> Seq<Seq<u8>> {
    Seq::new(paths.len(), |i: int| paths[i]@)
}

/// Normalises every root of a run.
pub fn strip_all(roots: Vec<Vec<u8>>) -> (r: Vec<Vec<u8>>)
    ensures
        paths_view(r@) == stripped_all(paths_view(roots@)),
{
    let mut out: Vec<Vec<u8>> = Vec::new();
    let ghost all = roots@;
    for path in iter: roots
        invariant
            iter.seq() == all,
            out.len() == iter.index(),
            forall|j: int| 0 <= j < out.len() ==> (#[trigger] out[j])@ == stripped(all[j]@),
    {
        out.push(strip_trailing_separator(path));
    }
    assert(paths_view(out@) =~= stripped_all(paths_view(all)));
    out
}

/// A normalised path ends in no separator and is a prefix of the path it
/// was made from: only separators at the end were dropped.
pub proof fn lemma_stripped_is_a_prefix(path: Seq<u8>)
    ensures
        !ends_with_separator(stripped(path)),
        stripped(path).len() <= path.len(),
        stripped(path) == path.take(stripped(path).len() as int),
        forall|i: int| stripped(path).len() <= i < path.len() ==> path[i] == SEPARATOR,
    decreases path.len(),
{
    if ends_with_separator(path) {
        let shorter = path.drop_last();
        lemma_stripped_is_a_prefix(shorter);
        assert(shorter.take(stripped(path).len() as int) =~= path.take(
            stripped(path).len() as int,
        ));
        assert forall|i: int| stripped(path).len() <= i < path.len() implies path[i]
            == SEPARATOR by {
            if i < shorter.len() {
                assert(shorter[i] == SEPARATOR);
            }
        }
    } else {
        assert(path.take(path.len() as int) =~= path);
    }
}

/// The normalised form of a path is the one prefix of it that ends in no
/// separator and is followed by separators only.
pub proof fn lemma_stripped_is(path: Seq<u8>, prefix: Seq<u8>)
    requires
        prefix.len() <= path.len(),
        prefix == path.take(prefix.len() as int),
        !ends_with_separator(prefix),
        forall|i: int| prefix.len() <= i < path.len() ==> path[i] == SEPARATOR,
    ensures
        stripped(path) == prefix,
    decreases path.len(),
{
    if prefix.len() == path.len() {
        assert(path.take(path.len() as int) =~= path);
    } else {
        let shorter = path.drop_last();
        assert(shorter.take(prefix.len() as int) =~= path.take(prefix.len() as int));
        lemma_stripped_is(shorter, prefix);
    }
}

/// Normalising twice is normalising once.
pub proof fn lemma_stripped_is_stable(path: Seq<u8>)
    ensures
        stripped(stripped(path)) == stripped(path),
{
    lemma_stripped_is_a_prefix(path);
}

/// A root written with a trailing separator is the same root as the one
/// written without it: both are normalised to the same path.
pub proof fn lemma_separator_is_ignored(root: Seq<u8>)
    requires
        ends_with_separator(root),
    ensures
        stripped(root) == stripped(root.drop_last()),
        stripped(root) == stripped(stripped(root)),
{
    lemma_stripped_is_stable(root);
}

} // verus!
