//! The persistent chunks of `tailcall_chunk`, holding the names along query
//! paths. Verus does not see inside a chunk: what each call does to its
//! contents is stated below, over a name for those contents.

use vstd::prelude::*;
use tailcall_chunk::Chunk as SharedChunk;

verus! {

#[verifier::external_type_specification]
#[verifier::external_body]
#[verifier::reject_recursive_types(A)]
pub struct ExChunk<A>(SharedChunk<A>);

/// The items of a chunk of names, in the order `as_vec` gives them.
pub uninterp spec fn names_of(c: SharedChunk<(bool, String)>) -> Seq<(bool, Seq<char>)>;

/// The paths of a chunk of paths, each as its items, in the order `as_vec`
/// gives them.
pub uninterp spec fn paths_of(c: SharedChunk<SharedChunk<(bool, String)>>) -> Seq<Seq<(bool, Seq<char>)>>;

/// The item view of a name.
pub open spec fn item_view(a: (bool, String)) -> (bool, Seq<char>) {
    (a.0, a.1@)
}

/// A chunk holding one name.
///
/// Calls `Chunk::new`, which builds the `Single` variant; `as_vec` gives
/// that one item.
#[verifier::external_body]
pub fn chunk_single(a: (bool, String)) -> (r: SharedChunk<(bool, String)>)
    ensures
        names_of(r) == seq![item_view(a)],
{
    SharedChunk::new(a)
}

/// The chunk with a name put in front.
///
/// Calls `Chunk::prepend`: a single chunk when the chunk is empty, else the
/// concatenation of a single chunk and the chunk; either way `as_vec` gives
/// the name, then the old items.
#[verifier::external_body]
pub fn chunk_prepend(c: SharedChunk<(bool, String)>, a: (bool, String)) -> (r: SharedChunk<(bool, String)>)
    ensures
        names_of(r) == seq![item_view(a)] + names_of(c),
{
    c.prepend(a)
}

/// The names of a chunk, in order.
///
/// Calls `Chunk::as_vec`, which walks the chunk and clones each item.
#[verifier::external_body]
pub fn chunk_names(c: &SharedChunk<(bool, String)>) -> (r: Vec<(bool, String)>)
    ensures
        r@.map_values(|a: (bool, String)| item_view(a)) == names_of(*c),
{
    c.as_vec()
}

/// An empty chunk of paths.
///
/// Calls `Chunk::default`, the `Empty` variant.
#[verifier::external_body]
pub fn paths_empty() -> (r: SharedChunk<SharedChunk<(bool, String)>>)
    ensures
        paths_of(r) == Seq::<Seq<(bool, Seq<char>)>>::empty(),
{
    SharedChunk::default()
}

/// The chunk of paths with one more path at the end.
///
/// Calls `Chunk::append`, which concatenates a single chunk after the
/// chunk.
#[verifier::external_body]
pub fn paths_append(c: SharedChunk<SharedChunk<(bool, String)>>, p: SharedChunk<(bool, String)>) -> (r: SharedChunk<SharedChunk<(bool, String)>>)
    ensures
        paths_of(r) == paths_of(c).push(names_of(p)),
{
    c.append(p)
}

/// Two chunks of paths, one after the other.
///
/// Calls `Chunk::concat`, which returns one side when the other is empty
/// and otherwise joins them, keeping the order.
#[verifier::external_body]
pub fn paths_concat(a: SharedChunk<SharedChunk<(bool, String)>>, b: SharedChunk<SharedChunk<(bool, String)>>) -> (r: SharedChunk<SharedChunk<(bool, String)>>)
    ensures
        paths_of(r) == paths_of(a) + paths_of(b),
{
    a.concat(b)
}

/// The paths of a chunk, in order.
///
/// Calls `Chunk::as_vec`; each path is a clone of the stored chunk, which
/// shares its items.
#[verifier::external_body]
pub fn paths_list(c: &SharedChunk<SharedChunk<(bool, String)>>) -> (r: Vec<SharedChunk<(bool, String)>>)
    ensures
        r@.len() == paths_of(*c).len(),
        forall|i: int| 0 <= i < r@.len() ==> #[trigger] names_of(r@[i]) == paths_of(*c)[i],
{
    c.as_vec()
}

/// A chunk of the given paths, in order.
///
/// Calls `Chunk::from_iter`, which collects the paths into one vector.
#[verifier::external_body]
pub fn paths_collect(v: Vec<SharedChunk<(bool, String)>>) -> (r: SharedChunk<SharedChunk<(bool, String)>>)
    ensures
        paths_of(r).len() == v@.len(),
        forall|i: int| 0 <= i < v@.len() ==> #[trigger] paths_of(r)[i] == names_of(v@[i]),
{
    v.into_iter().collect()
}

/// A copy of a chunk of paths.
///
/// Calls `Chunk::clone`, which shares the stored items.
#[verifier::external_body]
pub fn paths_copy(c: &SharedChunk<SharedChunk<(bool, String)>>) -> (r: SharedChunk<SharedChunk<(bool, String)>>)
    ensures
        paths_of(r) == paths_of(*c),
{
    c.clone()
}

} // verus!
