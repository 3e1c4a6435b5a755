//! The insertion-ordered maps of `indexmap`, from names to names. Verus
//! does not see inside such a map: what each call does to its entries is
//! stated below, over a name for those entries.

use vstd::prelude::*;
use indexmap::IndexMap;

verus! {

#[verifier::external_type_specification]
#[verifier::external_body]
#[verifier::reject_recursive_types(K)]
#[verifier::reject_recursive_types(V)]
#[verifier::reject_recursive_types(S)]
pub struct ExIndexMap<K, V, S>(IndexMap<K, V, S>);

/// The entries of a map from names to names, in insertion order.
pub uninterp spec fn name_entries(m: IndexMap<String, String>) -> Seq<(Seq<char>, Seq<char>)>;

/// No key occurs twice.
pub open spec fn keys_unique(e: Seq<(Seq<char>, Seq<char>)>) -> bool {
    forall|i: int, j: int| 0 <= i < j < e.len() ==> (#[trigger] e[i]).0 != (#[trigger] e[j]).0
}

/// The entries after inserting `(k, v)`: the value of an existing key is
/// replaced in place, a new key goes last.
pub open spec fn upsert(e: Seq<(Seq<char>, Seq<char>)>, k: Seq<char>, v: Seq<char>) -> Seq<(Seq<char>, Seq<char>)> {
    if exists|i: int| 0 <= i < e.len() && (#[trigger] e[i]).0 == k {
        let i = choose|i: int| 0 <= i < e.len() && (#[trigger] e[i]).0 == k;
        e.update(i, (k, v))
    } else {
        e.push((k, v))
    }
}

/// The value stored under `k`, if any.
pub open spec fn lookup(e: Seq<(Seq<char>, Seq<char>)>, k: Seq<char>) -> Option<Seq<char>> {
    if exists|i: int| 0 <= i < e.len() && (#[trigger] e[i]).0 == k {
        let i = choose|i: int| 0 <= i < e.len() && (#[trigger] e[i]).0 == k;
        Some(e[i].1)
    } else {
        None
    }
}

/// An empty map.
///
/// Calls `IndexMap::new`, which holds no entries.
#[verifier::external_body]
pub fn names_new() -> (r: IndexMap<String, String>)
    ensures
        name_entries(r) == Seq::<(Seq<char>, Seq<char>)>::empty(),
{
    IndexMap::new()
}

/// Stores `v` under `k`.
///
/// Calls `IndexMap::insert`: the documentation says an existing key keeps
/// its place and takes the new value, and a new key is inserted last.
#[verifier::external_body]
pub fn names_insert(m: &mut IndexMap<String, String>, k: String, v: String)
    ensures
        name_entries(*final(m)) == upsert(name_entries(*old(m)), k@, v@),
{
    m.insert(k, v);
}

/// The value stored under `k`.
///
/// Calls `IndexMap::get` and clones the value it finds.
#[verifier::external_body]
pub fn names_get(m: &IndexMap<String, String>, k: &str) -> (r: Option<String>)
    ensures
        keys_unique(name_entries(*m)) ==> match r {
            Some(v) => lookup(name_entries(*m), k@) == Some(v@),
            None => lookup(name_entries(*m), k@) is None,
        },
{
    m.get(k).cloned()
}

/// The entries, in insertion order.
///
/// Calls `IndexMap::iter` and clones each key and value.
#[verifier::external_body]
pub fn names_entries(m: &IndexMap<String, String>) -> (r: Vec<(String, String)>)
    ensures
        r@.len() == name_entries(*m).len(),
        forall|i: int| 0 <= i < r@.len() ==> (#[trigger] r@[i]).0@ == name_entries(*m)[i].0 && r@[i].1@ == name_entries(*m)[i].1,
{
    m.iter().map(|(k, v)| (k.clone(), v.clone())).collect()
}

/// Inserting keeps keys unique.
pub proof fn lemma_upsert_unique(e: Seq<(Seq<char>, Seq<char>)>, k: Seq<char>, v: Seq<char>)
    requires
        keys_unique(e),
    ensures
        keys_unique(upsert(e, k, v)),
        lookup(upsert(e, k, v), k) == Some(v),
        forall|x: Seq<char>| x != k ==> #[trigger] lookup(upsert(e, k, v), x) == lookup(e, x),
{
    let r = upsert(e, k, v);
    if exists|i: int| 0 <= i < e.len() && (#[trigger] e[i]).0 == k {
        let i = choose|i: int| 0 <= i < e.len() && (#[trigger] e[i]).0 == k;
        assert forall|a: int, b: int| 0 <= a < b < r.len() implies (#[trigger] r[a]).0 != (#[trigger] r[b]).0 by {
            assert(e[a].0 != e[b].0);
        }
        assert forall|x: Seq<char>| x != k implies #[trigger] lookup(r, x) == lookup(e, x) by {
            if exists|j: int| 0 <= j < e.len() && (#[trigger] e[j]).0 == x {
                let j = choose|j: int| 0 <= j < e.len() && (#[trigger] e[j]).0 == x;
                assert(r[j].0 == x);
                let j2 = choose|j2: int| 0 <= j2 < r.len() && (#[trigger] r[j2]).0 == x;
                if j2 != j {
                    if j2 < j { assert(e[j2].0 != e[j].0); } else { assert(e[j].0 != e[j2].0); }
                }
            } else {
                assert forall|j: int| 0 <= j < r.len() implies (#[trigger] r[j]).0 != x by {
                    if j != i {
                        assert(r[j] == e[j]);
                    }
                }
            }
        }
        assert(r[i].0 == k);
        let j2 = choose|j2: int| 0 <= j2 < r.len() && (#[trigger] r[j2]).0 == k;
        if j2 != i {
            if j2 < i { assert(e[j2].0 != e[i].0); } else { assert(e[i].0 != e[j2].0); }
        }
    } else {
        assert forall|a: int, b: int| 0 <= a < b < r.len() implies (#[trigger] r[a]).0 != (#[trigger] r[b]).0 by {
            if b < e.len() {
                assert(e[a].0 != e[b].0);
            } else {
                assert(r[a] == e[a]);
            }
        }
        assert forall|x: Seq<char>| x != k implies #[trigger] lookup(r, x) == lookup(e, x) by {
            if exists|j: int| 0 <= j < e.len() && (#[trigger] e[j]).0 == x {
                let j = choose|j: int| 0 <= j < e.len() && (#[trigger] e[j]).0 == x;
                assert(r[j].0 == x);
                let j2 = choose|j2: int| 0 <= j2 < r.len() && (#[trigger] r[j2]).0 == x;
                if j2 != j {
                    if j2 < j { assert(r[j2] == e[j2]); assert(e[j2].0 != e[j].0); } else if j2 < e.len() { assert(r[j2] == e[j2]); assert(e[j].0 != e[j2].0); }
                }
            } else {
                assert forall|j: int| 0 <= j < r.len() implies (#[trigger] r[j]).0 != x by {
                    if j < e.len() {
                        assert(r[j] == e[j]);
                    }
                }
            }
        }
        assert(r[e.len() as int].0 == k);
        let j2 = choose|j2: int| 0 <= j2 < r.len() && (#[trigger] r[j2]).0 == k;
        if j2 < e.len() {
            assert(r[j2] == e[j2]);
        }
    }
}

} // verus!
