//! Lists of key-value pairs read as maps, where a later pair overrides an
//! earlier one with the same key.

use vstd::prelude::*;
use crate::config::url_query::KeyValue;
use crate::strings::seq_lt;
use crate::strmap::StrMap;

verus! {

/// The map a list of pairs builds when each pair is inserted in turn.
pub open spec fn kv_map(v: Seq<KeyValue>) -> Map<Seq<char>, String>
    decreases v.len(),
{
    if v.len() == 0 {
        Map::empty()
    } else {
        kv_map(v.drop_last()).insert(v.last().key@, v.last().value)
    }
}

/// Keys strictly increase along the list.
pub open spec fn keys_sorted(v: Seq<KeyValue>) -> bool {
    forall|i: int, j: int| 0 <= i < j < v.len() ==> seq_lt(#[trigger] v[i].key@, #[trigger] v[j].key@)
}

/// A list with distinct keys gives each key the value paired with it.
pub proof fn lemma_kv_map_distinct(v: Seq<KeyValue>)
    requires
        forall|i: int, j: int| 0 <= i < j < v.len() ==> #[trigger] v[i].key@ != #[trigger] v[j].key@,
    ensures
        forall|i: int| 0 <= i < v.len() ==> #[trigger] kv_map(v).contains_key(v[i].key@) && kv_map(v)[v[i].key@] == v[i].value,
        forall|k: Seq<char>| #[trigger] kv_map(v).contains_key(k) ==> exists|i: int| 0 <= i < v.len() && v[i].key@ == k,
    decreases v.len(),
{
    if v.len() > 0 {
        let w = v.drop_last();
        assert forall|i: int, j: int| 0 <= i < j < w.len() implies #[trigger] w[i].key@ != #[trigger] w[j].key@ by {
            assert(w[i] == v[i] && w[j] == v[j]);
        }
        lemma_kv_map_distinct(w);
        assert forall|i: int| 0 <= i < v.len() implies #[trigger] kv_map(v).contains_key(v[i].key@) && kv_map(v)[v[i].key@] == v[i].value by {
            if i < v.len() - 1 {
                assert(w[i] == v[i]);
                assert(kv_map(w).contains_key(w[i].key@) && kv_map(w)[w[i].key@] == w[i].value);
                assert(v[i].key@ != v[v.len() - 1].key@);
            }
        }
        assert forall|k: Seq<char>| #[trigger] kv_map(v).contains_key(k) implies exists|i: int| 0 <= i < v.len() && v[i].key@ == k by {
            if k != v.last().key@ {
                assert(kv_map(w).contains_key(k));
                let i = choose|i: int| 0 <= i < w.len() && w[i].key@ == k;
                assert(v[i] == w[i]);
            } else {
                assert(v[v.len() - 1].key@ == k);
            }
        }
    }
}

fn copy_kv(kv: &KeyValue) -> (r: KeyValue)
    ensures
        r == *kv,
{
    KeyValue { key: kv.key.clone(), value: kv.value.clone() }
}

/// A copy of a list of pairs.
pub fn copy_key_values(v: &Vec<KeyValue>) -> (r: Vec<KeyValue>)
    ensures
        r@ == v@,
{
    let mut r: Vec<KeyValue> = Vec::new();
    let n = v.len();
    let mut i: usize = 0;
    while i < n
        invariant
            n == v@.len(),
            i <= n,
            r@ == v@.take(i as int),
        decreases n - i,
    {
        r.push(copy_kv(&v[i]));
        assert(r@ =~= v@.take(i + 1));
        i = i + 1;
    }
    assert(v@.take(n as int) =~= v@);
    r
}

fn insert_all(acc: &mut StrMap<String>, v: &Vec<KeyValue>)
    requires
        old(acc).wf(),
    ensures
        final(acc).wf(),
        final(acc).as_map() == old(acc).as_map().union_prefer_right(kv_map(v@)),
{
    let n = v.len();
    let mut i: usize = 0;
    assert(kv_map(v@.take(0)) =~= Map::empty());
    assert(old(acc).as_map().union_prefer_right(Map::empty()) =~= old(acc).as_map());
    while i < n
        invariant
            n == v@.len(),
            i <= n,
            acc.wf(),
            acc.as_map() == old(acc).as_map().union_prefer_right(kv_map(v@.take(i as int))),
        decreases n - i,
    {
        acc.insert(v[i].key.clone(), v[i].value.clone());
        proof {
            assert(v@.take(i + 1).drop_last() =~= v@.take(i as int));
            assert(kv_map(v@.take(i + 1)) == kv_map(v@.take(i as int)).insert(v@[i as int].key@, v@[i as int].value));
            assert(acc.as_map() =~= old(acc).as_map().union_prefer_right(kv_map(v@.take(i + 1))));
        }
        i = i + 1;
    }
    assert(v@.take(n as int) =~= v@);
}

/// The pairs of `left` and `right` as one map, where `right` wins on a
/// shared key, listed in increasing key order.
pub fn merge_key_value_vecs(left: &Vec<KeyValue>, right: &Vec<KeyValue>) -> (r: Vec<KeyValue>)
    ensures
        kv_map(r@) == kv_map(left@).union_prefer_right(kv_map(right@)),
        keys_sorted(r@),
{
    let mut acc: StrMap<String> = StrMap::new();
    insert_all(&mut acc, left);
    assert(Map::<Seq<char>, String>::empty().union_prefer_right(kv_map(left@)) =~= kv_map(left@));
    insert_all(&mut acc, right);
    let mut r: Vec<KeyValue> = Vec::new();
    let n = acc.entries.len();
    let mut i: usize = 0;
    while i < n
        invariant
            n == acc.entries@.len(),
            i <= n,
            r@.len() == i,
            forall|j: int| 0 <= j < i ==> (#[trigger] r@[j]).key@ == acc.entries@[j].0@ && r@[j].value == acc.entries@[j].1,
        decreases n - i,
    {
        r.push(KeyValue { key: acc.entries[i].0.clone(), value: acc.entries[i].1.clone() });
        i = i + 1;
    }
    proof {
        assert forall|i: int, j: int| 0 <= i < j < r@.len() implies seq_lt(#[trigger] r@[i].key@, #[trigger] r@[j].key@) by {
            assert(seq_lt(acc.entries@[i].0@, acc.entries@[j].0@));
        }
        assert forall|i: int, j: int| 0 <= i < j < r@.len() implies #[trigger] r@[i].key@ != #[trigger] r@[j].key@ by {
            crate::strings::lemma_seq_lt_irreflexive(r@[i].key@);
            assert(seq_lt(acc.entries@[i].0@, acc.entries@[j].0@));
        }
        lemma_kv_map_distinct(r@);
        assert forall|k: Seq<char>| #[trigger] kv_map(r@).contains_key(k) <==> acc.as_map().contains_key(k) by {
            if kv_map(r@).contains_key(k) {
                let i = choose|i: int| 0 <= i < r@.len() && r@[i].key@ == k;
                acc.lemma_at(i);
            }
            if acc.as_map().contains_key(k) {
                let i = acc.pos(k);
                assert(r@[i].key@ == k);
            }
        }
        assert forall|k: Seq<char>| #[trigger] kv_map(r@).contains_key(k) implies kv_map(r@)[k] == acc.as_map()[k] by {
            let i = choose|i: int| 0 <= i < r@.len() && r@[i].key@ == k;
            acc.lemma_at(i);
        }
        assert(kv_map(r@) =~= acc.as_map());
    }
    r
}

} // verus!
