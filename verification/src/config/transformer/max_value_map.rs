//! A map from strings to counts that remembers a key whose value is the
//! largest.

use vstd::prelude::*;
use crate::strmap::StrMap;

verus! {

/// A map from strings to counts that can be asked for the key with the
/// largest value.
pub struct MaxValueMap {
    map: StrMap<u32>,
    max_valued_key: Option<String>,
}

impl MaxValueMap {
    /// The map as a mathematical map.
    pub closed spec fn map_spec(self) -> Map<Seq<char>, u32> {
        self.map.as_map()
    }

    /// The remembered key.
    pub closed spec fn max_key(self) -> Option<Seq<char>> {
        match self.max_valued_key {
            Some(k) => Some(k@),
            None => None,
        }
    }

    /// The remembered key is a key of the map holding its largest value, and
    /// there is one exactly when the map is not empty.
    pub closed spec fn inv(self) -> bool {
        &&& self.map.wf()
        &&& match self.max_valued_key {
            Some(k) => self.map.as_map().contains_key(k@),
            None => self.map.entries@.len() == 0,
        }
        &&& self.max_ok()
    }

    /// The remembered key holds the largest value of the map.
    pub open spec fn max_ok(self) -> bool {
        self.max_key() matches Some(k) ==> forall|k2: Seq<char>|
            #[trigger] self.map_spec().contains_key(k2) ==> self.map_spec()[k2] <= self.map_spec()[k]
    }

    /// A remembered key is a key of the map holding its largest value, there
    /// is none only when the map is empty, and the map has finitely many
    /// keys.
    pub proof fn lemma_max_key(self)
        requires
            self.inv(),
        ensures
            self.max_key() matches Some(k) ==> self.map_spec().contains_key(k),
            self.max_key() is None ==> self.map_spec().dom() == Set::<Seq<char>>::empty(),
            self.max_ok(),
            self.map_spec().dom().finite(),
    {
        self.map.lemma_len();
        if self.max_valued_key is None {
            assert(self.map_spec().dom() =~= Set::<Seq<char>>::empty());
        }
    }

    /// An empty map.
    pub fn new() -> (r: MaxValueMap)
        ensures
            r.inv(),
            r.map_spec() == Map::<Seq<char>, u32>::empty(),
            r.max_key() is None,
            r.max_ok(),
    {
        MaxValueMap { map: StrMap::new(), max_valued_key: None }
    }

    /// A key holding the largest value of a non-empty map: the first such
    /// key in key order.
    fn largest_key(map: &StrMap<u32>) -> (r: String)
        requires
            map.wf(),
            map.entries@.len() > 0,
        ensures
            map.as_map().contains_key(r@),
            forall|k2: Seq<char>| #[trigger] map.as_map().contains_key(k2) ==> map.as_map()[k2] <= map.as_map()[r@],
    {
        let n = map.entries.len();
        let mut best: usize = 0;
        let mut i: usize = 1;
        while i < n
            invariant
                n == map.entries@.len(),
                1 <= i <= n,
                best < n,
                forall|j: int| 0 <= j < i ==> map.entries@[j].1 <= map.entries@[best as int].1,
            decreases n - i,
        {
            if map.entries[best].1 < map.entries[i].1 {
                best = i;
            }
            i = i + 1;
        }
        proof {
            map.lemma_at(best as int);
            assert forall|k2: Seq<char>| #[trigger] map.as_map().contains_key(k2) implies map.as_map()[k2] <= map.as_map()[map.entries@[best as int].0@] by {
                let j = map.pos(k2);
                map.lemma_at(j);
            }
        }
        map.entries[best].0.clone()
    }

    /// Stores `value` under `key`. `key` becomes the remembered key when the
    /// map was empty or `value` exceeds the remembered key's value; when the
    /// remembered key itself gets a lower value, a key now holding the
    /// largest value is remembered instead. The remembered key always holds
    /// the largest value.
    pub fn insert(&mut self, key: String, value: u32)
        requires
            old(self).inv(),
        ensures
            final(self).inv(),
            final(self).max_ok(),
            final(self).map_spec() == old(self).map_spec().insert(key@, value),
            final(self).map_spec().dom().finite(),
            final(self).map_spec().dom().len() == old(self).map_spec().dom().len() + (if old(self).map_spec().contains_key(
                key@,
            ) {
                0int
            } else {
                1int
            }),
            match old(self).max_key() {
                None => final(self).max_key() == Some(key@),
                Some(m) => (m == key@ && value < old(self).map_spec()[m]) || final(self).max_key() == (if old(self).map_spec()[m] < value {
                    Some(key@)
                } else {
                    Some(m)
                }),
            },
            final(self).max_key() is Some,
            final(self).map_spec().contains_key(final(self).max_key().unwrap()),
    {
        let ghost old_map = self.map_spec();
        proof {
            self.map.lemma_len();
        }
        let (replace, lowered) = match self.get_max_pair() {
            Some((max_key, max_value)) => (*max_value < value, value < *max_value && crate::strings::str_eq(
                max_key.as_str(),
                key.as_str(),
            )),
            None => (true, false),
        };
        if replace {
            self.max_valued_key = Some(key.clone());
        }
        let ghost kv = key@;
        self.map.insert(key, value);
        if lowered {
            proof {
                self.map.lemma_len();
                assert(self.map.as_map().dom().contains(kv));
            }
            let k = Self::largest_key(&self.map);
            self.max_valued_key = Some(k);
        }
        proof {
            let m = self.map_spec();
            self.map.lemma_len();
            assert(m.dom() =~= old_map.dom().insert(key@));
            if let Some(k) = self.max_key() {
                assert(m.contains_key(k));
            }
            if !lowered {
                if let Some(k) = self.max_key() {
                    assert forall|k2: Seq<char>| #[trigger] m.contains_key(k2) implies m[k2] <= m[k] by {
                        if k2 != key@ && k != key@ {
                            assert(old_map.contains_key(k2));
                        }
                        if k2 != key@ && k == key@ {
                            assert(old_map.contains_key(k2));
                        }
                    }
                }
            }
        }
    }

    /// Adds `increment_by` to the value under `key`, or stores it when `key`
    /// is new. The remembered key keeps the largest value: `key` becomes the
    /// remembered key when the map was empty or its new value exceeds the
    /// remembered key's value; on a tie the remembered key stays.
    pub fn increment(&mut self, key: String, increment_by: u32)
        requires
            old(self).inv(),
            old(self).map_spec().contains_key(key@) ==> old(self).map_spec()[key@] + increment_by <= u32::MAX,
        ensures
            final(self).inv(),
            final(self).map_spec() == old(self).map_spec().insert(
                key@,
                if old(self).map_spec().contains_key(key@) {
                    (old(self).map_spec()[key@] + increment_by) as u32
                } else {
                    increment_by
                },
            ),
            final(self).map_spec().dom().finite(),
            final(self).map_spec().dom().len() == old(self).map_spec().dom().len() + (if old(self).map_spec().contains_key(
                key@,
            ) {
                0int
            } else {
                1int
            }),
            final(self).max_ok(),
            match old(self).max_key() {
                None => final(self).max_key() == Some(key@),
                Some(m) => final(self).max_key() == (if old(self).map_spec()[m] < final(self).map_spec()[key@] {
                    Some(key@)
                } else {
                    Some(m)
                }),
            },
    {
        let current = match self.map.get(key.as_str()) {
            Some(v) => Some(*v),
            None => None,
        };
        match current {
            Some(v) => self.insert(key, v + increment_by),
            None => self.insert(key, increment_by),
        }
    }

    /// The remembered key and its value, if the map is not empty.
    pub fn get_max_pair(&self) -> (r: Option<(&String, &u32)>)
        requires
            self.inv(),
        ensures
            r is None <==> self.max_key() is None,
            r matches Some((k, v)) ==> self.max_key() == Some(k@) && self.map_spec()[k@] == *v,
    {
        match &self.max_valued_key {
            Some(key) => {
                match self.map.find(key.as_str()) {
                    Some(i) => {
                        proof {
                            self.map.lemma_at(i as int);
                        }
                        Some((&self.map.entries[i].0, &self.map.entries[i].1))
                    },
                    None => None,
                }
            },
            None => None,
        }
    }

    /// Whether the map is empty.
    pub fn is_empty(&self) -> (r: bool)
        requires
            self.inv(),
        ensures
            r == (self.map_spec().dom().len() == 0),
            r == (self.max_key() is None),
    {
        proof {
            self.map.lemma_len();
        }
        self.map.len() == 0
    }

    /// The number of keys.
    pub fn len(&self) -> (r: usize)
        requires
            self.inv(),
        ensures
            r == self.map_spec().dom().len(),
    {
        proof {
            self.map.lemma_len();
        }
        self.map.len()
    }
}

impl Default for MaxValueMap {
    /// An empty map.
    fn default() -> (r: MaxValueMap)
        ensures
            r.inv(),
            r.map_spec() == Map::<Seq<char>, u32>::empty(),
            r.max_key() is None,
    {
        MaxValueMap::new()
    }
}

} // verus!
