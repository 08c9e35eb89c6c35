//! A map from integers to values, kept in key order.
use vstd::prelude::*;

verus! {

/// A map keyed by `u64` whose keys are held in increasing order, so that the last key and the
/// neighbours of a key can be found.
#[derive(Debug)]
pub struct OrdMap<V> {
    keys: Vec<u64>,
    values: Vec<V>,
}

/// Every element of `keys` is smaller than the next.
pub open spec fn strictly_increasing(keys: Seq<u64>) -> bool {
    forall|i: int, j: int| 0 <= i < j < keys.len() ==> keys[i] < keys[j]
}

/// `keys` lists the keys of `map` in increasing order.
pub open spec fn lists_keys<V>(map: Map<u64, V>, keys: Seq<u64>) -> bool {
    strictly_increasing(keys) && forall|k: u64| #[trigger] map.contains_key(k) <==> keys.contains(k)
}

/// The keys of a finite map in increasing order.
pub open spec fn ordered_keys<V>(map: Map<u64, V>) -> Seq<u64> {
    choose|keys: Seq<u64>| lists_keys(map, keys)
}

/// `below` is the largest key of `map` that is smaller than `key`.
pub open spec fn is_largest_below<V>(map: Map<u64, V>, key: u64, below: u64) -> bool {
    &&& map.contains_key(below)
    &&& below < key
    &&& forall|other: u64| #[trigger] map.contains_key(other) && other < key ==> other <= below
}

/// The largest key of `map` that is smaller than `key`.
pub open spec fn largest_below<V>(map: Map<u64, V>, key: u64) -> Option<u64> {
    if exists|below: u64| is_largest_below(map, key, below) {
        Some(choose|below: u64| is_largest_below(map, key, below))
    } else {
        None
    }
}

/// `above` is the smallest key of `map` that is larger than `key`.
pub open spec fn is_smallest_above<V>(map: Map<u64, V>, key: u64, above: u64) -> bool {
    &&& map.contains_key(above)
    &&& above > key
    &&& forall|other: u64| #[trigger] map.contains_key(other) && other > key ==> other >= above
}

/// The smallest key of `map` that is larger than `key`.
pub open spec fn smallest_above<V>(map: Map<u64, V>, key: u64) -> Option<u64> {
    if exists|above: u64| is_smallest_above(map, key, above) {
        Some(choose|above: u64| is_smallest_above(map, key, above))
    } else {
        None
    }
}

/// Two increasing sequences of the same elements are equal.
pub proof fn lemma_increasing_is_unique(a: Seq<u64>, b: Seq<u64>)
    requires
        strictly_increasing(a),
        strictly_increasing(b),
        forall|k: u64| #[trigger] a.contains(k) <==> b.contains(k),
    ensures
        a == b,
    decreases a.len(),
{
    if a.len() == 0 {
        if b.len() > 0 {
            assert(b.contains(b[0]));
            assert(a.contains(b[0]));
        }
        assert(a =~= b);
    } else {
        assert(a.contains(a.last()));
        assert(b.contains(a.last()));
        let in_b = b.index_of(a.last());
        assert(b.contains(b.last()));
        assert(a.contains(b.last()));
        let in_a = a.index_of(b.last());
        assert(a.last() == b.last()) by {
            assert(b[in_b] == a.last());
            assert(a[in_a] == b.last());
            if in_b < b.len() - 1 {
                assert(b[in_b] < b.last());
            }
            if in_a < a.len() - 1 {
                assert(a[in_a] < a.last());
            }
        }
        let a0 = a.drop_last();
        let b0 = b.drop_last();
        assert forall|k: u64| #[trigger] a0.contains(k) <==> b0.contains(k) by {
            if a0.contains(k) {
                let i = a0.index_of(k);
                assert(a[i] == k && k < a.last());
                assert(a.contains(k));
                let j = b.index_of(k);
                assert(b[j] == k);
                assert(b0[j] == k);
            }
            if b0.contains(k) {
                let i = b0.index_of(k);
                assert(b[i] == k && k < b.last());
                assert(b.contains(k));
                assert(a.contains(k));
                let j = a.index_of(k);
                assert(a[j] == k);
                assert(a0[j] == k);
            }
        }
        lemma_increasing_is_unique(a0, b0);
        assert(a =~= a0.push(a.last()));
        assert(b =~= b0.push(b.last()));
    }
}

/// A sequence that lists the keys of a map is the one `ordered_keys` gives.
pub proof fn lemma_ordered_keys<V>(map: Map<u64, V>, keys: Seq<u64>)
    requires
        lists_keys(map, keys),
    ensures
        ordered_keys(map) == keys,
{
    let chosen = ordered_keys(map);
    assert(lists_keys(map, chosen));
    assert forall|k: u64| #[trigger] chosen.contains(k) <==> keys.contains(k) by {
        assert(map.contains_key(k) <==> chosen.contains(k));
    }
    lemma_increasing_is_unique(chosen, keys);
}

/// Maps with the same keys have the same key order.
pub proof fn lemma_ordered_keys_of_domain<V, W>(a: Map<u64, V>, b: Map<u64, W>, keys: Seq<u64>)
    requires
        a.dom() == b.dom(),
        lists_keys(a, keys),
    ensures
        ordered_keys(a) == keys,
        ordered_keys(b) == keys,
        lists_keys(b, keys),
{
    assert forall|k: u64| #[trigger] b.contains_key(k) <==> keys.contains(k) by {
        assert(a.contains_key(k) <==> a.dom().contains(k));
        assert(b.contains_key(k) <==> b.dom().contains(k));
    }
    lemma_ordered_keys(a, keys);
    lemma_ordered_keys(b, keys);
}

/// A key below `key` has a largest such key at or above it.
pub proof fn lemma_largest_below_exists<V>(map: Map<u64, V>, key: u64, witness: u64)
    requires
        map.contains_key(witness),
        witness < key,
    ensures
        largest_below(map, key) matches Some(below) && is_largest_below(map, key, below) && witness
            <= below,
    decreases key,
{
    let before = (key - 1) as u64;
    if map.contains_key(before) {
        assert(is_largest_below(map, key, before));
    } else {
        lemma_largest_below_exists(map, before, witness);
        let below = largest_below(map, before)->0;
        assert(is_largest_below(map, key, below)) by {
            assert forall|other: u64| #[trigger] map.contains_key(other) && other < key implies other
                <= below by {
                assert(other != before);
            }
        }
    }
}

/// A key above `key` has a smallest such key at or below it.
pub proof fn lemma_smallest_above_exists<V>(map: Map<u64, V>, key: u64, witness: u64)
    requires
        map.contains_key(witness),
        witness > key,
    ensures
        smallest_above(map, key) matches Some(above) && is_smallest_above(map, key, above) && above
            <= witness,
    decreases u64::MAX - key,
{
    let next = (key + 1) as u64;
    if map.contains_key(next) {
        assert(is_smallest_above(map, key, next));
    } else {
        lemma_smallest_above_exists(map, next, witness);
        let above = smallest_above(map, next)->0;
        assert(is_smallest_above(map, key, above)) by {
            assert forall|other: u64| #[trigger] map.contains_key(other) && other > key implies other
                >= above by {
                assert(other != next);
            }
        }
    }
}

/// A finite map has a key order.
pub proof fn lemma_lists_keys<V>(map: Map<u64, V>)
    requires
        map.dom().finite(),
    ensures
        lists_keys(map, ordered_keys(map)),
        ordered_keys(map).len() == map.dom().len(),
    decreases map.dom().len(),
{
    if map.dom().len() == 0 {
        let keys = Seq::<u64>::empty();
        assert forall|k: u64| #[trigger] map.contains_key(k) <==> keys.contains(k) by {
            if map.contains_key(k) {
                assert(map.dom().contains(k));
                assert(map.dom() =~= Set::empty());
            }
        }
        lemma_ordered_keys(map, keys);
    } else {
        let last = map.dom().choose();
        let top = if map.contains_key(u64::MAX) {
            u64::MAX
        } else {
            lemma_largest_below_exists(map, u64::MAX, last);
            largest_below(map, u64::MAX)->0
        };
        let less = map.remove(top);
        lemma_lists_keys(less);
        let keys = ordered_keys(less);
        let all = keys.push(top);
        assert forall|k: u64| #[trigger] map.contains_key(k) <==> all.contains(k) by {
            if map.contains_key(k) && k != top {
                assert(less.contains_key(k));
                assert(keys.contains(k));
                assert(all[keys.index_of(k)] == k);
            }
            if k == top {
                assert(all[keys.len() as int] == k);
            }
            if all.contains(k) && k != top {
                let i = all.index_of(k);
                assert(keys[i] == k);
                assert(keys.contains(k));
                assert(less.contains_key(k));
            }
        }
        assert forall|i: int, j: int| 0 <= i < j < all.len() implies all[i] < all[j] by {
            assert(keys.contains(keys[i]));
            assert(less.contains_key(keys[i]));
            assert(map.contains_key(keys[i]));
        }
        lemma_ordered_keys(map, all);
    }
}

impl<V> View for OrdMap<V> {
    type V = Map<u64, V>;

    closed spec fn view(&self) -> Map<u64, V> {
        Map::new(
            |k: u64| self.keys@.contains(k),
            |k: u64| self.values@[self.keys@.index_of(k)],
        )
    }
}

impl<V> OrdMap<V> {
    /// The keys are in increasing order and each has a value.
    pub closed spec fn wf(&self) -> bool {
        &&& self.keys@.len() == self.values@.len()
        &&& strictly_increasing(self.keys@)
    }

    /// The keys in increasing order.
    pub closed spec fn key_seq(&self) -> Seq<u64> {
        self.keys@
    }

    /// The key sequence lists exactly the keys of the map, in increasing order.
    pub proof fn lemma_key_seq(&self)
        requires
            self.wf(),
        ensures
            strictly_increasing(self.key_seq()),
            forall|k: u64| #[trigger] self@.contains_key(k) <==> self.key_seq().contains(k),
            forall|i: int|
                0 <= i < self.key_seq().len() ==> self@.contains_key(#[trigger] self.key_seq()[i]),
            self@.dom().finite(),
            self@.dom().len() == self.key_seq().len(),
            lists_keys(self@, self.key_seq()),
            ordered_keys(self@) == self.key_seq(),
    {
        let s = self.keys@;
        assert(self@.dom() =~= s.to_set());
        assert(s.no_duplicates());
        s.unique_seq_to_set();
        assert forall|i: int| 0 <= i < s.len() implies self@.contains_key(#[trigger] s[i]) by {
            assert(s.contains(s[i]));
        }
        lemma_ordered_keys(self@, s);
    }

    proof fn lemma_at(&self, i: int)
        requires
            self.wf(),
            0 <= i < self.keys@.len(),
        ensures
            self@.contains_key(self.keys@[i]),
            self@[self.keys@[i]] == self.values@[i],
    {
        let k = self.keys@[i];
        assert(self.keys@.contains(k));
        let j = self.keys@.index_of(k);
        assert(self.keys@[j] == k);
        assert(i == j);
    }

    /// An empty map.
    pub fn new() -> (map: OrdMap<V>)
        ensures
            map.wf(),
            map@ == Map::<u64, V>::empty(),
    {
        let map = OrdMap { keys: Vec::new(), values: Vec::new() };
        assert(map@ =~= Map::<u64, V>::empty());
        map
    }

    /// The number of keys.
    pub fn len(&self) -> (len: usize)
        requires
            self.wf(),
        ensures
            len == self.key_seq().len(),
            len == self@.dom().len(),
    {
        proof {
            self.lemma_key_seq();
        }
        self.keys.len()
    }

    /// Whether the map holds no key.
    pub fn is_empty(&self) -> (empty: bool)
        requires
            self.wf(),
        ensures
            empty <==> self.key_seq().len() == 0,
            empty <==> self@ == Map::<u64, V>::empty(),
    {
        proof {
            self.lemma_key_seq();
            if self.keys@.len() == 0 {
                assert(self@ =~= Map::<u64, V>::empty());
            } else {
                self.lemma_at(0);
            }
        }
        self.keys.len() == 0
    }

    /// The number of keys below `key`.
    pub fn rank(&self, key: u64) -> (at: usize)
        requires
            self.wf(),
        ensures
            at <= self.key_seq().len(),
            forall|i: int| 0 <= i < at ==> #[trigger] self.key_seq()[i] < key,
            forall|i: int| at <= i < self.key_seq().len() ==> key <= #[trigger] self.key_seq()[i],
            self@.contains_key(key) <==> (at < self.key_seq().len() && self.key_seq()[at as int]
                == key),
    {
        let mut low: usize = 0;
        let mut high: usize = self.keys.len();
        while low < high
            invariant
                self.wf(),
                low <= high <= self.keys@.len(),
                forall|i: int| 0 <= i < low ==> #[trigger] self.keys@[i] < key,
                forall|i: int| high <= i < self.keys@.len() ==> key <= #[trigger] self.keys@[i],
            decreases high - low,
        {
            let mid: usize = low + (high - low) / 2;
            if self.keys[mid] < key {
                low = mid + 1;
            } else {
                high = mid;
            }
        }
        proof {
            if self@.contains_key(key) {
                let i = self.keys@.index_of(key);
                assert(self.keys@[i] == key);
                if low < i {
                    assert(self.keys@[low as int] < key);
                }
            }
            if low < self.keys@.len() && self.keys@[low as int] == key {
                self.lemma_at(low as int);
            }
        }
        low
    }

    /// Whether `key` is in the map.
    pub fn contains_key(&self, key: u64) -> (found: bool)
        requires
            self.wf(),
        ensures
            found <==> self@.contains_key(key),
    {
        let at: usize = self.rank(key);
        at < self.keys.len() && self.keys[at] == key
    }

    /// The value of `key`.
    pub fn get(&self, key: u64) -> (value: Option<&V>)
        requires
            self.wf(),
        ensures
            value matches Some(v) ==> self@.contains_key(key) && *v == self@[key],
            value is None ==> !self@.contains_key(key),
    {
        let at: usize = self.rank(key);
        if at < self.keys.len() && self.keys[at] == key {
            proof {
                self.lemma_at(at as int);
            }
            Some(&self.values[at])
        } else {
            None
        }
    }

    /// The key at place `i` of the key order.
    pub fn key_at(&self, i: usize) -> (key: u64)
        requires
            self.wf(),
            i < self.key_seq().len(),
        ensures
            key == self.key_seq()[i as int],
            self@.contains_key(key),
    {
        proof {
            self.lemma_at(i as int);
        }
        self.keys[i]
    }

    /// The value of the key at place `i` of the key order.
    pub fn value_at(&self, i: usize) -> (value: &V)
        requires
            self.wf(),
            i < self.key_seq().len(),
        ensures
            self@.contains_key(self.key_seq()[i as int]),
            *value == self@[self.key_seq()[i as int]],
    {
        proof {
            self.lemma_at(i as int);
        }
        &self.values[i]
    }

    /// The largest key.
    pub fn last_key(&self) -> (last: Option<u64>)
        requires
            self.wf(),
        ensures
            last matches Some(k) ==> self@.contains_key(k) && forall|other: u64| #[trigger]
                self@.contains_key(other) ==> other <= k,
            last is None ==> self@ == Map::<u64, V>::empty(),
            last is Some <==> self.key_seq().len() > 0,
            last matches Some(k) ==> k == self.key_seq().last(),
    {
        let n: usize = self.keys.len();
        if n == 0 {
            assert(self@ =~= Map::<u64, V>::empty());
            return None;
        }
        proof {
            self.lemma_at(n - 1);
            assert forall|other: u64| #[trigger] self@.contains_key(other) implies other
                <= self.keys@[n - 1] by {
                let i = self.keys@.index_of(other);
                assert(self.keys@[i] == other);
            }
        }
        Some(self.keys[n - 1])
    }

    /// The largest key below `key`.
    pub fn key_below(&self, key: u64) -> (below: Option<u64>)
        requires
            self.wf(),
        ensures
            below == largest_below(self@, key),
            below matches Some(k) ==> is_largest_below(self@, key, k),
    {
        let at: usize = self.rank(key);
        proof {
            self.lemma_key_seq();
        }
        if at == 0 {
            assert(largest_below(self@, key) is None) by {
                if exists|below: u64| is_largest_below(self@, key, below) {
                    let below = choose|below: u64| is_largest_below(self@, key, below);
                    let i = self.keys@.index_of(below);
                    assert(self.keys@[i] == below);
                }
            }
            None
        } else {
            let found: u64 = self.keys[at - 1];
            proof {
                self.lemma_at(at - 1);
                assert(is_largest_below(self@, key, found)) by {
                    assert forall|other: u64| #[trigger]
                        self@.contains_key(other) && other < key implies other <= found by {
                        let i = self.keys@.index_of(other);
                        assert(self.keys@[i] == other);
                    }
                }
                let chosen = choose|below: u64| is_largest_below(self@, key, below);
                assert(is_largest_below(self@, key, chosen));
                assert(chosen == found);
            }
            Some(found)
        }
    }

    /// The smallest key above `key`.
    pub fn key_above(&self, key: u64) -> (above: Option<u64>)
        requires
            self.wf(),
        ensures
            above == smallest_above(self@, key),
            above matches Some(k) ==> is_smallest_above(self@, key, k),
    {
        let mut at: usize = self.rank(key);
        proof {
            self.lemma_key_seq();
        }
        if at < self.keys.len() && self.keys[at] == key {
            at = at + 1;
        }
        if at == self.keys.len() {
            assert(smallest_above(self@, key) is None) by {
                if exists|above: u64| is_smallest_above(self@, key, above) {
                    let above = choose|above: u64| is_smallest_above(self@, key, above);
                    let i = self.keys@.index_of(above);
                    assert(self.keys@[i] == above);
                }
            }
            None
        } else {
            let found: u64 = self.keys[at];
            proof {
                self.lemma_at(at as int);
                assert(is_smallest_above(self@, key, found)) by {
                    assert forall|other: u64| #[trigger]
                        self@.contains_key(other) && other > key implies other >= found by {
                        let i = self.keys@.index_of(other);
                        assert(self.keys@[i] == other);
                    }
                }
                let chosen = choose|above: u64| is_smallest_above(self@, key, above);
                assert(is_smallest_above(self@, key, chosen));
                assert(chosen == found);
            }
            Some(found)
        }
    }

    /// Inserts `value` under `key`, replacing the value the key had.
    pub fn insert(&mut self, key: u64, value: V)
        requires
            old(self).wf(),
        ensures
            final(self).wf(),
            final(self)@ == old(self)@.insert(key, value),
    {
        let at: usize = self.rank(key);
        let ghost before = *self;
        if at < self.keys.len() && self.keys[at] == key {
            self.values.set(at, value);
            proof {
                assert(self@ =~= before@.insert(key, value)) by {
                    before.lemma_at(at as int);
                    assert forall|k: u64| before@.contains_key(k) && k != key implies #[trigger]
                        self@[k] == before@[k] by {
                        let i = self.keys@.index_of(k);
                        assert(self.keys@[i] == k);
                        assert(i != at);
                    }
                    self.lemma_at(at as int);
                }
            }
        } else {
            self.keys.insert(at, key);
            self.values.insert(at, value);
            proof {
                assert(self.wf()) by {
                    assert forall|i: int, j: int|
                        0 <= i < j < self.keys@.len() implies self.keys@[i] < self.keys@[j] by {
                        let bi = if i > at { i - 1 } else { i };
                        let bj = if j > at { j - 1 } else { j };
                        if i == at {
                            assert(self.keys@[j] == before.keys@[bj]);
                        } else if j == at {
                            assert(self.keys@[i] == before.keys@[bi]);
                        } else {
                            assert(self.keys@[i] == before.keys@[bi]);
                            assert(self.keys@[j] == before.keys@[bj]);
                        }
                    }
                }
                self.lemma_at(at as int);
                assert forall|k: u64| k != key implies (#[trigger] self@.contains_key(k)
                    <==> before@.contains_key(k)) && (before@.contains_key(k) ==> self@[k]
                    == before@[k]) by {
                    if before@.contains_key(k) {
                        let b = before.keys@.index_of(k);
                        assert(before.keys@[b] == k);
                        let a = if b >= at { b + 1 } else { b };
                        assert(self.keys@[a] == k);
                        assert(self.values@[a] == before.values@[b]);
                        self.lemma_at(a);
                        before.lemma_at(b);
                    }
                    if self@.contains_key(k) {
                        let a = self.keys@.index_of(k);
                        assert(self.keys@[a] == k);
                        let b = if a > at { a - 1 } else { a };
                        assert(before.keys@[b] == k);
                        before.lemma_at(b);
                    }
                }
                assert(self@ =~= before@.insert(key, value));
            }
        }
    }

    /// Removes `key` and returns the value it had.
    pub fn remove(&mut self, key: u64) -> (removed: Option<V>)
        requires
            old(self).wf(),
        ensures
            final(self).wf(),
            final(self)@ == old(self)@.remove(key),
            removed matches Some(v) ==> old(self)@.contains_key(key) && v == old(self)@[key],
            removed is None ==> !old(self)@.contains_key(key) && final(self)@ == old(self)@,
    {
        let at: usize = self.rank(key);
        let ghost before = *self;
        if at < self.keys.len() && self.keys[at] == key {
            self.keys.remove(at);
            let value = self.values.remove(at);
            proof {
                before.lemma_at(at as int);
                assert forall|i: int, j: int|
                    0 <= i < j < self.keys@.len() implies self.keys@[i] < self.keys@[j] by {
                    let bi = if i >= at { i + 1 } else { i };
                    let bj = if j >= at { j + 1 } else { j };
                    assert(self.keys@[i] == before.keys@[bi]);
                    assert(self.keys@[j] == before.keys@[bj]);
                }
                assert(self.wf());
                assert forall|k: u64|
                    (#[trigger] self@.contains_key(k) <==> before@.contains_key(k) && k != key)
                    && (self@.contains_key(k) ==> self@[k] == before@[k]) by {
                    if before@.contains_key(k) && k != key {
                        let b = before.keys@.index_of(k);
                        assert(before.keys@[b] == k);
                        let a = if b > at { b - 1 } else { b };
                        assert(self.keys@[a] == k);
                        assert(self.values@[a] == before.values@[b]);
                        self.lemma_at(a);
                        before.lemma_at(b);
                    }
                    if self@.contains_key(k) {
                        let a = self.keys@.index_of(k);
                        assert(self.keys@[a] == k);
                        let b = if a >= at { a + 1 } else { a };
                        assert(before.keys@[b] == k);
                        before.lemma_at(b);
                    }
                }
                assert(self@ =~= before@.remove(key));
            }
            Some(value)
        } else {
            assert(self@ =~= before@.remove(key));
            None
        }
    }
}

} // verus!
