use vstd::prelude::*;
use crate::digest::Digest;

verus! {

/// A key of a storage map: a plain value whose equality can be tested.
pub trait StorageKey: Copy {
    fn same_key(&self, other: &Self) -> (r: bool)
        ensures
            r == (*self == *other);
}

impl StorageKey for u32 {
    fn same_key(&self, other: &Self) -> (r: bool) {
        *self == *other
    }
}

impl StorageKey for Digest {
    fn same_key(&self, other: &Self) -> (r: bool) {
        *self == *other
    }
}

/// A key-value map of the ledger's storage.
///
/// Its contents are the finite map `self@`; each key occurs once.
#[verifier::reject_recursive_types(K)]
pub struct DataMap<K, V> {
    keys: Vec<K>,
    values: Vec<V>,
    contents: Ghost<Map<K, V>>,
}

impl<K, V> View for DataMap<K, V> {
    type V = Map<K, V>;

    closed spec fn view(&self) -> Map<K, V> {
        self.contents@
    }
}

impl<K: StorageKey, V> DataMap<K, V> {
    /// The map's internal invariant: the key and value vectors list the
    /// entries of `self@`, each key once.
    pub closed spec fn wf(&self) -> bool {
        &&& self.keys@.len() == self.values@.len()
        &&& forall|i: int, j: int|
            0 <= i < j < self.keys@.len() ==> self.keys@[i] != self.keys@[j]
        &&& forall|i: int|
            0 <= i < self.keys@.len() ==> #[trigger] self.contents@.contains_key(self.keys@[i])
                && self.contents@[self.keys@[i]] == self.values@[i]
        &&& forall|k: K| #[trigger] self.contents@.contains_key(k) ==> self.keys@.contains(k)
    }

    /// The number of entries.
    pub closed spec fn spec_len(&self) -> nat {
        self.keys@.len()
    }

    /// An empty map.
    pub fn new() -> (r: Self)
        ensures
            r.wf(),
            r@ == Map::<K, V>::empty(),
    {
        DataMap { keys: Vec::new(), values: Vec::new(), contents: Ghost(Map::empty()) }
    }

    /// The finite domain of a well-formed map.
    pub proof fn lemma_finite(&self)
        requires
            self.wf(),
        ensures
            self@.dom().finite(),
            self@.dom().len() == self.spec_len(),
    {
        let ks = self.keys@;
        assert(self@.dom() =~= ks.to_set());
        ks.unique_seq_to_set();
    }

    fn find(&self, k: &K) -> (r: Option<usize>)
        requires
            self.wf(),
        ensures
            match r {
                Some(i) => i < self.keys@.len() && self.keys@[i as int] == *k,
                None => !self@.contains_key(*k),
            },
    {
        let mut i: usize = 0;
        while i < self.keys.len()
            invariant
                self.wf(),
                i <= self.keys@.len(),
                forall|j: int| 0 <= j < i ==> self.keys@[j] != *k,
            decreases self.keys@.len() - i,
        {
            if self.keys[i].same_key(k) {
                return Some(i);
            }
            i = i + 1;
        }
        proof {
            if self@.contains_key(*k) {
                let j = choose|j: int| 0 <= j < self.keys@.len() && self.keys@[j] == *k;
                assert(self.keys@[j] == *k);
            }
        }
        None
    }

    /// Whether the map holds the key.
    pub fn contains_key(&self, k: &K) -> (r: bool)
        requires
            self.wf(),
        ensures
            r == self@.contains_key(*k),
    {
        match self.find(k) {
            Some(_) => true,
            None => false,
        }
    }

    /// The value stored for the key, if any.
    pub fn get(&self, k: &K) -> (r: Option<&V>)
        requires
            self.wf(),
        ensures
            match r {
                Some(v) => self@.contains_key(*k) && *v == self@[*k],
                None => !self@.contains_key(*k),
            },
    {
        match self.find(k) {
            Some(i) => {
                proof {
                    assert(self.contents@.contains_key(self.keys@[i as int]));
                }
                Some(&self.values[i])
            },
            None => None,
        }
    }

    /// Stores `v` under `k`, replacing any value stored there.
    pub fn insert(&mut self, k: K, v: V)
        requires
            old(self).wf(),
        ensures
            final(self).wf(),
            final(self)@ == old(self)@.insert(k, v),
    {
        let ghost old_contents = self.contents@;
        match self.find(&k) {
            Some(i) => {
                self.values.set(i, v);
                self.contents = Ghost(old_contents.insert(k, v));
                assert forall|j: int| 0 <= j < self.keys@.len() implies
                    #[trigger] self.contents@.contains_key(self.keys@[j])
                    && self.contents@[self.keys@[j]] == self.values@[j] by {
                    if j != i {
                        assert(self.keys@[j] != k);
                        assert(old_contents.contains_key(old(self).keys@[j]));
                    }
                }
                assert forall|x: K| #[trigger] self.contents@.contains_key(x) implies self.keys@.contains(x) by {
                    if x == k {
                        assert(self.keys@[i as int] == x);
                    }
                }
            },
            None => {
                self.keys.push(k);
                self.values.push(v);
                self.contents = Ghost(old_contents.insert(k, v));
                assert forall|x: K| #[trigger] self.contents@.contains_key(x) implies self.keys@.contains(x) by {
                    if x == k {
                        assert(self.keys@[self.keys@.len() - 1] == x);
                    } else {
                        assert(old_contents.contains_key(x));
                        let j = choose|j: int| 0 <= j < old(self).keys@.len() && old(self).keys@[j] == x;
                        assert(self.keys@[j] == x);
                    }
                }
                assert forall|a: int, b: int| 0 <= a < b < self.keys@.len() implies self.keys@[a] != self.keys@[b] by {
                    if b == self.keys@.len() - 1 {
                        assert(old(self).keys@.contains(old(self).keys@[a]));
                        assert(old_contents.contains_key(old(self).keys@[a]));
                    }
                }
            },
        }
    }

    /// Removes the entry of `k`, if there is one.
    pub fn remove(&mut self, k: &K)
        requires
            old(self).wf(),
        ensures
            final(self).wf(),
            final(self)@ == old(self)@.remove(*k),
    {
        let ghost old_contents = self.contents@;
        let ghost old_keys = self.keys@;
        let ghost old_values = self.values@;
        match self.find(k) {
            Some(i) => {
                self.keys.remove(i);
                self.values.remove(i);
                self.contents = Ghost(old_contents.remove(*k));
                assert forall|j: int| 0 <= j < self.keys@.len() implies
                    #[trigger] self.contents@.contains_key(self.keys@[j])
                    && self.contents@[self.keys@[j]] == self.values@[j] by {
                    if j < i {
                        assert(self.keys@[j] == old_keys[j]);
                        assert(old_keys[j] != old_keys[i as int]);
                        assert(old_contents.contains_key(old_keys[j]));
                    } else {
                        assert(self.keys@[j] == old_keys[j + 1]);
                        assert(old_keys[i as int] != old_keys[j + 1]);
                        assert(old_contents.contains_key(old_keys[j + 1]));
                    }
                }
                assert forall|x: K| #[trigger] self.contents@.contains_key(x) implies self.keys@.contains(x) by {
                    assert(old_contents.contains_key(x));
                    let j = choose|j: int| 0 <= j < old_keys.len() && old_keys[j] == x;
                    assert(j != i);
                    if j < i {
                        assert(self.keys@[j] == x);
                    } else {
                        assert(self.keys@[j - 1] == x);
                    }
                }
                assert forall|a: int, b: int| 0 <= a < b < self.keys@.len() implies self.keys@[a] != self.keys@[b] by {
                    let oa = if a < i { a } else { a + 1 };
                    let ob = if b < i { b } else { b + 1 };
                    assert(self.keys@[a] == old_keys[oa]);
                    assert(self.keys@[b] == old_keys[ob]);
                }
            },
            None => {
                assert(old_contents.remove(*k) =~= old_contents);
            },
        }
    }

    /// The number of entries.
    pub fn len(&self) -> (r: usize)
        requires
            self.wf(),
        ensures
            r == self@.dom().len(),
    {
        proof { self.lemma_finite(); }
        self.keys.len()
    }
}

impl<K: StorageKey> DataMap<K, u32> {
    /// The largest value stored in the map, if the map is not empty.
    pub fn max_value(&self) -> (r: Option<u32>)
        requires
            self.wf(),
        ensures
            match r {
                Some(m) => (exists|k: K| #[trigger] self@.contains_key(k) && self@[k] == m)
                    && forall|k: K| #[trigger] self@.contains_key(k) ==> self@[k] <= m,
                None => self@.dom() =~= Set::<K>::empty(),
            },
    {
        if self.keys.len() == 0 {
            assert forall|k: K| !self@.contains_key(k) by {
                if self@.contains_key(k) {
                    assert(self.keys@.contains(k));
                }
            }
            return None;
        }
        let mut best: u32 = self.values[0];
        let mut at: usize = 0;
        let mut i: usize = 1;
        while i < self.values.len()
            invariant
                self.wf(),
                1 <= i <= self.values@.len(),
                at < i,
                best == self.values@[at as int],
                forall|j: int| 0 <= j < i ==> self.values@[j] <= best,
            decreases self.values@.len() - i,
        {
            if self.values[i] > best {
                best = self.values[i];
                at = i;
            }
            i = i + 1;
        }
        assert(self@.contains_key(self.keys@[at as int]));
        assert forall|k: K| #[trigger] self@.contains_key(k) implies self@[k] <= best by {
            assert(self.keys@.contains(k));
            let j = choose|j: int| 0 <= j < self.keys@.len() && self.keys@[j] == k;
            assert(self@[self.keys@[j]] == self.values@[j]);
        }
        Some(best)
    }
}

} // verus!
