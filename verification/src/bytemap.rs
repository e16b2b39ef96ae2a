//! A map keyed by byte strings, kept as a vector of entries in which no key
//! occurs twice.
use vstd::prelude::*;

use crate::bytes::bytes_eq;

verus! {

/// What a value stored in a [`ByteMap`] stands for, and the well-formedness
/// that its own contents need.
pub trait ByteValue: Sized {
    type M;

    spec fn model(&self) -> Self::M;

    spec fn value_wf(&self) -> bool;
}

impl ByteValue for Vec<u8> {
    type M = Seq<u8>;

    open spec fn model(&self) -> Seq<u8> {
        self@
    }

    open spec fn value_wf(&self) -> bool {
        true
    }
}

/// A pending write: `Some(v)` writes `v`, `None` deletes.
pub open spec fn write_model(w: Option<Vec<u8>>) -> Option<Seq<u8>> {
    match w {
        Some(v) => Some(v@),
        None => None,
    }
}

impl ByteValue for Option<Vec<u8>> {
    type M = Option<Seq<u8>>;

    open spec fn model(&self) -> Option<Seq<u8>> {
        write_model(*self)
    }

    open spec fn value_wf(&self) -> bool {
        true
    }
}

impl ByteValue for bool {
    type M = bool;

    open spec fn model(&self) -> bool {
        *self
    }

    open spec fn value_wf(&self) -> bool {
        true
    }
}

/// A finite map from byte strings to values.
pub struct ByteMap<V> {
    pub entries: Vec<(Vec<u8>, V)>,
}

impl<V: ByteValue> ByteMap<V> {
    /// The keys, in the order the entries are stored.
    pub open spec fn keys(self) -> Seq<Seq<u8>> {
        self.entries@.map_values(|e: (Vec<u8>, V)| e.0@)
    }

    pub open spec fn key_at(self, i: int) -> Seq<u8> {
        self.entries@[i].0@
    }

    pub open spec fn value_at(self, i: int) -> V {
        self.entries@[i].1
    }

    /// No key occurs twice and every value is well formed.
    pub open spec fn wf(self) -> bool {
        &&& self.keys().no_duplicates()
        &&& forall|i: int| 0 <= i < self.entries@.len() ==> (#[trigger] self.entries@[i]).1.value_wf()
    }

    /// The map that the entries stand for.
    pub open spec fn map(self) -> Map<Seq<u8>, V::M> {
        Map::new(
            |k: Seq<u8>| self.keys().contains(k),
            |k: Seq<u8>| self.entries@[self.keys().index_of(k)].1.model(),
        )
    }

    /// The entry at position `i` is what the map holds for its key.
    pub proof fn lemma_entry(self, i: int)
        requires
            self.wf(),
            0 <= i < self.entries@.len(),
        ensures
            self.keys()[i] == self.key_at(i),
            self.keys().index_of(self.key_at(i)) == i,
            self.map().contains_key(self.key_at(i)),
            self.map()[self.key_at(i)] == self.value_at(i).model(),
    {
        let k = self.key_at(i);
        assert(self.keys()[i] == k);
        assert(self.keys().contains(k));
        let j = self.keys().index_of(k);
        assert(0 <= j < self.keys().len() && self.keys()[j] == k);
    }

    /// A key is in the map exactly when some entry holds it.
    pub proof fn lemma_contains(self, k: Seq<u8>)
        requires
            self.wf(),
        ensures
            self.map().contains_key(k) <==> exists|i: int|
                0 <= i < self.entries@.len() && #[trigger] self.key_at(i) == k,
            self.map().contains_key(k) ==> {
                let i = self.keys().index_of(k);
                &&& 0 <= i < self.entries@.len()
                &&& self.key_at(i) == k
                &&& self.map()[k] == self.value_at(i).model()
            },
    {
        if self.map().contains_key(k) {
            let i = self.keys().index_of(k);
            assert(self.keys()[i] == k);
            assert(self.key_at(i) == k);
        }
        if exists|i: int| 0 <= i < self.entries@.len() && #[trigger] self.key_at(i) == k {
            let i = choose|i: int| 0 <= i < self.entries@.len() && #[trigger] self.key_at(i) == k;
            assert(self.keys()[i] == k);
        }
    }

    /// The map's keys are finitely many, one per entry.
    pub proof fn lemma_dom_len(self)
        requires
            self.wf(),
        ensures
            self.map().dom() == self.keys().to_set(),
            self.map().dom().finite(),
            self.map().dom().len() == self.entries@.len(),
    {
        assert(self.map().dom() =~= self.keys().to_set());
        self.keys().unique_seq_to_set();
    }

    /// An empty map.
    pub fn new() -> (res: Self)
        ensures
            res.wf(),
            res.map() == Map::<Seq<u8>, V::M>::empty(),
            res.entries@.len() == 0,
    {
        let res = ByteMap { entries: Vec::new() };
        assert(res.map() =~= Map::<Seq<u8>, V::M>::empty());
        res
    }

    /// The number of keys.
    pub fn len(&self) -> (res: usize)
        requires
            self.wf(),
        ensures
            res == self.entries@.len(),
            res == self.map().dom().len(),
    {
        proof {
            self.lemma_dom_len();
        }
        self.entries.len()
    }

    /// The position of `key`, if it is held.
    pub fn find(&self, key: &[u8]) -> (res: Option<usize>)
        requires
            self.wf(),
        ensures
            match res {
                Some(i) => i < self.entries@.len() && self.key_at(i as int) == key@,
                None => !self.map().contains_key(key@),
            },
            res is Some <==> self.map().contains_key(key@),
    {
        let mut i: usize = 0;
        while i < self.entries.len()
            invariant
                self.wf(),
                i <= self.entries@.len(),
                forall|j: int| 0 <= j < i ==> self.key_at(j) != key@,
            decreases self.entries@.len() - i,
        {
            if bytes_eq(self.entries[i].0.as_slice(), key) {
                proof {
                    self.lemma_entry(i as int);
                }
                return Some(i);
            }
            i = i + 1;
        }
        proof {
            self.lemma_contains(key@);
        }
        None
    }

    /// Whether `key` is held.
    pub fn contains_key(&self, key: &[u8]) -> (res: bool)
        requires
            self.wf(),
        ensures
            res == self.map().contains_key(key@),
    {
        self.find(key).is_some()
    }

    /// The value held for `key`.
    pub fn get(&self, key: &[u8]) -> (res: Option<&V>)
        requires
            self.wf(),
        ensures
            match res {
                Some(v) => self.map().contains_key(key@) && v.model() == self.map()[key@]
                    && v.value_wf(),
                None => !self.map().contains_key(key@),
            },
    {
        match self.find(key) {
            Some(i) => {
                proof {
                    self.lemma_entry(i as int);
                }
                Some(&self.entries[i].1)
            },
            None => None,
        }
    }

    /// Sets the value for `key`, replacing any earlier one.
    pub fn insert(&mut self, key: Vec<u8>, value: V)
        requires
            old(self).wf(),
            value.value_wf(),
        ensures
            final(self).wf(),
            final(self).map() == old(self).map().insert(key@, value.model()),
    {
        let ghost k = key@;
        let ghost vm = value.model();
        match self.find(key.as_slice()) {
            Some(i) => {
                let ghost before = *self;
                self.entries.set(i, (key, value));
                proof {
                    assert(self.keys() =~= before.keys());
                    assert forall|j: int| 0 <= j < self.entries@.len() implies (
                    #[trigger] self.entries@[j]).1.value_wf() by {
                        if j != i {
                            assert(self.entries@[j] == before.entries@[j]);
                        }
                    }
                    assert forall|kk: Seq<u8>| #[trigger]
                        self.map().contains_key(kk) implies self.map()[kk] == before.map().insert(
                        k,
                        vm,
                    )[kk] by {
                        before.lemma_contains(kk);
                        let jj = before.keys().index_of(kk);
                        if kk == k {
                            self.lemma_entry(i as int);
                        } else {
                            self.lemma_entry(jj);
                        }
                    }
                    assert(self.map() =~= before.map().insert(k, vm));
                }
            },
            None => {
                let ghost before = *self;
                self.entries.push((key, value));
                proof {
                    let n = before.entries@.len() as int;
                    assert(self.keys() =~= before.keys().push(k));
                    assert(!before.keys().contains(k));
                    assert forall|a: int, b: int|
                        0 <= a < self.keys().len() && 0 <= b < self.keys().len() && a != b
                            implies self.keys()[a] != self.keys()[b] by {
                        if a < n && b < n {
                        } else if a == n {
                            assert(before.keys()[b] == self.keys()[b]);
                        } else {
                            assert(before.keys()[a] == self.keys()[a]);
                        }
                    }
                    assert forall|j: int| 0 <= j < self.entries@.len() implies (
                    #[trigger] self.entries@[j]).1.value_wf() by {
                        if j < n {
                            assert(self.entries@[j] == before.entries@[j]);
                        }
                    }
                    assert forall|kk: Seq<u8>|
                        #[trigger] self.map().contains_key(kk) <==> before.map().insert(
                            k,
                            vm,
                        ).contains_key(kk) by {
                        self.lemma_contains(kk);
                        before.lemma_contains(kk);
                        if self.map().contains_key(kk) && kk != k {
                            let jj = self.keys().index_of(kk);
                            assert(jj != n);
                            assert(before.key_at(jj) == kk);
                        }
                        if before.map().contains_key(kk) {
                            let jj = before.keys().index_of(kk);
                            assert(self.entries@[jj] == before.entries@[jj]);
                            assert(self.key_at(jj) == kk);
                        }
                        if kk == k {
                            assert(self.key_at(n) == k);
                        }
                    }
                    assert forall|kk: Seq<u8>| #[trigger]
                        self.map().contains_key(kk) implies self.map()[kk] == before.map().insert(
                        k,
                        vm,
                    )[kk] by {
                        if kk == k {
                            self.lemma_entry(n);
                        } else {
                            before.lemma_contains(kk);
                            let jj = before.keys().index_of(kk);
                            assert(self.entries@[jj] == before.entries@[jj]);
                            self.lemma_entry(jj);
                        }
                    }
                    assert(self.map() =~= before.map().insert(k, vm));
                }
            },
        }
    }

    /// Removes `key`, handing back the value it held.
    pub fn remove(&mut self, key: &[u8]) -> (res: Option<V>)
        requires
            old(self).wf(),
        ensures
            final(self).wf(),
            final(self).map() == old(self).map().remove(key@),
            match res {
                Some(v) => old(self).map().contains_key(key@) && v.model() == old(self).map()[key@]
                    && v.value_wf(),
                None => !old(self).map().contains_key(key@),
            },
    {
        match self.find(key) {
            Some(i) => {
                let ghost before = *self;
                let ghost k = key@;
                proof {
                    before.lemma_entry(i as int);
                }
                let (_, v) = self.entries.remove(i);
                proof {
                    let n = before.entries@.len() as int;
                    assert(self.keys() =~= before.keys().remove(i as int));
                    assert forall|a: int, b: int|
                        0 <= a < self.keys().len() && 0 <= b < self.keys().len() && a != b
                            implies self.keys()[a] != self.keys()[b] by {
                        let a2 = if a < i { a } else { a + 1 };
                        let b2 = if b < i { b } else { b + 1 };
                        assert(self.keys()[a] == before.keys()[a2]);
                        assert(self.keys()[b] == before.keys()[b2]);
                    }
                    assert forall|j: int| 0 <= j < self.entries@.len() implies (
                    #[trigger] self.entries@[j]).1.value_wf() by {
                        let j2 = if j < i { j } else { j + 1 };
                        assert(self.entries@[j] == before.entries@[j2]);
                    }
                    assert forall|kk: Seq<u8>|
                        #[trigger] self.map().contains_key(kk) <==> before.map().remove(
                            k,
                        ).contains_key(kk) by {
                        self.lemma_contains(kk);
                        before.lemma_contains(kk);
                        if self.map().contains_key(kk) {
                            let jj = self.keys().index_of(kk);
                            let j2 = if jj < i { jj } else { jj + 1 };
                            assert(before.key_at(j2) == kk);
                            assert(j2 != i);
                        }
                        if before.map().contains_key(kk) && kk != k {
                            let jj = before.keys().index_of(kk);
                            assert(jj != i);
                            let j1 = if jj < i { jj } else { jj - 1 };
                            assert(self.key_at(j1) == kk);
                        }
                    }
                    assert forall|kk: Seq<u8>| #[trigger]
                        self.map().contains_key(kk) implies self.map()[kk] == before.map().remove(
                        k,
                    )[kk] by {
                        before.lemma_contains(kk);
                        let jj = before.keys().index_of(kk);
                        assert(jj != i);
                        let j1 = if jj < i { jj } else { jj - 1 };
                        assert(self.entries@[j1] == before.entries@[jj]);
                        self.lemma_entry(j1);
                    }
                    assert(self.map() =~= before.map().remove(k));
                }
                Some(v)
            },
            None => {
                proof {
                    assert(self.map() =~= self.map().remove(key@));
                }
                None
            },
        }
    }

    /// Takes out the most recently stored entry.
    pub fn pop(&mut self) -> (res: Option<(Vec<u8>, V)>)
        requires
            old(self).wf(),
        ensures
            final(self).wf(),
            match res {
                Some((k, v)) => {
                    &&& old(self).map().contains_key(k@)
                    &&& old(self).map()[k@] == v.model()
                    &&& v.value_wf()
                    &&& final(self).map() == old(self).map().remove(k@)
                    &&& final(self).entries@.len() == old(self).entries@.len() - 1
                },
                None => old(self).map() == Map::<Seq<u8>, V::M>::empty() && final(self).map()
                    == old(self).map(),
            },
            res is Some <==> old(self).entries@.len() > 0,
            res is Some ==> res == Some(old(self).entries@.last()) && final(self).entries@
                == old(self).entries@.drop_last(),
    {
        let ghost before = *self;
        match self.entries.pop() {
            Some((k, v)) => {
                proof {
                    let n = before.entries@.len() - 1;
                    before.lemma_entry(n);
                    assert(self.entries@ =~= before.entries@.drop_last());
                    assert(self.keys() =~= before.keys().drop_last());
                    assert forall|a: int, b: int|
                        0 <= a < self.keys().len() && 0 <= b < self.keys().len() && a != b
                            implies self.keys()[a] != self.keys()[b] by {
                        assert(self.keys()[a] == before.keys()[a]);
                        assert(self.keys()[b] == before.keys()[b]);
                    }
                    assert forall|j: int| 0 <= j < self.entries@.len() implies (
                    #[trigger] self.entries@[j]).1.value_wf() by {
                        assert(self.entries@[j] == before.entries@[j]);
                    }
                    assert forall|kk: Seq<u8>|
                        #[trigger] self.map().contains_key(kk) <==> before.map().remove(
                            k@,
                        ).contains_key(kk) by {
                        self.lemma_contains(kk);
                        before.lemma_contains(kk);
                        if self.map().contains_key(kk) {
                            let jj = self.keys().index_of(kk);
                            assert(before.key_at(jj) == kk);
                            assert(before.keys()[jj] != before.keys()[n]);
                        }
                        if before.map().contains_key(kk) && kk != k@ {
                            let jj = before.keys().index_of(kk);
                            assert(jj != n);
                            assert(self.key_at(jj) == kk);
                        }
                    }
                    assert forall|kk: Seq<u8>| #[trigger]
                        self.map().contains_key(kk) implies self.map()[kk] == before.map().remove(
                        k@,
                    )[kk] by {
                        self.lemma_contains(kk);
                        let jj = self.keys().index_of(kk);
                        assert(before.entries@[jj] == self.entries@[jj]);
                        before.lemma_entry(jj);
                    }
                    assert(self.map() =~= before.map().remove(k@));
                }
                Some((k, v))
            },
            None => {
                proof {
                    assert(before.keys() =~= Seq::<Seq<u8>>::empty());
                    assert(before.map() =~= Map::<Seq<u8>, V::M>::empty());
                }
                None
            },
        }
    }

    /// Removes every entry.
    pub fn clear(&mut self)
        ensures
            final(self).wf(),
            final(self).map() == Map::<Seq<u8>, V::M>::empty(),
            final(self).entries@.len() == 0,
    {
        self.entries.clear();
        assert(self.keys() =~= Seq::<Seq<u8>>::empty());
        assert(self.map() =~= Map::<Seq<u8>, V::M>::empty());
    }
}

} // verus!
