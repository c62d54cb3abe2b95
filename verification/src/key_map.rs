//! A finite map kept as two parallel vectors with distinct keys, for keys
//! that are compared by their contents: account addresses and
//! (owner, external reference) pairs.

use vstd::prelude::*;
use crate::policy::bytes_eq;

verus! {

/// A key whose equality is the equality of its view.
pub trait KeyEq: View + Sized {
    fn key_eq(&self, other: &Self) -> (r: bool)
        ensures
            r == (self@ == other@),
    ;

    fn key_copy(&self) -> (r: Self)
        ensures
            r@ == self@,
    ;
}

impl KeyEq for Vec<u8> {
    fn key_eq(&self, other: &Self) -> (r: bool) {
        bytes_eq(self, other)
    }

    fn key_copy(&self) -> (r: Self) {
        crate::policy::copy_bytes(self)
    }
}

/// An (owner, external reference) pair.
pub struct RefKey {
    pub owner: Vec<u8>,
    pub ext_ref: Vec<u8>,
}

impl View for RefKey {
    type V = (Seq<u8>, Seq<u8>);

    open spec fn view(&self) -> (Seq<u8>, Seq<u8>) {
        (self.owner@, self.ext_ref@)
    }
}

impl KeyEq for RefKey {
    fn key_eq(&self, other: &Self) -> (r: bool) {
        bytes_eq(&self.owner, &other.owner) && bytes_eq(&self.ext_ref, &other.ext_ref)
    }

    fn key_copy(&self) -> (r: Self) {
        RefKey {
            owner: crate::policy::copy_bytes(&self.owner),
            ext_ref: crate::policy::copy_bytes(&self.ext_ref),
        }
    }
}

/// The map that a list of distinct keys and a list of values denote.
pub open spec fn entries_map<K: View, V>(keys: Seq<K>, vals: Seq<V>) -> Map<K::V, V> {
    Map::new(
        |k: K::V| exists|i: int| 0 <= i < keys.len() && #[trigger] keys[i]@ == k,
        |k: K::V| vals[choose|i: int| 0 <= i < keys.len() && #[trigger] keys[i]@ == k],
    )
}

/// The keys are distinct by their views.
pub open spec fn distinct_keys<K: View>(keys: Seq<K>) -> bool {
    forall|i: int, j: int|
        #![trigger keys[i], keys[j]]
        0 <= i < keys.len() && 0 <= j < keys.len() && i != j ==> keys[i]@ != keys[j]@
}

pub struct KeyMap<K, V> {
    keys: Vec<K>,
    vals: Vec<V>,
}

impl<K: View, V> View for KeyMap<K, V> {
    type V = Map<K::V, V>;

    closed spec fn view(&self) -> Map<K::V, V> {
        entries_map(self.keys@, self.vals@)
    }
}

impl<K: KeyEq, V> KeyMap<K, V> {
    /// The keys are distinct and every key has a value.
    pub closed spec fn wf(&self) -> bool {
        &&& self.keys@.len() == self.vals@.len()
        &&& distinct_keys(self.keys@)
    }

    proof fn lemma_at(&self, i: int)
        requires
            self.wf(),
            0 <= i < self.keys@.len(),
        ensures
            self@.contains_key(self.keys@[i]@),
            self@[self.keys@[i]@] == self.vals@[i],
    {
        let k = self.keys@[i]@;
        assert(exists|j: int| 0 <= j < self.keys@.len() && #[trigger] self.keys@[j]@ == k);
        let j = choose|j: int| 0 <= j < self.keys@.len() && #[trigger] self.keys@[j]@ == k;
        assert(self.keys@[j]@ == self.keys@[i]@);
        assert(j == i);
    }

    proof fn lemma_absent(&self, k: K::V)
        requires
            forall|i: int| 0 <= i < self.keys@.len() ==> (#[trigger] self.keys@[i])@ != k,
        ensures
            !self@.contains_key(k),
    {
    }

    pub fn new() -> (m: Self)
        ensures
            m.wf(),
            m@ == Map::<K::V, V>::empty(),
    {
        let m = KeyMap { keys: Vec::new(), vals: Vec::new() };
        assert(m@ =~= Map::<K::V, V>::empty());
        m
    }

    fn find(&self, k: &K) -> (r: Option<usize>)
        requires
            self.wf(),
        ensures
            match r {
                Some(i) => i < self.keys@.len() && self.keys@[i as int]@ == k@,
                None => !self@.contains_key(k@),
            },
    {
        let mut i: usize = 0;
        while i < self.keys.len()
            invariant
                i <= self.keys@.len(),
                forall|j: int| 0 <= j < i ==> (#[trigger] self.keys@[j])@ != k@,
            decreases self.keys@.len() - i,
        {
            if self.keys[i].key_eq(k) {
                return Some(i);
            }
            i = i + 1;
        }
        proof {
            self.lemma_absent(k@);
        }
        None
    }

    pub fn contains_key(&self, k: &K) -> (r: bool)
        requires
            self.wf(),
        ensures
            r == self@.contains_key(k@),
    {
        match self.find(k) {
            Some(i) => {
                proof {
                    self.lemma_at(i as int);
                }
                true
            },
            None => false,
        }
    }

    pub fn get(&self, k: &K) -> (r: Option<&V>)
        requires
            self.wf(),
        ensures
            match r {
                Some(v) => self@.contains_key(k@) && *v == self@[k@],
                None => !self@.contains_key(k@),
            },
    {
        match self.find(k) {
            Some(i) => {
                proof {
                    self.lemma_at(i as int);
                }
                Some(&self.vals[i])
            },
            None => None,
        }
    }

    /// Removes the entry for `k`, handing its value back.
    pub fn remove(&mut self, k: &K) -> (r: Option<V>)
        requires
            old(self).wf(),
        ensures
            final(self).wf(),
            match r {
                Some(v) => old(self)@.contains_key(k@) && v == old(self)@[k@] && final(self)@
                    == old(self)@.remove(k@),
                None => !old(self)@.contains_key(k@) && final(self)@ == old(self)@,
            },
    {
        match self.find(k) {
            None => None,
            Some(i) => {
                proof {
                    self.lemma_at(i as int);
                }
                let ghost ok = self.keys@;
                let ghost ov = self.vals@;
                let ghost om = self@;
                let _ = self.keys.remove(i);
                let v = self.vals.remove(i);
                proof {
                    assert(self.keys@ == ok.remove(i as int));
                    assert(self.vals@ == ov.remove(i as int));
                    assert forall|a: int, b: int|
                        #![trigger self.keys@[a], self.keys@[b]]
                        0 <= a < self.keys@.len() && 0 <= b < self.keys@.len() && a != b
                            implies self.keys@[a]@ != self.keys@[b]@ by {
                        let oa = if a < i { a } else { a + 1 };
                        let ob = if b < i { b } else { b + 1 };
                        assert(self.keys@[a] == ok[oa]);
                        assert(self.keys@[b] == ok[ob]);
                    }
                    assert forall|kk: K::V| #[trigger] self@.contains_key(kk) <==> om.remove(k@).contains_key(kk) by {
                        if self@.contains_key(kk) {
                            let a = choose|a: int| 0 <= a < self.keys@.len() && #[trigger] self.keys@[a]@ == kk;
                            let oa = if a < i { a } else { a + 1 };
                            assert(self.keys@[a] == ok[oa]);
                            assert(oa != i);
                        }
                        if om.remove(k@).contains_key(kk) {
                            let oa = choose|a: int| 0 <= a < ok.len() && #[trigger] ok[a]@ == kk;
                            assert(oa != i);
                            let a = if oa < i { oa } else { oa - 1 };
                            assert(self.keys@[a] == ok[oa]);
                        }
                    }
                    assert forall|kk: K::V| #[trigger] self@.contains_key(kk) implies self@[kk] == om[kk] by {
                        let a = choose|a: int| 0 <= a < self.keys@.len() && #[trigger] self.keys@[a]@ == kk;
                        self.lemma_at(a);
                        let oa = if a < i { a } else { a + 1 };
                        assert(self.keys@[a] == ok[oa]);
                        assert(self.vals@[a] == ov[oa]);
                        assert(exists|x: int| 0 <= x < ok.len() && #[trigger] ok[x]@ == kk);
                        let ox = choose|x: int| 0 <= x < ok.len() && #[trigger] ok[x]@ == kk;
                        assert(ok[ox]@ == ok[oa]@);
                    }
                    assert(self@ =~= om.remove(k@));
                }
                Some(v)
            },
        }
    }

    /// Sets the value of `k`, replacing any earlier one.
    pub fn insert(&mut self, k: K, v: V)
        requires
            old(self).wf(),
        ensures
            final(self).wf(),
            final(self)@ == old(self)@.insert(k@, v),
    {
        let ghost om = old(self)@;
        let _ = self.remove(&k);
        let ghost mid = self@;
        let ghost ok = self.keys@;
        let ghost ov = self.vals@;
        proof {
            assert(!mid.contains_key(k@));
            assert forall|a: int| 0 <= a < ok.len() implies (#[trigger] ok[a])@ != k@ by {
                self.lemma_at(a);
            }
        }
        self.keys.push(k);
        self.vals.push(v);
        proof {
            let n = ok.len() as int;
            assert(self.keys@ == ok.push(k));
            assert(self.vals@ == ov.push(v));
            assert forall|a: int, b: int|
                #![trigger self.keys@[a], self.keys@[b]]
                0 <= a < self.keys@.len() && 0 <= b < self.keys@.len() && a != b
                    implies self.keys@[a]@ != self.keys@[b]@ by {
                if a < n && b < n {
                    assert(self.keys@[a] == ok[a]);
                    assert(self.keys@[b] == ok[b]);
                } else if a < n {
                    assert(self.keys@[a] == ok[a]);
                } else {
                    assert(self.keys@[b] == ok[b]);
                }
            }
            self.lemma_at(n);
            assert forall|kk: K::V| #[trigger] self@.contains_key(kk) <==> mid.insert(k@, v).contains_key(kk) by {
                if self@.contains_key(kk) && kk != k@ {
                    let a = choose|a: int| 0 <= a < self.keys@.len() && #[trigger] self.keys@[a]@ == kk;
                    assert(a != n);
                    assert(self.keys@[a] == ok[a]);
                }
                if mid.contains_key(kk) {
                    let a = choose|a: int| 0 <= a < ok.len() && #[trigger] ok[a]@ == kk;
                    assert(self.keys@[a] == ok[a]);
                }
            }
            assert forall|kk: K::V| #[trigger] self@.contains_key(kk) implies self@[kk] == mid.insert(k@, v)[kk] by {
                if kk != k@ {
                    let a = choose|a: int| 0 <= a < self.keys@.len() && #[trigger] self.keys@[a]@ == kk;
                    assert(a != n);
                    self.lemma_at(a);
                    assert(self.keys@[a] == ok[a]);
                    assert(self.vals@[a] == ov[a]);
                    assert(exists|x: int| 0 <= x < ok.len() && #[trigger] ok[x]@ == kk);
                    let ox = choose|x: int| 0 <= x < ok.len() && #[trigger] ok[x]@ == kk;
                    assert(ok[ox]@ == ok[a]@);
                }
            }
            assert(self@ =~= mid.insert(k@, v));
            assert(mid.insert(k@, v) =~= om.insert(k@, v));
        }
    }
}


impl<K: KeyEq, V> KeyMap<K, V> {
    /// The map of the given keys and values; `None` unless there are as many
    /// values as keys and the keys are distinct.
    pub fn from_entries(keys: Vec<K>, vals: Vec<V>) -> (r: Option<Self>)
        ensures
            r is Some <==> keys@.len() == vals@.len() && distinct_keys(keys@),
            r matches Some(m) ==> m.wf() && m@ == entries_map(keys@, vals@),
    {
        if keys.len() != vals.len() {
            return None;
        }
        let n = keys.len();
        let mut i: usize = 0;
        while i < n
            invariant
                n == keys@.len(),
                i <= n,
                forall|a: int, b: int|
                    #![trigger keys@[a], keys@[b]]
                    0 <= a < i && 0 <= b < i && a != b ==> keys@[a]@ != keys@[b]@,
            decreases n - i,
        {
            let mut j: usize = 0;
            while j < i
                invariant
                    n == keys@.len(),
                    i < n,
                    j <= i,
                    forall|b: int| 0 <= b < j ==> (#[trigger] keys@[b])@ != keys@[i as int]@,
                decreases i - j,
            {
                if keys[i].key_eq(&keys[j]) {
                    proof {
                        assert(!distinct_keys(keys@)) by {
                            assert(keys@[i as int]@ == keys@[j as int]@);
                        }
                    }
                    return None;
                }
                j = j + 1;
            }
            i = i + 1;
        }
        Some(KeyMap { keys, vals })
    }

    /// The keys and the values of the map, one for one, keys distinct.
    pub fn into_entries(self) -> (r: (Vec<K>, Vec<V>))
        requires
            self.wf(),
        ensures
            r.0@.len() == r.1@.len(),
            distinct_keys(r.0@),
            entries_map(r.0@, r.1@) == self@,
    {
        (self.keys, self.vals)
    }
}


/// The entry at index `j` of distinct keys is in the map they denote.
pub proof fn lemma_entries_at<K: View, V>(keys: Seq<K>, vals: Seq<V>, j: int)
    requires
        distinct_keys(keys),
        0 <= j < keys.len(),
    ensures
        entries_map(keys, vals).contains_key(keys[j]@),
        entries_map(keys, vals)[keys[j]@] == vals[j],
{
    let k = keys[j]@;
    assert(exists|i: int| 0 <= i < keys.len() && #[trigger] keys[i]@ == k);
    let i = choose|i: int| 0 <= i < keys.len() && #[trigger] keys[i]@ == k;
    assert(keys[i]@ == keys[j]@);
}

} // verus!
