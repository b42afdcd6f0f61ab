//! An ordered map from `u64` identifiers to values, kept as two parallel vectors sorted by
//! identifier.

use vstd::prelude::*;

verus! {

/// An ordered map keyed by `u64`. Its contents are a mathematical [`Map`]; its entries are
/// walked by position, in increasing key order.
#[derive(Debug)]
pub struct OrdMap<V> {
    keys: Vec<u64>,
    values: Vec<V>,
}

/// Whether `keys` is strictly increasing.
pub open spec fn increasing(keys: Seq<u64>) -> bool {
    forall|i: int, j: int| 0 <= i < j < keys.len() ==> keys[i] < keys[j]
}

impl<V: DeepView> View for OrdMap<V> {
    type V = Map<u64, V::V>;

    closed spec fn view(&self) -> Map<u64, V::V> {
        Map::new(
            |k: u64| self.keys@.contains(k),
            |k: u64| self.values@[self.keys@.index_of(k)].deep_view(),
        )
    }
}

impl<V: DeepView> DeepView for OrdMap<V> {
    type V = Map<u64, V::V>;

    open spec fn deep_view(&self) -> Map<u64, V::V> {
        self@
    }
}

impl<V> OrdMap<V> {
    #[verifier::type_invariant]
    spec fn sorted(self) -> bool {
        &&& self.keys@.len() == self.values@.len()
        &&& increasing(self.keys@)
    }
}

impl<V: DeepView> OrdMap<V> {
    /// The keys in increasing order.
    pub closed spec fn order(&self) -> Seq<u64> {
        self.keys@
    }

    /// An empty map.
    pub fn new() -> (r: Self)
        ensures
            r@ == Map::<u64, V::V>::empty(),
            r.order() == Seq::<u64>::empty(),
    {
        let r = OrdMap { keys: Vec::new(), values: Vec::new() };
        assert(r@ =~= Map::<u64, V::V>::empty());
        r
    }

    /// The number of entries.
    pub fn len(&self) -> (n: usize)
        ensures
            n == self.order().len(),
            increasing(self.order()),
            forall|k: u64| self.order().contains(k) <==> self@.contains_key(k),
    {
        proof {
            use_type_invariant(&*self);
        }
        self.keys.len()
    }

    /// The key at position `i` in increasing order.
    pub fn key_at(&self, i: usize) -> (k: u64)
        requires
            i < self.order().len(),
        ensures
            k == self.order()[i as int],
            self@.contains_key(k),
    {
        self.keys[i]
    }

    /// The value at position `i` in increasing key order.
    pub fn value_at(&self, i: usize) -> (v: &V)
        requires
            i < self.order().len(),
        ensures
            v.deep_view() == self@[self.order()[i as int]],
    {
        proof {
            use_type_invariant(&*self);
            assert(self.keys@.index_of(self.keys@[i as int]) == i);
        }
        &self.values[i]
    }

    /// The keys, in increasing order.
    pub fn keys(&self) -> (r: Vec<u64>)
        ensures
            r@ == self.order(),
            increasing(r@),
            forall|k: u64| #[trigger] r@.contains(k) <==> self@.contains_key(k),
    {
        proof {
            use_type_invariant(&*self);
        }
        let mut r: Vec<u64> = Vec::with_capacity(self.keys.len());
        r.extend_from_slice(self.keys.as_slice());
        assert(r@ =~= self.keys@);
        r
    }

    /// The position of the first key that is not below `k`.
    fn find(&self, k: u64) -> (p: usize)
        ensures
            p <= self.keys@.len(),
            forall|i: int| 0 <= i < p ==> self.keys@[i] < k,
            forall|i: int| p <= i < self.keys@.len() ==> self.keys@[i] >= k,
            forall|i: int| p < i < self.keys@.len() ==> self.keys@[i] > k,
    {
        proof {
            use_type_invariant(&*self);
        }
        let mut lo: usize = 0;
        let mut hi: usize = self.keys.len();
        while lo < hi
            invariant
                lo <= hi <= self.keys@.len(),
                increasing(self.keys@),
                forall|i: int| 0 <= i < lo ==> self.keys@[i] < k,
                forall|i: int| hi <= i < self.keys@.len() ==> self.keys@[i] >= k,
            decreases hi - lo,
        {
            let mid: usize = lo + (hi - lo) / 2;
            if self.keys[mid] < k {
                lo = mid + 1;
            } else {
                hi = mid;
            }
        }
        assert(lo < self.keys@.len() ==> self.keys@[lo as int] >= k);
        lo
    }

    /// Whether `k` is a key of the map.
    pub fn contains_key(&self, k: u64) -> (b: bool)
        ensures
            b == self@.contains_key(k),
    {
        let p: usize = self.find(k);
        let b: bool = p < self.keys.len() && self.keys[p] == k;
        b
    }

    /// The value of `k`, if any.
    pub fn get(&self, k: u64) -> (r: Option<&V>)
        ensures
            r is Some <==> self@.contains_key(k),
            r matches Some(v) ==> v.deep_view() == self@[k],
    {
        let p: usize = self.find(k);
        if p < self.keys.len() && self.keys[p] == k {
            proof {
                use_type_invariant(&*self);
                assert(self.keys@.index_of(k) == p);
            }
            Some(&self.values[p])
        } else {
            None
        }
    }

    /// Takes the two vectors out, leaving the map empty.
    fn take(&mut self) -> (r: (Vec<u64>, Vec<V>))
        ensures
            r.0@ == old(self).keys@,
            r.1@ == old(self).values@,
            r.0@.len() == r.1@.len(),
            increasing(r.0@),
            final(self)@ == Map::<u64, V::V>::empty(),
    {
        let mut taken = OrdMap::new();
        core::mem::swap(self, &mut taken);
        proof {
            use_type_invariant(&taken);
        }
        let OrdMap { keys, values } = taken;
        (keys, values)
    }

    /// Sets the value of `k`.
    pub fn insert(&mut self, k: u64, v: V)
        ensures
            final(self)@ == old(self)@.insert(k, v.deep_view()),
    {
        let p: usize = self.find(k);
        let ghost before = *self;
        let (mut keys, mut values) = self.take();
        if p < keys.len() && keys[p] == k {
            values.set(p, v);
        } else {
            keys.insert(p, k);
            values.insert(p, v);
        }
        *self = OrdMap { keys, values };
        proof {
            assert(self.keys@[p as int] == k);
            assert forall|key: u64| self@.contains_key(key) <==> before@.insert(k, v.deep_view()).contains_key(key) by {
                if before.keys@.contains(key) {
                    let i = before.keys@.index_of(key);
                    if before.keys@.len() == self.keys@.len() || i < p {
                        assert(self.keys@[i] == key);
                    } else {
                        assert(self.keys@[i + 1] == key);
                    }
                }
                if self.keys@.contains(key) && key != k {
                    let i = self.keys@.index_of(key);
                    if before.keys@.len() == self.keys@.len() || i < p {
                        assert(before.keys@[i] == key);
                    } else {
                        assert(before.keys@[i - 1] == key);
                    }
                }
            }
            assert forall|key: u64| before@.insert(k, v.deep_view()).contains_key(key) implies
                self@[key] == before@.insert(k, v.deep_view())[key] by {
                assert(self@.contains_key(key));
                let i = self.keys@.index_of(key);
                if key != k {
                    assert(before.keys@.contains(key));
                    let j = before.keys@.index_of(key);
                    if before.keys@.len() == self.keys@.len() || j < p {
                        assert(self.keys@[j] == key);
                    } else {
                        assert(self.keys@[j + 1] == key);
                    }
                } else {
                    assert(i == p);
                }
            }
            assert(self@ =~= before@.insert(k, v.deep_view()));
        }
    }

    /// Removes `k` and hands its value back, if any.
    pub fn remove(&mut self, k: u64) -> (r: Option<V>)
        ensures
            r is Some <==> old(self)@.contains_key(k),
            r matches Some(v) ==> v.deep_view() == old(self)@[k],
            final(self)@ == old(self)@.remove(k),
    {
        let p: usize = self.find(k);
        let ghost before = *self;
        proof {
            use_type_invariant(&*self);
        }
        if !(p < self.keys.len() && self.keys[p] == k) {
            assert(self@.remove(k) =~= self@);
            return None;
        }
        let (mut keys, mut values) = self.take();
        let _k: u64 = keys.remove(p);
        let v = values.remove(p);
        *self = OrdMap { keys, values };
        proof {
            assert(before.keys@.index_of(k) == p);
            assert forall|key: u64| self@.contains_key(key) <==> before@.remove(k).contains_key(key) by {
                if before.keys@.contains(key) && key != k {
                    let i = before.keys@.index_of(key);
                    if i < p {
                        assert(self.keys@[i] == key);
                    } else {
                        assert(self.keys@[i - 1] == key);
                    }
                }
                if self.keys@.contains(key) {
                    let i = self.keys@.index_of(key);
                    if i < p {
                        assert(before.keys@[i] == key);
                    } else {
                        assert(before.keys@[i + 1] == key);
                    }
                }
            }
            assert forall|key: u64| before@.remove(k).contains_key(key) implies
                self@[key] == before@.remove(k)[key] by {
                let j = before.keys@.index_of(key);
                if j < p {
                    assert(self.keys@[j] == key);
                } else {
                    assert(self.keys@[j - 1] == key);
                }
            }
            assert(self@ =~= before@.remove(k));
        }
        Some(v)
    }
}

impl<V: DeepView> OrdMap<V> {
    /// Removes the entries of `keys`.
    pub fn remove_all(&mut self, keys: &Vec<u64>)
        ensures
            final(self)@ == old(self)@.remove_keys(keys@.to_set()),
    {
        let ghost before = self@;
        assert(self@ =~= before.remove_keys(keys@.take(0).to_set()));
        for i in 0..keys.len()
            invariant
                self@ == before.remove_keys(keys@.take(i as int).to_set()),
        {
            let _gone: Option<V> = self.remove(keys[i]);
            proof {
                let a = keys@.take(i as int);
                let b = keys@.take(i + 1);
                assert(b =~= a.push(keys@[i as int]));
                assert forall|k: u64| #[trigger] b.contains(k) <==> a.contains(k) || k
                    == keys@[i as int] by {
                    if a.contains(k) {
                        let x = choose|x: int| 0 <= x < a.len() && a[x] == k;
                        assert(b[x] == k);
                    }
                    assert(b[i as int] == keys@[i as int]);
                }
                assert(self@ =~= before.remove_keys(b.to_set()));
            }
        }
        assert(keys@.take(keys@.len() as int) =~= keys@);
    }
}

/// A set of identifiers, walked in increasing order.
#[derive(Debug)]
pub struct IdSet {
    members: OrdMap<bool>,
}

impl View for IdSet {
    type V = Set<u64>;

    closed spec fn view(&self) -> Set<u64> {
        self.members@.dom()
    }
}

impl IdSet {
    /// An empty set.
    pub fn new() -> (r: Self)
        ensures
            r@ == Set::<u64>::empty(),
    {
        let r = IdSet { members: OrdMap::new() };
        assert(r@ =~= Set::<u64>::empty());
        r
    }

    /// Adds a member.
    pub fn insert(&mut self, k: u64)
        ensures
            final(self)@ == old(self)@.insert(k),
    {
        let ghost before = self@;
        self.members.insert(k, true);
        assert(self@ =~= before.insert(k));
    }

    /// Whether `k` is a member.
    pub fn contains(&self, k: u64) -> (r: bool)
        ensures
            r == self@.contains(k),
    {
        self.members.contains_key(k)
    }

    /// Takes a member away.
    pub fn remove(&mut self, k: u64)
        ensures
            final(self)@ == old(self)@.remove(k),
    {
        let ghost before = self@;
        let _held: Option<bool> = self.members.remove(k);
        assert(self@ =~= before.remove(k));
    }

    /// The members, in increasing order.
    pub fn to_vec(&self) -> (r: Vec<u64>)
        ensures
            increasing(r@),
            forall|k: u64| #[trigger] r@.contains(k) <==> self@.contains(k),
    {
        self.members.keys()
    }
}

} // verus!
