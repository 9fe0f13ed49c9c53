//! Maps and sets keyed by strings, kept as vectors sorted in key order.

use vstd::prelude::*;
use crate::keys::{key_lt, lemma_key_order, compare_keys, KeyOrder, texts};

verus! {

/// Whether a sequence of keys is strictly increasing in key order.
pub open spec fn keys_increasing(ks: Seq<Seq<char>>) -> bool {
    forall|i: int, j: int| 0 <= i < j < ks.len() ==> key_lt(ks[i], ks[j])
}

/// In a strictly increasing sequence, equal keys sit at equal positions.
pub proof fn lemma_increasing_unique(ks: Seq<Seq<char>>, i: int, j: int)
    requires
        keys_increasing(ks),
        0 <= i < ks.len(),
        0 <= j < ks.len(),
        ks[i] == ks[j],
    ensures
        i == j,
{
    lemma_key_order(ks[i], ks[j], ks[i]);
}

/// The keys of a sequence of entries.
pub open spec fn keys_of<V>(es: Seq<(String, V)>) -> Seq<Seq<char>> {
    Seq::new(es.len(), |i: int| es[i].0@)
}

/// A map from string keys to values, iterated in key order.
pub struct StrMap<V> {
    entries: Vec<(String, V)>,
}

impl<V> StrMap<V> {
    /// The keys, in increasing order.
    pub closed spec fn key_seq(&self) -> Seq<Seq<char>> {
        keys_of(self.entries@)
    }

    /// The values, in the order of their keys.
    pub closed spec fn value_seq(&self) -> Seq<V> {
        Seq::new(self.entries@.len(), |i: int| self.entries@[i].1)
    }

    #[verifier::type_invariant]
    pub closed spec fn well_formed(&self) -> bool {
        keys_increasing(self.key_seq())
    }

    /// What `well_formed` gives: the keys increase, and the map pairs each key
    /// with the value at its position.
    pub proof fn lemma_view(&self)
        requires
            self.well_formed(),
        ensures
            keys_increasing(self.key_seq()),
            self.key_seq().len() == self.value_seq().len(),
            self@.dom().finite(),
            self@.len() == self.key_seq().len(),
            forall|k: Seq<char>| #[trigger]
                self@.dom().contains(k) <==> self.key_seq().contains(k),
            forall|i: int|
                0 <= i < self.key_seq().len() ==> #[trigger] self@[self.key_seq()[i]]
                    == self.value_seq()[i],
    {
        let ks = self.key_seq();
        assert forall|i: int| 0 <= i < ks.len() implies #[trigger] self@[ks[i]]
            == self.value_seq()[i] by {
            assert(ks.contains(ks[i]));
            let j = ks.index_of(ks[i]);
            lemma_increasing_unique(ks, i, j);
        }
        assert forall|i: int, j: int| 0 <= i < ks.len() && 0 <= j < ks.len() && i != j implies ks[i]
            != ks[j] by {
            if ks[i] == ks[j] {
                lemma_increasing_unique(ks, i, j);
            }
        }
        assert(ks.no_duplicates());
        ks.unique_seq_to_set();
        assert(self@.dom() =~= ks.to_set());
    }

    pub fn new() -> (r: Self)
        ensures
            r@ == Map::<Seq<char>, V>::empty(),
            r.key_seq().len() == 0,
    {
        let r = StrMap { entries: Vec::new() };
        assert(r@ =~= Map::<Seq<char>, V>::empty());
        r
    }

    /// The number of entries; its contract also lays out how the map stands
    /// in key order.
    pub fn len(&self) -> (r: usize)
        ensures
            r == self@.len(),
            r == self.key_seq().len(),
            r == self.value_seq().len(),
            keys_increasing(self.key_seq()),
            self@.dom().finite(),
            forall|k: Seq<char>| #[trigger]
                self@.dom().contains(k) <==> self.key_seq().contains(k),
            forall|i: int|
                0 <= i < self.key_seq().len() ==> #[trigger] self@[self.key_seq()[i]]
                    == self.value_seq()[i],
    {
        proof {
            use_type_invariant(self);
            self.lemma_view();
        }
        self.entries.len()
    }

    pub fn is_empty(&self) -> (r: bool)
        ensures
            r == (self@.len() == 0),
            r == (self@ == Map::<Seq<char>, V>::empty()),
    {
        proof {
            use_type_invariant(self);
            self.lemma_view();
            if self@.len() == 0 {
                assert(self@.dom() =~= Set::empty());
                assert(self@ =~= Map::<Seq<char>, V>::empty());
            }
        }
        self.entries.len() == 0
    }

    /// The key at position `i` in key order.
    pub fn key_at(&self, i: usize) -> (r: &String)
        requires
            i < self.key_seq().len(),
        ensures
            r@ == self.key_seq()[i as int],
    {
        &self.entries[i].0
    }

    /// The value at position `i` in key order.
    pub fn value_at(&self, i: usize) -> (r: &V)
        requires
            i < self.key_seq().len(),
        ensures
            *r == self.value_seq()[i as int],
            *r == self@[self.key_seq()[i as int]],
    {
        proof {
            use_type_invariant(self);
            self.lemma_view();
        }
        &self.entries[i].1
    }

    /// Where `k` stands: `Ok` with its position, or `Err` with the position
    /// at which it would be inserted.
    fn locate(&self, k: &str) -> (r: Result<usize, usize>)
        ensures
            match r {
                Ok(i) => i < self.key_seq().len() && self.key_seq()[i as int] == k@,
                Err(i) => i <= self.key_seq().len() && (forall|j: int|
                    0 <= j < i ==> key_lt(#[trigger] self.key_seq()[j], k@)) && (forall|j: int|
                    i <= j < self.key_seq().len() ==> key_lt(k@, #[trigger] self.key_seq()[j])),
            },
    {
        proof {
            use_type_invariant(self);
        }
        let mut i: usize = 0;
        while i < self.entries.len()
            invariant
                i <= self.entries@.len(),
                keys_increasing(self.key_seq()),
                forall|j: int| 0 <= j < i ==> key_lt(#[trigger] self.key_seq()[j], k@),
            decreases self.entries@.len() - i,
        {
            match compare_keys(self.entries[i].0.as_str(), k) {
                KeyOrder::Before => {},
                KeyOrder::Same => {
                    return Ok(i);
                },
                KeyOrder::After => {
                    proof {
                        assert forall|j: int| i <= j < self.key_seq().len() implies key_lt(
                            k@,
                            #[trigger] self.key_seq()[j],
                        ) by {
                            if j > i {
                                lemma_key_order(k@, self.key_seq()[i as int], self.key_seq()[j]);
                            }
                        }
                    }
                    return Err(i);
                },
            }
            i = i + 1;
        }
        Err(i)
    }

    pub fn contains_key(&self, k: &str) -> (r: bool)
        ensures
            r == self@.dom().contains(k@),
    {
        proof {
            use_type_invariant(self);
            self.lemma_view();
        }
        match self.locate(k) {
            Ok(_) => true,
            Err(i) => {
                proof {
                    if self.key_seq().contains(k@) {
                        let j = choose|j: int| 0 <= j < self.key_seq().len() && self.key_seq()[j] == k@;
                        lemma_key_order(k@, k@, k@);
                    }
                }
                false
            },
        }
    }

    pub fn get(&self, k: &str) -> (r: Option<&V>)
        ensures
            match r {
                Some(v) => self@.dom().contains(k@) && *v == self@[k@],
                None => !self@.dom().contains(k@),
            },
    {
        proof {
            use_type_invariant(self);
            self.lemma_view();
        }
        match self.locate(k) {
            Ok(i) => Some(&self.entries[i].1),
            Err(i) => {
                proof {
                    if self.key_seq().contains(k@) {
                        let j = choose|j: int| 0 <= j < self.key_seq().len() && self.key_seq()[j] == k@;
                        lemma_key_order(k@, k@, k@);
                    }
                }
                None
            },
        }
    }

    /// Replaces the value at position `i` in key order.
    pub fn set_at(&mut self, i: usize, v: V)
        requires
            i < old(self).key_seq().len(),
        ensures
            final(self).key_seq() == old(self).key_seq(),
            final(self).value_seq() == old(self).value_seq().update(i as int, v),
            final(self)@ == old(self)@.insert(old(self).key_seq()[i as int], v),
    {
        proof {
            use_type_invariant(&*self);
            self.lemma_view();
        }
        let ghost old_keys = self.key_seq();
        let ghost old_vals = self.value_seq();
        let ghost old_map = self@;
        let mut es: Vec<(String, V)> = Vec::new();
        std::mem::swap(&mut es, &mut self.entries);
        let k = es[i].0.clone();
        es.set(i, (k, v));
        proof {
            assert(keys_of(es@) =~= old_keys);
        }
        self.entries = es;
        proof {
            assert(self.value_seq() =~= old_vals.update(i as int, v));
            use_type_invariant(&*self);
            self.lemma_view();
            let ks = self.key_seq();
            assert forall|q: Seq<char>| #[trigger] self@.dom().contains(q) == old_map.insert(ks[i as int], v).dom().contains(q) by {
                assert(ks.contains(ks[i as int]));
            }
            assert forall|q: Seq<char>| #[trigger] self@.dom().contains(q) implies self@[q] == old_map.insert(ks[i as int], v)[q] by {
                let a = choose|a: int| 0 <= a < ks.len() && ks[a] == q;
                assert(self@[ks[a]] == self.value_seq()[a]);
                assert(old_map[old_keys[a]] == old_vals[a]);
                if a != i && q == ks[i as int] {
                    lemma_increasing_unique(ks, a, i as int);
                }
            }
            assert(self@ =~= old_map.insert(ks[i as int], v));
        }
    }

    /// Removes `k` and hands back its value, if present.
    pub fn take(&mut self, k: &str) -> (r: Option<V>)
        ensures
            final(self)@ == old(self)@.remove(k@),
            match r {
                Some(v) => old(self)@.dom().contains(k@) && v == old(self)@[k@],
                None => !old(self)@.dom().contains(k@),
            },
    {
        proof {
            use_type_invariant(&*self);
            self.lemma_view();
        }
        let ghost old_map = self@;
        let ghost old_keys = self.key_seq();
        let ghost old_vals = self.value_seq();
        match self.locate(k) {
            Ok(i) => {
                let mut es: Vec<(String, V)> = Vec::new();
                std::mem::swap(&mut es, &mut self.entries);
                let (_key, v) = es.remove(i);
                proof {
                    assert(keys_of(es@) =~= old_keys.remove(i as int));
                }
                self.entries = es;
                proof {
                    assert(self.value_seq() =~= old_vals.remove(i as int));
                    use_type_invariant(&*self);
                    self.lemma_view();
                    let ks = self.key_seq();
                    assert(old_map[old_keys[i as int]] == old_vals[i as int]);
                    assert forall|q: Seq<char>| #[trigger] self@.dom().contains(q)
                        == old_map.remove(k@).dom().contains(q) by {
                        if q != k@ && old_keys.contains(q) {
                            let a = choose|a: int| 0 <= a < old_keys.len() && old_keys[a] == q;
                            if a < i {
                                assert(ks[a] == q);
                            } else {
                                assert(ks[a - 1] == q);
                            }
                        }
                        if ks.contains(q) {
                            let a = choose|a: int| 0 <= a < ks.len() && ks[a] == q;
                            if a < i {
                                assert(old_keys[a] == q);
                                if q == k@ {
                                    lemma_increasing_unique(old_keys, a, i as int);
                                }
                            } else {
                                assert(old_keys[a + 1] == q);
                                if q == k@ {
                                    lemma_increasing_unique(old_keys, a + 1, i as int);
                                }
                            }
                        }
                    }
                    assert forall|q: Seq<char>| #[trigger] self@.dom().contains(q) implies self@[q]
                        == old_map.remove(k@)[q] by {
                        let a = choose|a: int| 0 <= a < ks.len() && ks[a] == q;
                        assert(self@[ks[a]] == self.value_seq()[a]);
                        if a < i {
                            assert(old_keys[a] == q);
                            assert(old_map[old_keys[a]] == old_vals[a]);
                        } else {
                            assert(old_keys[a + 1] == q);
                            assert(old_map[old_keys[a + 1]] == old_vals[a + 1]);
                        }
                    }
                    assert(self@ =~= old_map.remove(k@));
                }
                Some(v)
            },
            Err(_) => {
                proof {
                    if old_keys.contains(k@) {
                        let j = choose|j: int| 0 <= j < old_keys.len() && old_keys[j] == k@;
                        lemma_key_order(k@, k@, k@);
                    }
                    assert(old_map.remove(k@) =~= old_map);
                }
                None
            },
        }
    }

    /// Sets the value of `k`, replacing any value it had.
    pub fn insert(&mut self, k: String, v: V)
        ensures
            final(self)@ == old(self)@.insert(k@, v),
    {
        proof {
            use_type_invariant(&*self);
            self.lemma_view();
        }
        let ghost old_keys = self.key_seq();
        let ghost old_vals = self.value_seq();
        let ghost old_map = self@;
        let pos = self.locate(k.as_str());
        let mut es: Vec<(String, V)> = Vec::new();
        std::mem::swap(&mut es, &mut self.entries);
        let ghost kk = k@;
        match pos {
            Ok(i) => {
                es.remove(i);
                es.insert(i, (k, v));
            },
            Err(i) => {
                es.insert(i, (k, v));
            },
        }
        proof {
            let ks = keys_of(es@);
            match pos {
                Ok(i) => {
                    assert(ks =~= old_keys.update(i as int, kk));
                },
                Err(i) => {
                    assert(ks =~= old_keys.insert(i as int, kk));
                    assert forall|a: int, b: int| 0 <= a < b < ks.len() implies key_lt(
                        ks[a],
                        ks[b],
                    ) by {
                        if a < i && b > i {
                            lemma_key_order(ks[a], kk, ks[b]);
                        }
                    }
                },
            }
        }
        self.entries = es;
        proof {
            match pos {
                Ok(i) => {
                    assert(self.value_seq() =~= old_vals.update(i as int, v));
                },
                Err(i) => {
                    assert(self.value_seq() =~= old_vals.insert(i as int, v));
                },
            }
        }
        proof {
            use_type_invariant(&*self);
            self.lemma_view();
            let ks = self.key_seq();
            assert forall|q: Seq<char>| #[trigger] self@.dom().contains(q) == old_map.insert(
                kk,
                v,
            ).dom().contains(q) by {
                if q != kk && old_keys.contains(q) {
                    let a = choose|a: int| 0 <= a < old_keys.len() && old_keys[a] == q;
                    match pos {
                        Ok(i) => assert(ks[a] == q),
                        Err(i) => if a < i {
                            assert(ks[a] == q);
                        } else {
                            assert(ks[a + 1] == q);
                        },
                    }
                }
                if ks.contains(q) && q != kk {
                    let a = choose|a: int| 0 <= a < ks.len() && ks[a] == q;
                    match pos {
                        Ok(i) => assert(old_keys[a] == q),
                        Err(i) => if a < i {
                            assert(old_keys[a] == q);
                        } else {
                            assert(old_keys[a - 1] == q);
                        },
                    }
                }
                match pos {
                    Ok(i) => assert(ks[i as int] == kk),
                    Err(i) => assert(ks[i as int] == kk),
                }
            }
            assert forall|q: Seq<char>| #[trigger] self@.dom().contains(q) implies self@[q]
                == old_map.insert(kk, v)[q] by {
                let a = choose|a: int| 0 <= a < ks.len() && ks[a] == q;
                assert(self@[ks[a]] == self.value_seq()[a]);
                match pos {
                    Ok(i) => if a != i && q == kk {
                        lemma_increasing_unique(ks, a, i as int);
                    },
                    Err(i) => if a != i && q == kk {
                        lemma_increasing_unique(ks, a, i as int);
                    },
                }
                match pos {
                    Ok(i) => if a != i {
                        assert(old_keys[a] == q);
                        assert(old_map[old_keys[a]] == old_vals[a]);
                    },
                    Err(i) => if a < i {
                        assert(old_keys[a] == q);
                        assert(old_map[old_keys[a]] == old_vals[a]);
                    } else if a > i {
                        assert(old_keys[a - 1] == q);
                        assert(old_map[old_keys[a - 1]] == old_vals[a - 1]);
                    },
                }
            }
            assert(self@ =~= old_map.insert(kk, v));
        }
    }

    /// Removes `k` and its value, if present.
    pub fn remove(&mut self, k: &str)
        ensures
            final(self)@ == old(self)@.remove(k@),
    {
        proof {
            use_type_invariant(&*self);
            self.lemma_view();
        }
        let ghost old_keys = self.key_seq();
        let ghost old_vals = self.value_seq();
        let ghost old_map = self@;
        match self.locate(k) {
            Ok(i) => {
                let mut es: Vec<(String, V)> = Vec::new();
                std::mem::swap(&mut es, &mut self.entries);
                es.remove(i);
                proof {
                    assert(keys_of(es@) =~= old_keys.remove(i as int));
                }
                self.entries = es;
                proof {
                    assert(self.value_seq() =~= old_vals.remove(i as int));
                }
                proof {
                    use_type_invariant(&*self);
                    self.lemma_view();
                    let ks = self.key_seq();
                    assert forall|q: Seq<char>| #[trigger] self@.dom().contains(q)
                        == old_map.remove(k@).dom().contains(q) by {
                        if q != k@ && old_keys.contains(q) {
                            let a = choose|a: int| 0 <= a < old_keys.len() && old_keys[a] == q;
                            if a < i {
                                assert(ks[a] == q);
                            } else {
                                assert(ks[a - 1] == q);
                            }
                        }
                        if ks.contains(q) {
                            let a = choose|a: int| 0 <= a < ks.len() && ks[a] == q;
                            if a < i {
                                assert(old_keys[a] == q);
                                if q == k@ {
                                    lemma_increasing_unique(old_keys, a, i as int);
                                }
                            } else {
                                assert(old_keys[a + 1] == q);
                                if q == k@ {
                                    lemma_increasing_unique(old_keys, a + 1, i as int);
                                }
                            }
                        }
                    }
                    assert forall|q: Seq<char>| #[trigger] self@.dom().contains(q) implies self@[q]
                        == old_map.remove(k@)[q] by {
                        let a = choose|a: int| 0 <= a < ks.len() && ks[a] == q;
                        if a < i {
                            assert(old_keys[a] == q);
                        } else {
                            assert(old_keys[a + 1] == q);
                        }
                    }
                    assert(self@ =~= old_map.remove(k@));
                }
            },
            Err(_) => {
                proof {
                    if old_keys.contains(k@) {
                        let j = choose|j: int| 0 <= j < old_keys.len() && old_keys[j] == k@;
                        lemma_key_order(k@, k@, k@);
                    }
                    assert(old_map.remove(k@) =~= old_map);
                }
            },
        }
    }
}

impl<V> View for StrMap<V> {
    type V = Map<Seq<char>, V>;

    closed spec fn view(&self) -> Map<Seq<char>, V> {
        Map::new(
            |k: Seq<char>| self.key_seq().contains(k),
            |k: Seq<char>| self.value_seq()[self.key_seq().index_of(k)],
        )
    }
}


/// A set of strings, iterated in key order.
pub struct StrSet {
    map: StrMap<()>,
}

impl View for StrSet {
    type V = Set<Seq<char>>;

    closed spec fn view(&self) -> Set<Seq<char>> {
        self.map@.dom()
    }
}

impl StrSet {
    /// The elements, in increasing order.
    pub closed spec fn elem_seq(&self) -> Seq<Seq<char>> {
        self.map.key_seq()
    }

    pub fn new() -> (r: Self)
        ensures
            r@ == Set::<Seq<char>>::empty(),
    {
        let r = StrSet { map: StrMap::new() };
        assert(r@ =~= Set::<Seq<char>>::empty());
        r
    }

    /// Adds `s`; tells whether it was new.
    pub fn insert(&mut self, s: String) -> (r: bool)
        ensures
            r == !old(self)@.contains(s@),
            final(self)@ == old(self)@.insert(s@),
    {
        let present = self.map.contains_key(s.as_str());
        self.map.insert(s, ());
        !present
    }

    pub fn remove(&mut self, s: &str)
        ensures
            final(self)@ == old(self)@.remove(s@),
    {
        self.map.remove(s);
    }

    pub fn contains(&self, s: &str) -> (r: bool)
        ensures
            r == self@.contains(s@),
    {
        self.map.contains_key(s)
    }

    /// The number of elements; its contract also lays out the elements in
    /// key order.
    pub fn len(&self) -> (r: usize)
        ensures
            r == self@.len(),
            r == self.elem_seq().len(),
            self@.finite(),
            keys_increasing(self.elem_seq()),
            forall|k: Seq<char>| #[trigger] self@.contains(k) <==> self.elem_seq().contains(k),
    {
        self.map.len()
    }

    pub fn is_empty(&self) -> (r: bool)
        ensures
            r == (self@.len() == 0),
            r == (self@ == Set::<Seq<char>>::empty()),
    {
        let n = self.len();
        proof {
            if n == 0 {
                assert(self@ =~= Set::<Seq<char>>::empty());
            }
        }
        n == 0
    }

    /// The element at position `i` in key order.
    pub fn elem_at(&self, i: usize) -> (r: &String)
        requires
            i < self.elem_seq().len(),
        ensures
            r@ == self.elem_seq()[i as int],
    {
        self.map.key_at(i)
    }

    /// The set of the given strings.
    pub fn from_vec(v: Vec<String>) -> (r: Self)
        ensures
            r@ == texts(v@).to_set(),
    {
        let mut r = StrSet::new();
        let n = v.len();
        let mut i: usize = 0;
        while i < n
            invariant
                n == v@.len(),
                i <= n,
                r@ == texts(v@.subrange(0, i as int)).to_set(),
            decreases n - i,
        {
            let c = v[i].clone();
            r.insert(c);
            proof {
                assert(texts(v@.subrange(0, i + 1)) =~= texts(v@.subrange(0, i as int)).push(v@[i as int]@));
                crate::knowledge::lemma_push_to_set(texts(v@.subrange(0, i as int)), v@[i as int]@);
            }
            i = i + 1;
        }
        proof {
            assert(v@.subrange(0, n as int) =~= v@);
        }
        r
    }

}

impl Clone for StrSet {
    /// A copy of this set.
    fn clone(&self) -> (r: Self)
        ensures
            r@ == self@,
    {
        let n = self.len();
        let mut r = StrSet::new();
        let mut i: usize = 0;
        while i < n
            invariant
                n == self.elem_seq().len(),
                i <= n,
                forall|k: Seq<char>| #[trigger] self@.contains(k) <==> self.elem_seq().contains(k),
                r@ == self.elem_seq().take(i as int).to_set(),
            decreases n - i,
        {
            let c = self.elem_at(i).clone();
            r.insert(c);
            proof {
                assert(self.elem_seq().take(i + 1) =~= self.elem_seq().take(i as int).push(self.elem_seq()[i as int]));
                crate::knowledge::lemma_push_to_set(self.elem_seq().take(i as int), self.elem_seq()[i as int]);
            }
            i = i + 1;
        }
        proof {
            assert(self.elem_seq().take(n as int) =~= self.elem_seq());
            assert(r@ =~= self@);
        }
        r
    }
}

} // verus!
