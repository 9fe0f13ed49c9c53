//! Knowledge items and the knowledge sets that accumulate them by id.

use vstd::prelude::*;
use crate::keys::{key_lt, lemma_key_order, same_text, texts};
use vstd::utf8::encode_utf8;
use vstd::wrapping::u64_specs;
use crate::strmap::{StrMap, keys_increasing};

verus! {

/// The plain contents of a knowledge item.
pub struct ItemView {
    pub id: Seq<char>,
    pub content: Seq<char>,
    pub domain: Seq<char>,
    pub generation: u64,
    pub provenance: Seq<Seq<char>>,
}

/// A knowledge item with metadata for deduplication.
pub struct KnowledgeItem {
    pub id: String,
    pub content: String,
    pub domain: String,
    pub generation: u64,
    pub provenance: Vec<String>,
}

impl View for KnowledgeItem {
    type V = ItemView;

    open spec fn view(&self) -> ItemView {
        ItemView {
            id: self.id@,
            content: self.content@,
            domain: self.domain@,
            generation: self.generation,
            provenance: texts(self.provenance@),
        }
    }
}

/// Copies a list of strings.
pub fn copy_strings(v: &Vec<String>) -> (r: Vec<String>)
    ensures
        texts(r@) == texts(v@),
{
    let mut r: Vec<String> = Vec::new();
    let mut i: usize = 0;
    while i < v.len()
        invariant
            i <= v@.len(),
            r@.len() == i,
            texts(r@) == texts(v@.subrange(0, i as int)),
        decreases v@.len() - i,
    {
        let ghost before = r@;
        let c = v[i].clone();
        r.push(c);
        proof {
            assert forall|j: int| 0 <= j < i implies r@[j]@ == v@[j]@ by {
                assert(r@[j] == before[j]);
                assert(texts(before)[j] == texts(v@.subrange(0, i as int))[j]);
            }
            assert(texts(r@) =~= texts(v@.subrange(0, i + 1)));
        }
        i = i + 1;
    }
    proof {
        assert(v@.subrange(0, v@.len() as int) =~= v@);
    }
    r
}

impl KnowledgeItem {
    /// An item of generation 0 with no provenance.
    pub fn new(id: &str, content: &str, domain: &str) -> (r: Self)
        ensures
            r@ == (ItemView {
                id: id@,
                content: content@,
                domain: domain@,
                generation: 0,
                provenance: Seq::empty(),
            }),
    {
        let r = KnowledgeItem {
            id: id.to_owned(),
            content: content.to_owned(),
            domain: domain.to_owned(),
            generation: 0,
            provenance: Vec::new(),
        };
        assert(texts(r.provenance@) =~= Seq::empty());
        r
    }

    pub fn with_generation(self, gen: u64) -> (r: Self)
        ensures
            r@ == (ItemView { generation: gen, ..self@ }),
    {
        let mut s = self;
        s.generation = gen;
        s
    }

    pub fn with_provenance(self, p: Vec<String>) -> (r: Self)
        ensures
            r@ == (ItemView { provenance: texts(p@), ..self@ }),
    {
        let mut s = self;
        s.provenance = p;
        s
    }

    /// Whether this item is redundant with another: the same id, or the same
    /// content in the same domain.
    pub fn is_redundant_with(&self, other: &KnowledgeItem) -> (r: bool)
        ensures
            r == (self.id@ == other.id@ || (self.domain@ == other.domain@ && self.content@
                == other.content@)),
    {
        same_text(self.id.as_str(), other.id.as_str()) || (same_text(
            self.domain.as_str(),
            other.domain.as_str(),
        ) && same_text(self.content.as_str(), other.content.as_str()))
    }

}

impl Clone for KnowledgeItem {
    /// A copy of this item.
    fn clone(&self) -> (r: Self)
        ensures
            r@ == self@,
    {
        KnowledgeItem {
            id: self.id.clone(),
            content: self.content.clone(),
            domain: self.domain.clone(),
            generation: self.generation,
            provenance: copy_strings(&self.provenance),
        }
    }
}



/// Whether `s` lists the entries of `m` in increasing id order, each once.
pub open spec fn enumerates(s: Seq<ItemView>, m: Map<Seq<char>, ItemView>) -> bool {
    &&& s.len() == m.len()
    &&& forall|i: int, j: int| 0 <= i < j < s.len() ==> key_lt(#[trigger] s[i].id, #[trigger] s[j].id)
    &&& forall|i: int| #![trigger s[i]] 0 <= i < s.len() ==> m.dom().contains(s[i].id) && m[s[i].id] == s[i]
    &&& forall|k: Seq<char>| #[trigger] m.dom().contains(k) ==> exists|i: int| 0 <= i < s.len() && #[trigger] s[i].id == k
}

/// Two sequences that list the entries of one map in increasing id order
/// are equal.
pub proof fn lemma_enumeration_unique(s: Seq<ItemView>, t: Seq<ItemView>, m: Map<Seq<char>, ItemView>)
    requires
        enumerates(s, m),
        enumerates(t, m),
    ensures
        s == t,
{
    assert forall|i: int| 0 <= i < s.len() implies s[i] == t[i] by {
        lemma_enumeration_position(s, t, m, i);
    }
    assert(s =~= t);
}

/// In two increasing enumerations of one map, the entries at position `i`
/// have the same id.
proof fn lemma_enumeration_position(s: Seq<ItemView>, t: Seq<ItemView>, m: Map<Seq<char>, ItemView>, i: int)
    requires
        enumerates(s, m),
        enumerates(t, m),
        0 <= i < s.len(),
    ensures
        s[i] == t[i],
    decreases i,
{
    assert forall|j: int| 0 <= j < i implies s[j] == t[j] by {
        lemma_enumeration_position(s, t, m, j);
    }
    // s[i] sits in t at some position a, and t[i] in s at some position b.
    let k = s[i].id;
    assert(m.dom().contains(k));
    let a = choose|a: int| 0 <= a < t.len() && #[trigger] t[a].id == k;
    let k2 = t[i].id;
    assert(m.dom().contains(k2));
    let b = choose|b: int| 0 <= b < s.len() && #[trigger] s[b].id == k2;
    if a < i {
        assert(s[a] == t[a]);
        assert(key_lt(s[a].id, s[i].id));
        lemma_key_order(k, k, k);
    }
    if b < i {
        assert(s[b] == t[b]);
        assert(key_lt(t[b].id, t[i].id));
        lemma_key_order(k2, k2, k2);
    }
    if a > i && b > i {
        assert(key_lt(t[i].id, t[a].id));
        assert(key_lt(s[i].id, s[b].id));
        lemma_key_order(k, k2, k);
    }
    if a == i {
        assert(m[k] == s[i]);
        assert(m[k] == t[i]);
    }
    if b == i {
        assert(m[k2] == s[i]);
        assert(m[k2] == t[i]);
    }
}

/// Whether every entry of `m` sits under its own id.
pub open spec fn keyed_by_id(m: Map<Seq<char>, ItemView>) -> bool {
    forall|k: Seq<char>| #[trigger] m.dom().contains(k) ==> m[k].id == k
}

/// A finite non-empty set of keys has a largest key.
pub proof fn lemma_largest_key(ks: Set<Seq<char>>)
    requires
        ks.finite(),
        ks.len() > 0,
    ensures
        exists|top: Seq<char>| #[trigger] ks.contains(top) && forall|y: Seq<char>| #[trigger] ks.contains(y) ==> y == top || key_lt(y, top),
    decreases ks.len(),
{
    let x = ks.choose();
    assert(ks.contains(x));
    let rest = ks.remove(x);
    if rest.len() == 0 {
        assert forall|y: Seq<char>| #[trigger] ks.contains(y) implies y == x || key_lt(y, x) by {
            if y != x {
                assert(rest.contains(y));
            }
        }
    } else {
        lemma_largest_key(rest);
        let top = choose|top: Seq<char>| #[trigger] rest.contains(top) && forall|y: Seq<char>| #[trigger] rest.contains(y) ==> y == top || key_lt(y, top);
        lemma_key_order(x, top, x);
        if key_lt(top, x) {
            assert forall|y: Seq<char>| #[trigger] ks.contains(y) implies y == x || key_lt(y, x) by {
                if y != x {
                    assert(rest.contains(y));
                    lemma_key_order(y, top, x);
                }
            }
        } else {
            assert forall|y: Seq<char>| #[trigger] ks.contains(y) implies y == top || key_lt(y, top) by {
                if y != x {
                    assert(rest.contains(y));
                }
            }
        }
    }
}

/// A finite map keyed by id has an increasing enumeration of its entries.
pub proof fn lemma_enumeration_exists(m: Map<Seq<char>, ItemView>)
    requires
        m.dom().finite(),
        keyed_by_id(m),
    ensures
        enumerates(ordered_items(m), m),
    decreases m.dom().len(),
{
    if m.dom().len() == 0 {
        assert(m.dom() =~= Set::<Seq<char>>::empty());
        assert(enumerates(Seq::<ItemView>::empty(), m));
    } else {
        lemma_largest_key(m.dom());
        let top = choose|top: Seq<char>| #[trigger] m.dom().contains(top) && forall|y: Seq<char>| #[trigger] m.dom().contains(y) ==> y == top || key_lt(y, top);
        let rest = m.remove(top);
        lemma_enumeration_exists(rest);
        let s = ordered_items(rest);
        let t = s.push(m[top]);
        assert forall|i: int| 0 <= i < s.len() implies key_lt(#[trigger] s[i].id, top) by {
            assert(rest.dom().contains(s[i].id));
            assert(m.dom().contains(s[i].id));
        }
        assert(enumerates(t, m)) by {
            assert forall|i: int, j: int| 0 <= i < j < t.len() implies key_lt(#[trigger] t[i].id, #[trigger] t[j].id) by {
                if j == s.len() {
                    assert(t[i] == s[i]);
                    assert(t[j] == m[top]);
                } else {
                    assert(t[i] == s[i]);
                    assert(t[j] == s[j]);
                }
            }
            assert forall|i: int| #![trigger t[i]] 0 <= i < t.len() implies m.dom().contains(t[i].id) && m[t[i].id] == t[i] by {
                if i < s.len() {
                    assert(t[i] == s[i]);
                    assert(rest.dom().contains(s[i].id));
                }
            }
            assert forall|k: Seq<char>| #[trigger] m.dom().contains(k) implies exists|i: int| 0 <= i < t.len() && #[trigger] t[i].id == k by {
                if k == top {
                    assert(t[s.len() as int].id == k);
                } else {
                    assert(rest.dom().contains(k));
                    let i = choose|i: int| 0 <= i < s.len() && #[trigger] s[i].id == k;
                    assert(t[i] == s[i]);
                }
            }
            assert(m.dom() =~= rest.dom().insert(top));
        }
        lemma_ordered_items(t, m);
    }
}

/// The entries of `m` in increasing id order.
pub open spec fn ordered_items(m: Map<Seq<char>, ItemView>) -> Seq<ItemView> {
    choose|s: Seq<ItemView>| enumerates(s, m)
}

/// An increasing enumeration of `m` is `ordered_items(m)`.
pub proof fn lemma_ordered_items(s: Seq<ItemView>, m: Map<Seq<char>, ItemView>)
    requires
        enumerates(s, m),
    ensures
        ordered_items(m) == s,
{
    lemma_enumeration_unique(ordered_items(m), s, m);
}

/// The views of a sequence of item references.
pub open spec fn item_views(s: Seq<&KnowledgeItem>) -> Seq<ItemView> {
    s.map_values(|x: &KnowledgeItem| x@)
}

/// The ids among the first `i` items of `s`.
pub open spec fn prefix_ids(s: Seq<ItemView>, i: int) -> Set<Seq<char>> {
    Set::new(|k: Seq<char>| exists|j: int| 0 <= j < i && #[trigger] s[j].id == k)
}

/// The map after adding the items of `s` in order to `m`, each only when its
/// id is not yet present.
pub open spec fn absorb(m: Map<Seq<char>, ItemView>, s: Seq<ItemView>) -> Map<Seq<char>, ItemView>
    decreases s.len(),
{
    if s.len() == 0 {
        m
    } else {
        let prev = absorb(m, s.drop_last());
        if prev.dom().contains(s.last().id) {
            prev
        } else {
            prev.insert(s.last().id, s.last())
        }
    }
}

/// Appending an element adds it to the set of elements.
pub proof fn lemma_push_to_set<A>(s: Seq<A>, x: A)
    ensures
        s.push(x).to_set() == s.to_set().insert(x),
{
    assert forall|k: A| #[trigger] s.push(x).to_set().contains(k) == s.to_set().insert(x).contains(k) by {
        if s.to_set().contains(k) {
            let j = choose|j: int| 0 <= j < s.len() && s[j] == k;
            assert(s.push(x)[j] == k);
        }
        if s.push(x).to_set().contains(k) && k != x {
            let j = choose|j: int| 0 <= j < s.push(x).len() && s.push(x)[j] == k;
            assert(s[j] == k);
        }
        assert(s.push(x)[s.len() as int] == x);
    }
    assert(s.push(x).to_set() =~= s.to_set().insert(x));
}

/// The djb2 hash of a byte string, with wrapping arithmetic:
/// h(empty) = 5381 and h(s ++ [b]) = h(s) * 33 + b.
pub open spec fn djb2(bytes: Seq<u8>) -> u64
    decreases bytes.len(),
{
    if bytes.len() == 0 {
        5381
    } else {
        u64_specs::wrapping_add(
            u64_specs::wrapping_mul(djb2(bytes.drop_last()), 33),
            bytes.last() as u64,
        )
    }
}

/// The hash of a string: djb2 of its UTF-8 bytes.
pub open spec fn text_hash(s: Seq<char>) -> u64 {
    djb2(encode_utf8(s))
}

/// The feature bucket of an id among `dimension` buckets.
pub open spec fn bucket_of(id: Seq<char>, dimension: usize) -> usize {
    ((text_hash(id) as usize) % dimension) as usize
}

/// Whether the item under `k` repeats the content and domain of an item with
/// an id earlier in key order.
pub open spec fn redundant(m: Map<Seq<char>, ItemView>, k: Seq<char>) -> bool {
    exists|k2: Seq<char>|
        #![trigger m.dom().contains(k2)]
        m.dom().contains(k2) && key_lt(k2, k) && m[k2].domain == m[k].domain && m[k2].content
            == m[k].content
}

/// A knowledge set that tracks unique items by id, supporting accumulation.
pub struct KnowledgeSet {
    items: StrMap<KnowledgeItem>,
}

impl View for KnowledgeSet {
    type V = Map<Seq<char>, ItemView>;

    closed spec fn view(&self) -> Map<Seq<char>, ItemView> {
        self.items@.map_values(|it: KnowledgeItem| it@)
    }
}

impl KnowledgeSet {
    /// Every entry of the set is stored under its own id.
    #[verifier::type_invariant]
    closed spec fn keyed_by_id(&self) -> bool {
        forall|k: Seq<char>| #[trigger] self.items@.dom().contains(k) ==> self.items@[k].id@ == k
    }

    pub fn new() -> (r: Self)
        ensures
            r@ == Map::<Seq<char>, ItemView>::empty(),
    {
        let r = KnowledgeSet { items: StrMap::new() };
        assert(r@ =~= Map::<Seq<char>, ItemView>::empty());
        r
    }

    pub fn contains(&self, id: &str) -> (r: bool)
        ensures
            r == self@.dom().contains(id@),
    {
        self.items.contains_key(id)
    }

    pub fn len(&self) -> (r: usize)
        ensures
            r == self@.len(),
            self@.dom().finite(),
            keyed_by_id(self@),
    {
        proof {
            use_type_invariant(self);
        }
        let n = self.items.len();
        assert(self@.dom() =~= self.items@.dom());
        n
    }

    pub fn is_empty(&self) -> (r: bool)
        ensures
            r == (self@.len() == 0),
    {
        let n = self.len();
        n == 0
    }

    /// Adds an item whose id is not yet present; an item with a known id
    /// leaves the set as it was.
    pub fn insert(&mut self, item: KnowledgeItem) -> (r: bool)
        ensures
            r == !old(self)@.dom().contains(item.id@),
            final(self)@ == (if r {
                old(self)@.insert(item.id@, item@)
            } else {
                old(self)@
            }),
    {
        proof {
            use_type_invariant(&*self);
        }
        if self.items.contains_key(item.id.as_str()) {
            return false;
        }
        let ghost old_items = self.items@;
        let k = item.id.clone();
        let ghost iv = item@;
        let ghost it = item;
        let mut m = StrMap::new();
        std::mem::swap(&mut m, &mut self.items);
        m.insert(k, item);
        proof {
            assert(m@ == old_items.insert(iv.id, it));
        }
        self.items = m;
        proof {
            assert(self@ =~= old(self)@.insert(iv.id, iv));
        }
        true
    }

    /// The set holding the given items, where of two items with one id the
    /// first is kept.
    pub fn from_items(items: Vec<KnowledgeItem>) -> (r: Self)
        ensures
            r@ == absorb(Map::empty(), items@.map_values(|x: KnowledgeItem| x@)),
    {
        let ghost vs = items@.map_values(|x: KnowledgeItem| x@);
        let mut ks = KnowledgeSet::new();
        let n = items.len();
        proof {
            assert(vs.take(0) =~= Seq::<ItemView>::empty());
        }
        let mut i: usize = 0;
        while i < n
            invariant
                n == vs.len(),
                n == items@.len(),
                vs == items@.map_values(|x: KnowledgeItem| x@),
                i <= n,
                ks@ == absorb(Map::empty(), vs.take(i as int)),
            decreases n - i,
        {
            let item = items[i].clone();
            proof {
                assert(vs.take(i + 1).drop_last() =~= vs.take(i as int));
                assert(vs.take(i + 1).last() == vs[i as int]);
            }
            ks.insert(item);
            i = i + 1;
        }
        proof {
            assert(vs.take(n as int) =~= vs);
        }
        ks
    }

    /// Adds every item of `other` whose id is not yet present, and returns how
    /// many were added.
    pub fn merge(&mut self, other: &KnowledgeSet) -> (r: usize)
        ensures
            final(self)@ == other@.union_prefer_right(old(self)@),
            r == other@.dom().difference(old(self)@.dom()).len(),
    {
        let its = other.items();
        let ghost vs = item_views(its@);
        let ghost start = self@;
        let n = its.len();
        let mut added: usize = 0;
        let ghost mut fresh: Set<Seq<char>> = Set::empty();
        let mut i: usize = 0;
        while i < n
            invariant
                n == its@.len(),
                vs == item_views(its@),
                enumerates(vs, other@),
                i <= n,
                self@ == other@.restrict(prefix_ids(vs, i as int)).union_prefer_right(start),
                fresh == prefix_ids(vs, i as int).difference(start.dom()),
                fresh.finite(),
                added == fresh.len(),
                added <= i,
            decreases n - i,
        {
            let ghost id = vs[i as int].id;
            let ghost before = self@;
            proof {
                assert(!prefix_ids(vs, i as int).contains(id)) by {
                    if prefix_ids(vs, i as int).contains(id) {
                        let j = choose|j: int| 0 <= j < i && #[trigger] vs[j].id == id;
                        lemma_key_order(id, id, id);
                        assert(key_lt(vs[j].id, vs[i as int].id));
                    }
                }
                assert(its@[i as int]@ == vs[i as int]);
            }
            let item = its[i].clone();
            if self.insert(item) {
                added = added + 1;
                proof {
                    fresh = fresh.insert(id);
                }
            }
            proof {
                assert(prefix_ids(vs, i + 1) =~= prefix_ids(vs, i as int).insert(id));
                assert(fresh =~= prefix_ids(vs, i + 1).difference(start.dom()));
                assert(other@.dom().contains(id) && other@[id] == vs[i as int]);
                assert(self@ =~= other@.restrict(prefix_ids(vs, i + 1)).union_prefer_right(start));
            }
            i = i + 1;
        }
        proof {
            assert(prefix_ids(vs, n as int) =~= other@.dom()) by {
                assert forall|k: Seq<char>| other@.dom().contains(k) implies #[trigger] prefix_ids(vs, n as int).contains(k) by {
                    let j = choose|j: int| 0 <= j < vs.len() && #[trigger] vs[j].id == k;
                }
            }
            assert(other@.restrict(other@.dom()) =~= other@);
        }
        added
    }

    /// The items of the given domain.
    pub fn domain_filter(&self, domain: &str) -> (r: KnowledgeSet)
        ensures
            r@ == self@.restrict(self@.dom().filter(|k: Seq<char>| self@[k].domain == domain@)),
    {
        let its = self.items();
        let ghost vs = item_views(its@);
        let n = its.len();
        let mut r = KnowledgeSet::new();
        let mut i: usize = 0;
        while i < n
            invariant
                n == its@.len(),
                vs == item_views(its@),
                enumerates(vs, self@),
                i <= n,
                r@ == self@.restrict(prefix_ids(vs, i as int).filter(|k: Seq<char>| self@[k].domain == domain@)),
            decreases n - i,
        {
            let ghost id = vs[i as int].id;
            proof {
                assert(its@[i as int]@ == vs[i as int]);
                assert(self@.dom().contains(id) && self@[id] == vs[i as int]);
                assert(!prefix_ids(vs, i as int).contains(id)) by {
                    if prefix_ids(vs, i as int).contains(id) {
                        let j = choose|j: int| 0 <= j < i && #[trigger] vs[j].id == id;
                        lemma_key_order(id, id, id);
                        assert(key_lt(vs[j].id, vs[i as int].id));
                    }
                }
            }
            if same_text(its[i].domain.as_str(), domain) {
                let item = its[i].clone();
                r.insert(item);
            }
            proof {
                assert(prefix_ids(vs, i + 1) =~= prefix_ids(vs, i as int).insert(id));
                assert(r@ =~= self@.restrict(prefix_ids(vs, i + 1).filter(|k: Seq<char>| self@[k].domain == domain@)));
            }
            i = i + 1;
        }
        proof {
            assert(prefix_ids(vs, n as int) =~= self@.dom()) by {
                assert forall|k: Seq<char>| self@.dom().contains(k) implies #[trigger] prefix_ids(vs, n as int).contains(k) by {
                    let j = choose|j: int| 0 <= j < vs.len() && #[trigger] vs[j].id == k;
                }
            }
        }
        r
    }

    /// The items whose ids `other` does not hold.
    pub fn unique_against(&self, other: &KnowledgeSet) -> (r: KnowledgeSet)
        ensures
            r@ == self@.remove_keys(other@.dom()),
    {
        let its = self.items();
        let ghost vs = item_views(its@);
        let n = its.len();
        let mut r = KnowledgeSet::new();
        let mut i: usize = 0;
        while i < n
            invariant
                n == its@.len(),
                vs == item_views(its@),
                enumerates(vs, self@),
                i <= n,
                r@ == self@.restrict(prefix_ids(vs, i as int).difference(other@.dom())),
            decreases n - i,
        {
            let ghost id = vs[i as int].id;
            proof {
                assert(its@[i as int]@ == vs[i as int]);
                assert(self@.dom().contains(id) && self@[id] == vs[i as int]);
                assert(!prefix_ids(vs, i as int).contains(id)) by {
                    if prefix_ids(vs, i as int).contains(id) {
                        let j = choose|j: int| 0 <= j < i && #[trigger] vs[j].id == id;
                        lemma_key_order(id, id, id);
                        assert(key_lt(vs[j].id, vs[i as int].id));
                    }
                }
            }
            if !other.contains(its[i].id.as_str()) {
                let item = its[i].clone();
                r.insert(item);
            }
            proof {
                assert(prefix_ids(vs, i + 1) =~= prefix_ids(vs, i as int).insert(id));
                assert(r@ =~= self@.restrict(prefix_ids(vs, i + 1).difference(other@.dom())));
            }
            i = i + 1;
        }
        proof {
            assert(prefix_ids(vs, n as int) =~= self@.dom()) by {
                assert forall|k: Seq<char>| self@.dom().contains(k) implies #[trigger] prefix_ids(vs, n as int).contains(k) by {
                    let j = choose|j: int| 0 <= j < vs.len() && #[trigger] vs[j].id == k;
                }
            }
            assert(r@ =~= self@.remove_keys(other@.dom()));
        }
        r
    }


    /// The djb2 hash of the UTF-8 bytes of `s`.
    pub fn simple_hash(s: &str) -> (r: u64)
        ensures
            r == text_hash(s@),
    {
        let b = s.as_bytes();
        let ghost bs = b@;
        assert(bs == encode_utf8(s@));
        let mut h: u64 = 5381;
        let mut i: usize = 0;
        assert(bs.take(0) =~= Seq::<u8>::empty());
        while i < b.len()
            invariant
                bs == b@,
                i <= bs.len(),
                h == djb2(bs.take(i as int)),
            decreases bs.len() - i,
        {
            proof {
                assert(bs.take(i + 1).drop_last() =~= bs.take(i as int));
                assert(bs.take(i + 1).last() == bs[i as int]);
            }
            h = h.wrapping_mul(33).wrapping_add(b[i] as u64);
            i = i + 1;
        }
        assert(bs.take(bs.len() as int) =~= bs);
        h
    }

    /// How many items fall in each of `dimension` buckets, an item falling in
    /// the bucket its id hashes to.
    pub fn feature_counts(&self, dimension: usize) -> (r: Vec<usize>)
        requires
            dimension > 0 || self@.len() == 0,
        ensures
            r@.len() == dimension,
            forall|b: int|
                0 <= b < dimension ==> #[trigger] r@[b] == self@.dom().filter(
                    |k: Seq<char>| bucket_of(k, dimension) == b,
                ).len(),
    {
        let its = self.items();
        let ghost vs = item_views(its@);
        let n = its.len();
        let mut counts: Vec<usize> = Vec::new();
        let mut z: usize = 0;
        while z < dimension
            invariant
                z <= dimension,
                counts@.len() == z,
                forall|b: int| 0 <= b < z ==> counts@[b] == 0,
            decreases dimension - z,
        {
            counts.push(0);
            z = z + 1;
        }
        proof {
            assert forall|b: int| 0 <= b < dimension implies #[trigger] counts@[b] == prefix_ids(vs, 0).filter(
                |k: Seq<char>| bucket_of(k, dimension) == b).len() by {
                assert(prefix_ids(vs, 0).filter(|k: Seq<char>| bucket_of(k, dimension) == b) =~= Set::empty());
            }
            assert(prefix_ids(vs, 0) =~= Set::empty());
        }
        let mut i: usize = 0;
        while i < n
            invariant
                n == its@.len(),
                vs == item_views(its@),
                enumerates(vs, self@),
                dimension > 0 || n == 0,
                i <= n,
                counts@.len() == dimension,
                prefix_ids(vs, i as int).finite(),
                forall|b: int| 0 <= b < dimension ==> #[trigger] counts@[b] <= i,
                forall|b: int|
                    0 <= b < dimension ==> #[trigger] counts@[b] == prefix_ids(vs, i as int).filter(
                        |k: Seq<char>| bucket_of(k, dimension) == b,
                    ).len(),
            decreases n - i,
        {
            let ghost id = vs[i as int].id;
            proof {
                assert(its@[i as int]@ == vs[i as int]);
                assert(!prefix_ids(vs, i as int).contains(id)) by {
                    if prefix_ids(vs, i as int).contains(id) {
                        let j = choose|j: int| 0 <= j < i && #[trigger] vs[j].id == id;
                        lemma_key_order(id, id, id);
                        assert(key_lt(vs[j].id, vs[i as int].id));
                    }
                }
                assert(prefix_ids(vs, i + 1) =~= prefix_ids(vs, i as int).insert(id));
            }
            let h = KnowledgeSet::simple_hash(its[i].id.as_str());
            let idx = (h as usize) % dimension;
            let ghost before = counts@;
            let c = counts[idx];
            counts.set(idx, c + 1);
            proof {
                assert forall|b: int| 0 <= b < dimension implies #[trigger] counts@[b] == prefix_ids(vs, i + 1).filter(
                    |k: Seq<char>| bucket_of(k, dimension) == b).len() by {
                    let f0 = prefix_ids(vs, i as int).filter(|k: Seq<char>| bucket_of(k, dimension) == b);
                    let f1 = prefix_ids(vs, i + 1).filter(|k: Seq<char>| bucket_of(k, dimension) == b);
                    if b == idx {
                        assert(f1 =~= f0.insert(id));
                    } else {
                        assert(f1 =~= f0);
                    }
                }
            }
            i = i + 1;
        }
        proof {
            assert(prefix_ids(vs, n as int) =~= self@.dom()) by {
                assert forall|k: Seq<char>| self@.dom().contains(k) implies #[trigger] prefix_ids(vs, n as int).contains(k) by {
                    let j = choose|j: int| 0 <= j < vs.len() && #[trigger] vs[j].id == k;
                }
            }
        }
        counts
    }

    /// Drops the item with id `id`, if present.
    fn remove(&mut self, id: &str)
        ensures
            final(self)@ == old(self)@.remove(id@),
    {
        proof {
            use_type_invariant(&*self);
        }
        let ghost old_items = self.items@;
        let mut m = StrMap::new();
        std::mem::swap(&mut m, &mut self.items);
        m.remove(id);
        proof {
            assert(m@ == old_items.remove(id@));
        }
        self.items = m;
        proof {
            assert(self@ =~= old(self)@.remove(id@));
        }
    }

    /// Removes every item that repeats the content and domain of an item with
    /// a smaller id, so that of each group of such items the one with the
    /// smallest id stays; returns how many were removed.
    pub fn deduplicate(&mut self) -> (r: usize)
        ensures
            final(self)@ == old(self)@.remove_keys(old(self)@.dom().filter(|k: Seq<char>| redundant(old(self)@, k))),
            r == old(self)@.dom().filter(|k: Seq<char>| redundant(old(self)@, k)).len(),
    {
        let ghost start = self@;
        let ghost gone = start.dom().filter(|k: Seq<char>| redundant(start, k));
        let mut to_remove: Vec<String> = Vec::new();
        {
            let its = self.items();
            let ghost vs = item_views(its@);
            let n = its.len();
            let mut i: usize = 0;
            while i < n
                invariant
                    n == its@.len(),
                    vs == item_views(its@),
                    enumerates(vs, start),
                    i <= n,
                    to_remove@.len() <= i,
                    keys_increasing(texts(to_remove@)),
                    forall|u: int| 0 <= u < to_remove@.len() ==> prefix_ids(vs, i as int).contains(#[trigger] texts(to_remove@)[u]),
                    texts(to_remove@).to_set() == prefix_ids(vs, i as int).filter(|k: Seq<char>| redundant(start, k)),
                decreases n - i,
            {
                let ghost id = vs[i as int].id;
                proof {
                    assert(its@[i as int]@ == vs[i as int]);
                }
                let mut dup = false;
                let mut j: usize = 0;
                while j < i
                    invariant
                        n == its@.len(),
                        vs == item_views(its@),
                        i < n,
                        j <= i,
                        its@[i as int]@ == vs[i as int],
                        dup == exists|q: int| 0 <= q < j && #[trigger] vs[q].domain == vs[i as int].domain && vs[q].content == vs[i as int].content,
                    decreases i - j,
                {
                    proof {
                        assert(its@[j as int]@ == vs[j as int]);
                    }
                    if same_text(its[j].domain.as_str(), its[i].domain.as_str()) && same_text(
                        its[j].content.as_str(),
                        its[i].content.as_str(),
                    ) {
                        dup = true;
                    }
                    proof {
                        if !dup {
                            assert forall|q: int| 0 <= q < j + 1 implies !(#[trigger] vs[q].domain == vs[i as int].domain && vs[q].content == vs[i as int].content) by {
                                if q < j {
                                } else {
                                    assert(q == j);
                                }
                            }
                        } else {
                            if exists|q: int| 0 <= q < j && #[trigger] vs[q].domain == vs[i as int].domain && vs[q].content == vs[i as int].content {
                                let q = choose|q: int| 0 <= q < j && #[trigger] vs[q].domain == vs[i as int].domain && vs[q].content == vs[i as int].content;
                                assert(0 <= q < j + 1);
                            } else {
                                assert(vs[j as int].domain == vs[i as int].domain);
                            }
                        }
                    }
                    j = j + 1;
                }
                proof {
                    assert(dup == redundant(start, id)) by {
                        if dup {
                            let q = choose|q: int| 0 <= q < i && #[trigger] vs[q].domain == vs[i as int].domain && vs[q].content == vs[i as int].content;
                            assert(start.dom().contains(vs[q].id));
                            assert(key_lt(vs[q].id, id));
                        }
                        if redundant(start, id) {
                            let k2 = choose|k2: Seq<char>| #![trigger start.dom().contains(k2)] start.dom().contains(k2) && key_lt(k2, id) && start[k2].domain == start[id].domain && start[k2].content == start[id].content;
                            let q = choose|q: int| 0 <= q < vs.len() && #[trigger] vs[q].id == k2;
                            if q >= i {
                                if q > i {
                                    assert(key_lt(vs[i as int].id, vs[q].id));
                                }
                                lemma_key_order(id, k2, id);
                            }
                            assert(vs[q].domain == vs[i as int].domain);
                        }
                    }
                    assert(!prefix_ids(vs, i as int).contains(id)) by {
                        if prefix_ids(vs, i as int).contains(id) {
                            let j = choose|j: int| 0 <= j < i && #[trigger] vs[j].id == id;
                            lemma_key_order(id, id, id);
                            assert(key_lt(vs[j].id, vs[i as int].id));
                        }
                    }
                    assert(prefix_ids(vs, i + 1) =~= prefix_ids(vs, i as int).insert(id));
                }
                let ghost before = to_remove@;
                if dup {
                    let c = its[i].id.clone();
                    to_remove.push(c);
                    proof {
                        assert(texts(to_remove@) =~= texts(before).push(id));
                        assert forall|a: int, b: int| 0 <= a < b < texts(to_remove@).len() implies key_lt(texts(to_remove@)[a], texts(to_remove@)[b]) by {
                            if b == before.len() {
                                assert(prefix_ids(vs, i as int).contains(texts(before)[a]));
                                let q = choose|q: int| 0 <= q < i && #[trigger] vs[q].id == texts(before)[a];
                                assert(key_lt(vs[q].id, vs[i as int].id));
                            }
                        }
                        lemma_push_to_set(texts(before), id);
                    }
                }
                proof {
                    assert(texts(to_remove@).to_set() =~= prefix_ids(vs, i + 1).filter(|k: Seq<char>| redundant(start, k)));
                }
                i = i + 1;
            }
            proof {
                assert(prefix_ids(vs, n as int) =~= start.dom()) by {
                    assert forall|k: Seq<char>| start.dom().contains(k) implies #[trigger] prefix_ids(vs, n as int).contains(k) by {
                        let j = choose|j: int| 0 <= j < vs.len() && #[trigger] vs[j].id == k;
                    }
                }
            }
        }
        let ghost ts = texts(to_remove@);
        proof {
            assert(ts.to_set() == gone);
            assert forall|a: int, b: int| 0 <= a < ts.len() && 0 <= b < ts.len() && a != b implies ts[a] != ts[b] by {
                if a < b {
                    lemma_key_order(ts[a], ts[b], ts[a]);
                } else {
                    lemma_key_order(ts[b], ts[a], ts[b]);
                }
            }
            assert(ts.no_duplicates());
            ts.unique_seq_to_set();
        }
        let removed = to_remove.len();
        let mut t: usize = 0;
        while t < removed
            invariant
                removed == to_remove@.len(),
                ts == texts(to_remove@),
                t <= removed,
                self@ == start.remove_keys(ts.take(t as int).to_set()),
            decreases removed - t,
        {
            proof {
                assert(ts.take(t + 1) =~= ts.take(t as int).push(ts[t as int]));
                lemma_push_to_set(ts.take(t as int), ts[t as int]);
            }
            self.remove(to_remove[t].as_str());
            proof {
                assert(self@ =~= start.remove_keys(ts.take(t + 1).to_set()));
            }
            t = t + 1;
        }
        proof {
            assert(ts.take(removed as int) =~= ts);
        }
        removed
    }

    /// The item with id `id`, if present.
    pub fn get_item(&self, id: &str) -> (r: Option<&KnowledgeItem>)
        ensures
            match r {
                Some(it) => self@.dom().contains(id@) && it@ == self@[id@] && it.id@ == id@,
                None => !self@.dom().contains(id@),
            },
    {
        proof {
            use_type_invariant(self);
        }
        self.items.get(id)
    }

    /// The items in increasing id order.
    pub fn items(&self) -> (r: Vec<&KnowledgeItem>)
        ensures
            enumerates(item_views(r@), self@),
            item_views(r@) == ordered_items(self@),
    {
        proof {
            use_type_invariant(self);
        }
        let n = self.items.len();
        let mut r: Vec<&KnowledgeItem> = Vec::new();
        let mut i: usize = 0;
        while i < n
            invariant
                n == self.items.key_seq().len(),
                n == self.items.value_seq().len(),
                i <= n,
                r@.len() == i,
                keys_increasing(self.items.key_seq()),
                forall|j: int| 0 <= j < i ==> *r@[j] == self.items.value_seq()[j],
                forall|j: int| 0 <= j < n ==> #[trigger] self.items@[self.items.key_seq()[j]]
                    == self.items.value_seq()[j],
                forall|k: Seq<char>| #[trigger]
                    self.items@.dom().contains(k) <==> self.items.key_seq().contains(k),
                forall|k: Seq<char>| #[trigger] self.items@.dom().contains(k) ==> self.items@[k].id@ == k,
            decreases n - i,
        {
            r.push(self.items.value_at(i));
            i = i + 1;
        }
        proof {
            let s = item_views(r@);
            let ks = self.items.key_seq();
            assert forall|j: int| 0 <= j < n implies #[trigger] s[j].id == ks[j] && self@.dom().contains(ks[j]) && self@[ks[j]] == s[j] by {
                assert(ks.contains(ks[j]));
                assert(self.items@.dom().contains(ks[j]));
                assert(self.items@[ks[j]] == self.items.value_seq()[j]);
                assert(*r@[j] == self.items.value_seq()[j]);
                assert(s[j] == r@[j]@);
                assert(self@[ks[j]] == self.items@[ks[j]]@);
            }
            assert forall|a: int, b: int| 0 <= a < b < s.len() implies key_lt(#[trigger] s[a].id, #[trigger] s[b].id) by {
                assert(s[a].id == ks[a]);
                assert(s[b].id == ks[b]);
            }
            assert forall|k: Seq<char>| #[trigger] self@.dom().contains(k) implies exists|j: int| 0 <= j < s.len() && #[trigger] s[j].id == k by {
                assert(self.items@.dom().contains(k));
                let j = choose|j: int| 0 <= j < ks.len() && ks[j] == k;
                assert(s[j].id == k);
            }
            assert(self@.dom() =~= self.items@.dom());
            lemma_ordered_items(s, self@);
        }
        r
    }
}

impl Clone for KnowledgeSet {
    /// A copy of this set.
    fn clone(&self) -> (r: Self)
        ensures
            r@ == self@,
    {
        let mut r = KnowledgeSet::new();
        r.merge(self);
        assert(r@ =~= self@);
        r
    }
}


impl Default for KnowledgeSet {
    fn default() -> (r: Self)
        ensures
            r@ == Map::<Seq<char>, ItemView>::empty(),
    {
        KnowledgeSet::new()
    }
}

} // verus!
