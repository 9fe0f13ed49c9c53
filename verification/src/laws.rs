//! Laws of the library: properties that relate its operations or hold of
//! every state they produce.

use vstd::prelude::*;
use crate::keys::{key_lt, lemma_key_order};
use crate::knowledge::{ItemView, redundant, bucket_of};
use crate::diagram::{accumulate, all_ids, knowledge_maps, redundant_ids, without_redundancy, sunset_state_of, colimit_state};
use crate::agent::{AgentView, LifecyclePhase, monotone, preserved_count, transition_between, domain_set, signature_of};
use crate::generation::{GenealogyEntry, ancestry, is_ancestry_path, generation_domains};
use crate::kintsugi::{repaired_knowledge, repaired_state, lost_ids, damage_steps};
use crate::spawn::{child_knowledge, spawned_child};
use crate::conservation::counts_non_decreasing;
use crate::plato::{work_state, lemma_absorb_keeps};
use crate::plato::chain_monotone;

verus! {

/// Accumulating a chain of knowledge maps loses no id: the accumulated map
/// holds exactly the ids of the maps, each with the item of the first map
/// that holds it.
pub proof fn law_accumulate_keeps_every_id(ms: Seq<Map<Seq<char>, ItemView>>)
    ensures
        accumulate(ms).dom() == all_ids(ms),
        forall|i: int, k: Seq<char>|
            0 <= i < ms.len() && #[trigger] ms[i].dom().contains(k) && (forall|j: int| 0 <= j < i ==> !(#[trigger] ms[j]).dom().contains(k))
                ==> accumulate(ms)[k] == ms[i][k],
    decreases ms.len(),
{
    if ms.len() > 0 {
        let prev = ms.drop_last();
        law_accumulate_keeps_every_id(prev);
        assert forall|k: Seq<char>| #[trigger] accumulate(ms).dom().contains(k) == all_ids(ms).contains(k) by {
            if all_ids(ms).contains(k) {
                let i = choose|i: int| 0 <= i < ms.len() && #[trigger] ms[i].dom().contains(k);
                if i < ms.len() - 1 {
                    assert(prev[i] == ms[i]);
                    assert(all_ids(prev).contains(k));
                }
            }
            if all_ids(prev).contains(k) {
                let i = choose|i: int| 0 <= i < prev.len() && #[trigger] prev[i].dom().contains(k);
                assert(ms[i] == prev[i]);
            }
        }
        assert(accumulate(ms).dom() =~= all_ids(ms));
        assert forall|i: int, k: Seq<char>|
            0 <= i < ms.len() && #[trigger] ms[i].dom().contains(k) && (forall|j: int| 0 <= j < i ==> !(#[trigger] ms[j]).dom().contains(k))
                implies accumulate(ms)[k] == ms[i][k] by {
            if i < ms.len() - 1 {
                assert(prev[i] == ms[i]);
                assert forall|j: int| 0 <= j < i implies !(#[trigger] prev[j]).dom().contains(k) by {
                    assert(prev[j] == ms[j]);
                }
                assert(accumulate(prev)[k] == prev[i][k]);
                assert(all_ids(prev).contains(k));
            } else {
                assert(!all_ids(prev).contains(k)) by {
                    if all_ids(prev).contains(k) {
                        let j = choose|j: int| 0 <= j < prev.len() && #[trigger] prev[j].dom().contains(k);
                        assert(ms[j] == prev[j]);
                    }
                }
            }
        }
    } else {
        assert(all_ids(ms) =~= Set::<Seq<char>>::empty());
    }
}

/// In a knowledge-monotone chain, the ids of all states are those of the last
/// state: the colimit of the chain is reached at its end.
pub proof fn law_monotone_chain_ids(states: Seq<AgentView>)
    requires
        states.len() > 0,
        chain_monotone(states),
    ensures
        all_ids(knowledge_maps(states)) == states.last().knowledge.dom(),
{
    let ms = knowledge_maps(states);
    assert forall|i: int| 0 <= i < states.len() implies #[trigger] states[i].knowledge.dom().subset_of(states.last().knowledge.dom()) by {
        lemma_chain_subset(states, i);
    }
    assert forall|k: Seq<char>| #[trigger] all_ids(ms).contains(k) == states.last().knowledge.dom().contains(k) by {
        if all_ids(ms).contains(k) {
            let i = choose|i: int| 0 <= i < ms.len() && #[trigger] ms[i].dom().contains(k);
            assert(states[i].knowledge.dom().subset_of(states.last().knowledge.dom()));
        }
        if states.last().knowledge.dom().contains(k) {
            assert(ms[states.len() - 1].dom().contains(k));
        }
    }
    assert(all_ids(ms) =~= states.last().knowledge.dom());
}

/// Each state of a monotone chain keeps its ids up to the last state.
proof fn lemma_chain_subset(states: Seq<AgentView>, i: int)
    requires
        0 <= i < states.len(),
        chain_monotone(states),
    ensures
        states[i].knowledge.dom().subset_of(states.last().knowledge.dom()),
    decreases states.len() - i,
{
    if i < states.len() - 1 {
        lemma_chain_subset(states, i + 1);
        assert(monotone(states[i], states[i + 1]));
    }
}

/// Removing redundancy leaves nothing redundant: deduplicating twice removes
/// nothing the second time.
pub proof fn law_deduplicate_idempotent(m: Map<Seq<char>, ItemView>)
    ensures
        redundant_ids(without_redundancy(m)) == Set::<Seq<char>>::empty(),
        without_redundancy(without_redundancy(m)) == without_redundancy(m),
{
    let w = without_redundancy(m);
    assert forall|k: Seq<char>| !(#[trigger] redundant_ids(w).contains(k)) by {
        if redundant_ids(w).contains(k) {
            let k2 = choose|k2: Seq<char>| #![trigger w.dom().contains(k2)] w.dom().contains(k2) && key_lt(k2, k) && w[k2].domain == w[k].domain && w[k2].content == w[k].content;
            assert(m.dom().contains(k2));
            assert(redundant(m, k));
        }
    }
    assert(redundant_ids(w) =~= Set::<Seq<char>>::empty());
    assert(w.remove_keys(Set::<Seq<char>>::empty()) =~= w);
}

/// Deduplication is lossless up to redundancy: every item of `m` has a kept
/// item with the same domain and content, whose id is its own or smaller.
pub proof fn law_deduplicate_keeps_a_representative(m: Map<Seq<char>, ItemView>, k: Seq<char>)
    requires
        m.dom().finite(),
        m.dom().contains(k),
    ensures
        exists|k2: Seq<char>|
            #[trigger] without_redundancy(m).dom().contains(k2) && (k2 == k || key_lt(k2, k)) && m[k2].domain
                == m[k].domain && m[k2].content == m[k].content,
    decreases earlier_twins(m, k).len(),
{
    if redundant(m, k) {
        let k2 = choose|k2: Seq<char>| #![trigger m.dom().contains(k2)] m.dom().contains(k2) && key_lt(k2, k) && m[k2].domain == m[k].domain && m[k2].content == m[k].content;
        // The twins before k2 are twins before k, without k2 itself.
        assert(earlier_twins(m, k2).subset_of(earlier_twins(m, k).remove(k2))) by {
            assert forall|x: Seq<char>| #[trigger] earlier_twins(m, k2).contains(x) implies earlier_twins(m, k).remove(k2).contains(x) by {
                lemma_key_order(x, k2, k);
                lemma_key_order(x, x, x);
            }
        }
        assert(earlier_twins(m, k).contains(k2));
        vstd::set_lib::lemma_len_subset(earlier_twins(m, k2), earlier_twins(m, k).remove(k2));
        law_deduplicate_keeps_a_representative(m, k2);
        let k3 = choose|k3: Seq<char>|
            #[trigger] without_redundancy(m).dom().contains(k3) && (k3 == k2 || key_lt(k3, k2)) && m[k3].domain
                == m[k2].domain && m[k3].content == m[k2].content;
        if k3 != k2 {
            lemma_key_order(k3, k2, k);
        }
    } else {
        assert(without_redundancy(m).dom().contains(k));
    }
}

/// The ids before `k` whose items repeat the domain and content of `k`'s.
pub open spec fn earlier_twins(m: Map<Seq<char>, ItemView>, k: Seq<char>) -> Set<Seq<char>> {
    m.dom().filter(|x: Seq<char>| key_lt(x, k) && m[x].domain == m[k].domain && m[x].content == m[k].content)
}


/// A sunset reports its knowledge preserved exactly when the gathered
/// knowledge holds no redundant item.
pub proof fn law_sunset_preserved_iff_no_redundancy(ms: Seq<Map<Seq<char>, ItemView>>)
    ensures
        all_ids(ms).subset_of(without_redundancy(accumulate(ms)).dom()) <==> redundant_ids(accumulate(ms))
            == Set::<Seq<char>>::empty(),
{
    law_accumulate_keeps_every_id(ms);
    let acc = accumulate(ms);
    if all_ids(ms).subset_of(without_redundancy(acc).dom()) {
        assert forall|k: Seq<char>| !(#[trigger] redundant_ids(acc).contains(k)) by {
            if redundant_ids(acc).contains(k) {
                assert(acc.dom().contains(k));
                assert(all_ids(ms).contains(k));
            }
        }
        assert(redundant_ids(acc) =~= Set::<Seq<char>>::empty());
    }
    if redundant_ids(acc) == Set::<Seq<char>>::empty() {
        assert forall|k: Seq<char>| all_ids(ms).contains(k) implies #[trigger] without_redundancy(acc).dom().contains(k) by {
            assert(!redundant_ids(acc).contains(k));
        }
    }
}

/// A transition is knowledge-monotone exactly when it preserves all of the
/// source's knowledge; what it adds and what it preserves make up the target.
pub proof fn law_monotone_iff_all_preserved(source: AgentView, target: AgentView, label: Seq<char>)
    requires
        source.knowledge.dom().finite(),
        target.knowledge.dom().finite(),
        target.knowledge.len() <= usize::MAX,
    ensures
        monotone(source, target) <==> preserved_count(source, target) == source.knowledge.len(),
        transition_between(source, target, label).knowledge_added + transition_between(source, target, label).knowledge_preserved
            == target.knowledge.len(),
{
    let s = source.knowledge.dom();
    let t = target.knowledge.dom();
    vstd::set_lib::lemma_len_subset(s.intersect(t), s);
    vstd::set_lib::lemma_len_subset(s.intersect(t), t);
    if monotone(source, target) {
        assert(s.intersect(t) =~= s);
    }
    if preserved_count(source, target) == source.knowledge.len() {
        vstd::set_lib::lemma_subset_equality(s.intersect(t), s);
    }
}

/// Merging `other` into `m` gives the ids of both, keeps the items `m` had,
/// and merging the same set again adds nothing.
pub proof fn law_merge_union(m: Map<Seq<char>, ItemView>, other: Map<Seq<char>, ItemView>)
    ensures
        other.union_prefer_right(m).dom() == m.dom().union(other.dom()),
        forall|k: Seq<char>| #[trigger] m.dom().contains(k) ==> other.union_prefer_right(m)[k] == m[k],
        other.dom().difference(other.union_prefer_right(m).dom()) == Set::<Seq<char>>::empty(),
        other.union_prefer_right(other.union_prefer_right(m)) == other.union_prefer_right(m),
{
    assert(other.union_prefer_right(m).dom() =~= m.dom().union(other.dom()));
    assert(other.dom().difference(other.union_prefer_right(m).dom()) =~= Set::<Seq<char>>::empty());
    assert(other.union_prefer_right(other.union_prefer_right(m)) =~= other.union_prefer_right(m));
}

/// Every agent is among its own lineage.
pub proof fn law_descendant_reflexive(m: Map<Seq<char>, GenealogyEntry>, a: Seq<char>)
    ensures
        ancestry(m, a).contains(a),
{
    assert(is_ancestry_path(m, seq![a], a));
    assert(seq![a].last() == a);
}

/// Descent is transitive: an ancestor of an ancestor is an ancestor.
pub proof fn law_descendant_transitive(m: Map<Seq<char>, GenealogyEntry>, a: Seq<char>, b: Seq<char>, c: Seq<char>)
    requires
        ancestry(m, a).contains(b),
        ancestry(m, b).contains(c),
    ensures
        ancestry(m, a).contains(c),
{
    let p = choose|p: Seq<Seq<char>>| #[trigger] is_ancestry_path(m, p, a) && p.last() == b;
    let q = choose|q: Seq<Seq<char>>| #[trigger] is_ancestry_path(m, q, b) && q.last() == c;
    let r = p + q.drop_first();
    assert(is_ancestry_path(m, r, a)) by {
        assert forall|i: int| 0 <= i < r.len() - 1 implies crate::generation::recorded_parents(m, #[trigger] r[i]).contains(r[i + 1]) by {
            if i < p.len() - 1 {
                assert(r[i] == p[i]);
                assert(r[i + 1] == p[i + 1]);
            } else if i == p.len() - 1 {
                assert(r[i] == b);
                assert(q[0] == b);
                assert(r[i + 1] == q[1]);
            } else {
                let j = i - p.len() + 1;
                assert(r[i] == q[j]);
                assert(r[i + 1] == q[j + 1]);
            }
        }
    }
    if q.len() == 1 {
        assert(r =~= p);
    } else {
        assert(r.last() == q.last());
    }
}

/// Golden repair with a patch holding exactly the lost items restores the
/// original knowledge.
pub proof fn law_repair_restores(original: Map<Seq<char>, ItemView>, lost: Set<Seq<char>>)
    ensures
        repaired_knowledge(original, lost, original.restrict(lost)) == original,
{
    assert(repaired_knowledge(original, lost, original.restrict(lost)) =~= original);
}

/// Breaking loses only ids the state holds, no more of them than the damage
/// count, and none at all with no damage.
pub proof fn law_break_bounds(m: Map<Seq<char>, ItemView>, count: usize, seed: u64)
    requires
        m.dom().finite(),
        crate::knowledge::keyed_by_id(m),
    ensures
        lost_ids(m, 0, seed) == Set::<Seq<char>>::empty(),
        lost_ids(m, count, seed).subset_of(m.dom()),
{
    assert(lost_ids(m, 0, seed) =~= Set::<Seq<char>>::empty());
    assert forall|id: Seq<char>| #[trigger] lost_ids(m, count, seed).contains(id) implies m.dom().contains(id) by {
        let k = choose|k: nat| k < damage_steps(count, m.len()) && #[trigger] crate::knowledge::ordered_items(m)[crate::kintsugi::damage_pick(seed, k, m.len())].id == id;
        crate::knowledge::lemma_enumeration_exists(m);
        let s = crate::knowledge::ordered_items(m);
        let j = crate::kintsugi::damage_pick(seed, k, m.len());
        assert(0 <= j < m.len());
        assert(s[j].id == id);
    }
}


/// The child of a spawn holds the interface ids of the first parent and the
/// ids held by exactly one parent; every id it holds comes from a parent, and
/// an item it holds is the parent's item apart from its provenance.
pub proof fn law_spawn_inherits(p1: AgentView, p2: AgentView, iface: Set<Seq<char>>)
    ensures
        child_knowledge(p1, p2, iface).dom() == iface.intersect(p1.knowledge.dom()).union(
            p1.knowledge.dom().difference(p2.knowledge.dom()),
        ).union(p2.knowledge.dom().difference(p1.knowledge.dom())),
        forall|k: Seq<char>| #[trigger] child_knowledge(p1, p2, iface).dom().contains(k) && p1.knowledge.dom().contains(k)
            ==> child_knowledge(p1, p2, iface)[k].content == p1.knowledge[k].content && child_knowledge(p1, p2, iface)[k].domain == p1.knowledge[k].domain,
        forall|k: Seq<char>| #[trigger] child_knowledge(p1, p2, iface).dom().contains(k) && !p1.knowledge.dom().contains(k)
            ==> child_knowledge(p1, p2, iface)[k].content == p2.knowledge[k].content && child_knowledge(p1, p2, iface)[k].domain == p2.knowledge[k].domain,
{
    assert(child_knowledge(p1, p2, iface).dom() =~= iface.intersect(p1.knowledge.dom()).union(
        p1.knowledge.dom().difference(p2.knowledge.dom()),
    ).union(p2.knowledge.dom().difference(p1.knowledge.dom())));
}

/// A work tick conserves: the knowledge count and the number of domains do
/// not drop from the current state to the new one.
pub proof fn law_work_conserves(
    agent_id: Seq<char>,
    index: nat,
    current: AgentView,
    new_items: Seq<ItemView>,
    generation: u64,
    feature_dim: usize,
)
    requires
        current.knowledge.dom().finite(),
    ensures
        current.knowledge.len() <= work_state(agent_id, index, current, new_items, generation, feature_dim).knowledge.len(),
        domain_set(current.knowledge).subset_of(domain_set(work_state(agent_id, index, current, new_items, generation, feature_dim).knowledge)),
        monotone(current, work_state(agent_id, index, current, new_items, generation, feature_dim)),
{
    let next = work_state(agent_id, index, current, new_items, generation, feature_dim);
    lemma_absorb_keeps(current.knowledge, new_items);
    lemma_absorb_finite(current.knowledge, new_items);
    vstd::set_lib::lemma_len_subset(current.knowledge.dom(), next.knowledge.dom());
    assert forall|d: Seq<char>| #[trigger] domain_set(current.knowledge).contains(d) implies domain_set(next.knowledge).contains(d) by {
        let k = choose|k: Seq<char>| #[trigger] current.knowledge.dom().contains(k) && current.knowledge[k].domain == d;
        assert(next.knowledge.dom().contains(k));
    }
}

/// Absorbing finitely many items into a finite map keeps it finite.
pub proof fn lemma_absorb_finite(m: Map<Seq<char>, ItemView>, s: Seq<ItemView>)
    requires
        m.dom().finite(),
    ensures
        crate::knowledge::absorb(m, s).dom().finite(),
    decreases s.len(),
{
    if s.len() > 0 {
        lemma_absorb_finite(m, s.drop_last());
    }
}


/// The knowledge after a sunset and the redundancy it removed add up to the
/// knowledge gathered.
pub proof fn law_sunset_counts(m: Map<Seq<char>, ItemView>)
    requires
        m.dom().finite(),
    ensures
        without_redundancy(m).len() + redundant_ids(m).len() == m.len(),
{
    let r = redundant_ids(m);
    assert(without_redundancy(m).dom() =~= m.dom().difference(r));
    assert(r.subset_of(m.dom()));
    vstd::set_lib::lemma_len_subset(r, m.dom());
    vstd::set_lib::lemma_len_difference(m.dom(), r);
    assert(m.dom().difference(r).len() + m.dom().intersect(r).len() == m.dom().len()) by {
        vstd::set_lib::lemma_set_intersect_union_lens(m.dom(), r);
        assert(m.dom().intersect(r) =~= r);
        assert(m.dom().union(r) =~= m.dom());
        vstd::set_lib::lemma_set_difference_len(m.dom(), r);
    }
    assert(m.dom().intersect(r) =~= r);
}

/// The sunset of a knowledge-monotone chain gathers exactly the ids of its
/// last state.
pub proof fn law_monotone_sunset_ids(states: Seq<AgentView>)
    requires
        states.len() > 0,
        chain_monotone(states),
    ensures
        accumulate(knowledge_maps(states)).dom() == states.last().knowledge.dom(),
{
    law_accumulate_keeps_every_id(knowledge_maps(states));
    law_monotone_chain_ids(states);
}


/// The number of ids of `keys` that fall in the buckets below `upto`, bucket
/// by bucket.
pub open spec fn bucket_total(keys: Set<Seq<char>>, dimension: usize, upto: int) -> nat
    decreases upto,
{
    if upto <= 0 {
        0
    } else {
        bucket_total(keys, dimension, upto - 1) + keys.filter(
            |k: Seq<char>| bucket_of(k, dimension) == upto - 1,
        ).len()
    }
}

/// The buckets below `upto` together count the ids hashed below `upto`.
proof fn lemma_bucket_total(keys: Set<Seq<char>>, dimension: usize, upto: int)
    requires
        keys.finite(),
        upto >= 0,
    ensures
        bucket_total(keys, dimension, upto) == keys.filter(|k: Seq<char>| bucket_of(k, dimension) < upto).len(),
    decreases upto,
{
    if upto == 0 {
        assert(keys.filter(|k: Seq<char>| bucket_of(k, dimension) < upto) =~= Set::<Seq<char>>::empty());
    } else {
        lemma_bucket_total(keys, dimension, upto - 1);
        let below = keys.filter(|k: Seq<char>| bucket_of(k, dimension) < upto - 1);
        let at = keys.filter(|k: Seq<char>| bucket_of(k, dimension) == upto - 1);
        assert(below.disjoint(at));
        assert(below + at =~= keys.filter(|k: Seq<char>| bucket_of(k, dimension) < upto));
        vstd::set_lib::lemma_set_disjoint_lens(below, at);
    }
}

/// The feature buckets partition the items: the counts over all buckets add
/// up to the number of items.
pub proof fn law_feature_counts_partition(keys: Set<Seq<char>>, dimension: usize)
    requires
        keys.finite(),
        dimension > 0,
    ensures
        bucket_total(keys, dimension, dimension as int) == keys.len(),
{
    lemma_bucket_total(keys, dimension, dimension as int);
    assert forall|k: Seq<char>| keys.contains(k) implies bucket_of(k, dimension) < dimension by {
        assert(((crate::knowledge::text_hash(k) as usize) % dimension) < dimension);
    }
    assert(keys.filter(|k: Seq<char>| bucket_of(k, dimension) < dimension) =~= keys);
}


/// Accumulating finitely many finite knowledge maps gives a finite map.
proof fn lemma_accumulate_finite(ms: Seq<Map<Seq<char>, ItemView>>)
    requires
        forall|i: int| 0 <= i < ms.len() ==> (#[trigger] ms[i]).dom().finite(),
    ensures
        accumulate(ms).dom().finite(),
    decreases ms.len(),
{
    if ms.len() > 0 {
        let prev = ms.drop_last();
        assert forall|i: int| 0 <= i < prev.len() implies (#[trigger] prev[i]).dom().finite() by {
            assert(prev[i] == ms[i]);
        }
        lemma_accumulate_finite(prev);
        assert(ms.last().dom().finite());
        assert(accumulate(ms).dom() =~= ms.last().dom().union(accumulate(prev).dom()));
    }
}

/// The sunset gathers the knowledge of every state of the diagram, not only
/// of the last: each id it keeps comes from the first state holding it, with
/// that state's item; each item of every state is kept under its own id or is
/// represented by a kept item with a smaller id and the same domain and
/// content; where no two ids of the diagram share a domain and content, every
/// id of every state is kept. The colimit of the chain holds the same
/// knowledge.
pub proof fn law_sunset_gathers_all_states(states: Seq<AgentView>)
    requires
        states.len() > 0,
        forall|i: int| 0 <= i < states.len() ==> (#[trigger] states[i]).knowledge.dom().finite(),
    ensures
        forall|k: Seq<char>| #[trigger] sunset_state_of(states).knowledge.dom().contains(k) ==> exists|i: int|
            0 <= i < states.len() && (#[trigger] states[i]).knowledge.dom().contains(k)
                && sunset_state_of(states).knowledge[k] == states[i].knowledge[k]
                && forall|j: int| 0 <= j < i ==> !(#[trigger] states[j]).knowledge.dom().contains(k),
        forall|i: int, k: Seq<char>|
            0 <= i < states.len() && #[trigger] states[i].knowledge.dom().contains(k)
                && (forall|j: int| 0 <= j < i ==> !(#[trigger] states[j]).knowledge.dom().contains(k))
                ==> exists|k2: Seq<char>|
                #[trigger] sunset_state_of(states).knowledge.dom().contains(k2) && (k2 == k || key_lt(k2, k))
                    && sunset_state_of(states).knowledge[k2].domain == states[i].knowledge[k].domain
                    && sunset_state_of(states).knowledge[k2].content == states[i].knowledge[k].content,
        (forall|i: int, j: int, k1: Seq<char>, k2: Seq<char>|
            0 <= i < states.len() && 0 <= j < states.len() && #[trigger] states[i].knowledge.dom().contains(k1)
                && #[trigger] states[j].knowledge.dom().contains(k2) && k1 != k2
                ==> !(states[i].knowledge[k1].domain == states[j].knowledge[k2].domain
                && states[i].knowledge[k1].content == states[j].knowledge[k2].content))
            ==> forall|i: int, k: Seq<char>|
            0 <= i < states.len() && #[trigger] states[i].knowledge.dom().contains(k)
                ==> sunset_state_of(states).knowledge.dom().contains(k),
        colimit_state(states.last(), without_redundancy(accumulate(knowledge_maps(states)))).knowledge
            == sunset_state_of(states).knowledge,
{
    let ms = knowledge_maps(states);
    let acc = accumulate(ms);
    let sk = sunset_state_of(states).knowledge;
    assert(sk == without_redundancy(acc));
    law_accumulate_keeps_every_id(ms);
    assert forall|i: int| 0 <= i < ms.len() implies (#[trigger] ms[i]).dom().finite() by {
        assert(ms[i] == states[i].knowledge);
    }
    lemma_accumulate_finite(ms);
    // Every kept id comes from its first holder.
    assert forall|k: Seq<char>| #[trigger] sk.dom().contains(k) implies exists|i: int|
        0 <= i < states.len() && (#[trigger] states[i]).knowledge.dom().contains(k)
            && sk[k] == states[i].knowledge[k]
            && forall|j: int| 0 <= j < i ==> !(#[trigger] states[j]).knowledge.dom().contains(k) by {
        assert(acc.dom().contains(k));
        assert(all_ids(ms).contains(k));
        let i0 = choose|i: int| 0 <= i < ms.len() && #[trigger] ms[i].dom().contains(k);
        lemma_first_holder(ms, k, i0);
        let i = choose|i: int| 0 <= i <= i0 && #[trigger] ms[i].dom().contains(k)
            && forall|j: int| 0 <= j < i ==> !(#[trigger] ms[j]).dom().contains(k);
        assert(acc[k] == ms[i][k]);
        assert(ms[i] == states[i].knowledge);
        assert forall|j: int| 0 <= j < i implies !(#[trigger] states[j]).knowledge.dom().contains(k) by {
            assert(ms[j] == states[j].knowledge);
        }
    }
    // Every item of its first holder has a kept representative.
    assert forall|i: int, k: Seq<char>|
        0 <= i < states.len() && #[trigger] states[i].knowledge.dom().contains(k)
            && (forall|j: int| 0 <= j < i ==> !(#[trigger] states[j]).knowledge.dom().contains(k))
        implies exists|k2: Seq<char>|
            #[trigger] sk.dom().contains(k2) && (k2 == k || key_lt(k2, k))
                && sk[k2].domain == states[i].knowledge[k].domain
                && sk[k2].content == states[i].knowledge[k].content by {
        assert(ms[i] == states[i].knowledge);
        assert forall|j: int| 0 <= j < i implies !(#[trigger] ms[j]).dom().contains(k) by {
            assert(ms[j] == states[j].knowledge);
        }
        assert(acc[k] == ms[i][k]);
        assert(all_ids(ms).contains(k));
        law_deduplicate_keeps_a_representative(acc, k);
        let k2 = choose|k2: Seq<char>|
            #[trigger] without_redundancy(acc).dom().contains(k2) && (k2 == k || key_lt(k2, k)) && acc[k2].domain
                == acc[k].domain && acc[k2].content == acc[k].content;
        assert(sk[k2] == acc[k2]);
    }
    // Without shared domain and content, nothing is redundant.
    if forall|i: int, j: int, k1: Seq<char>, k2: Seq<char>|
        0 <= i < states.len() && 0 <= j < states.len() && #[trigger] states[i].knowledge.dom().contains(k1)
            && #[trigger] states[j].knowledge.dom().contains(k2) && k1 != k2
            ==> !(states[i].knowledge[k1].domain == states[j].knowledge[k2].domain
            && states[i].knowledge[k1].content == states[j].knowledge[k2].content) {
        assert forall|i: int, k: Seq<char>|
            0 <= i < states.len() && #[trigger] states[i].knowledge.dom().contains(k)
            implies sk.dom().contains(k) by {
            assert(ms[i] == states[i].knowledge);
            assert(all_ids(ms).contains(k));
            assert(acc.dom().contains(k));
            if redundant(acc, k) {
                let k2 = choose|k2: Seq<char>| #![trigger acc.dom().contains(k2)] acc.dom().contains(k2) && key_lt(k2, k)
                    && acc[k2].domain == acc[k].domain && acc[k2].content == acc[k].content;
                lemma_key_order(k, k, k);
                assert(k2 != k);
                // The items under k and k2 are those of their first holders.
                assert(all_ids(ms).contains(k2));
                let a = choose|a: int| 0 <= a < ms.len() && #[trigger] ms[a].dom().contains(k);
                lemma_first_holder(ms, k, a);
                let ia = choose|ia: int| 0 <= ia <= a && #[trigger] ms[ia].dom().contains(k)
                    && forall|j: int| 0 <= j < ia ==> !(#[trigger] ms[j]).dom().contains(k);
                let b = choose|b: int| 0 <= b < ms.len() && #[trigger] ms[b].dom().contains(k2);
                lemma_first_holder(ms, k2, b);
                let ib = choose|ib: int| 0 <= ib <= b && #[trigger] ms[ib].dom().contains(k2)
                    && forall|j: int| 0 <= j < ib ==> !(#[trigger] ms[j]).dom().contains(k2);
                assert(acc[k] == ms[ia][k]);
                assert(acc[k2] == ms[ib][k2]);
                assert(ms[ia] == states[ia].knowledge);
                assert(ms[ib] == states[ib].knowledge);
                assert(states[ia].knowledge.dom().contains(k));
                assert(states[ib].knowledge.dom().contains(k2));
                assert(false);
            }
        }
    }
}

/// A map of a sequence that holds `k` has a first map holding `k`.
proof fn lemma_first_holder(ms: Seq<Map<Seq<char>, ItemView>>, k: Seq<char>, i: int)
    requires
        0 <= i < ms.len(),
        ms[i].dom().contains(k),
    ensures
        exists|f: int| 0 <= f <= i && #[trigger] ms[f].dom().contains(k)
            && forall|j: int| 0 <= j < f ==> !(#[trigger] ms[j]).dom().contains(k),
    decreases i,
{
    if exists|j: int| 0 <= j < i && #[trigger] ms[j].dom().contains(k) {
        let j = choose|j: int| 0 <= j < i && #[trigger] ms[j].dom().contains(k);
        lemma_first_holder(ms, k, j);
    } else {
        assert(forall|j: int| 0 <= j < i ==> !(#[trigger] ms[j]).dom().contains(k));
    }
}


/// A spawned child belongs to the generation after the older parent: its
/// generation exceeds both parents' and is one past one of them. Its id,
/// phase, parents and knowledge ids are those of the crossover.
pub proof fn law_spawn_next_generation(p1: AgentView, p2: AgentView, iface: Set<Seq<char>>, child_id: Seq<char>)
    requires
        p1.generation < u64::MAX,
        p2.generation < u64::MAX,
    ensures
        spawned_child(p1, p2, iface, child_id).generation > p1.generation,
        spawned_child(p1, p2, iface, child_id).generation > p2.generation,
        spawned_child(p1, p2, iface, child_id).generation == p1.generation + 1
            || spawned_child(p1, p2, iface, child_id).generation == p2.generation + 1,
        spawned_child(p1, p2, iface, child_id).id == child_id,
        spawned_child(p1, p2, iface, child_id).phase == LifecyclePhase::Birth,
        spawned_child(p1, p2, iface, child_id).parent_ids == seq![p1.id, p2.id],
        spawned_child(p1, p2, iface, child_id).knowledge.dom() == iface.intersect(p1.knowledge.dom()).union(
            p1.knowledge.dom().difference(p2.knowledge.dom()),
        ).union(p2.knowledge.dom().difference(p1.knowledge.dom())),
{
    law_spawn_inherits(p1, p2, iface);
}

/// Golden repair joins in the whole patch: every id of the golden patch is
/// in the repaired knowledge, an original item that was not lost stays as it
/// was, a patch item stands wherever no such original item holds its id,
/// and nothing else is there.
pub proof fn law_repair_joins_patch(
    original_id: Seq<char>,
    lost: Set<Seq<char>>,
    original: AgentView,
    golden: Map<Seq<char>, ItemView>,
)
    ensures
        golden.dom().subset_of(repaired_state(original_id, lost, original, golden).knowledge.dom()),
        repaired_state(original_id, lost, original, golden).knowledge.dom() == original.knowledge.dom().difference(lost).union(
            golden.dom(),
        ),
        forall|k: Seq<char>| #[trigger] original.knowledge.dom().contains(k) && !lost.contains(k)
            ==> repaired_state(original_id, lost, original, golden).knowledge[k] == original.knowledge[k],
        forall|k: Seq<char>| #[trigger] golden.dom().contains(k) && !(original.knowledge.dom().contains(k) && !lost.contains(k))
            ==> repaired_state(original_id, lost, original, golden).knowledge[k] == golden[k],
        repaired_knowledge(original.knowledge, lost, golden) == repaired_state(original_id, lost, original, golden).knowledge,
{
    assert(repaired_state(original_id, lost, original, golden).knowledge.dom() =~= original.knowledge.dom().difference(lost).union(
        golden.dom()));
}

/// The adjunction check holds exactly when the repaired state keeps
/// something: an original item that was not lost, or an item of the patch.
pub proof fn law_repair_nonempty(original: Map<Seq<char>, ItemView>, lost: Set<Seq<char>>, golden: Map<Seq<char>, ItemView>)
    requires
        original.dom().finite(),
        golden.dom().finite(),
    ensures
        repaired_knowledge(original, lost, golden).len() > 0 <==> (golden.dom() != Set::<Seq<char>>::empty()
            || exists|k: Seq<char>| #[trigger] original.dom().contains(k) && !lost.contains(k)),
{
    let r = repaired_knowledge(original, lost, golden);
    assert(r.dom() =~= original.dom().difference(lost).union(golden.dom()));
    assert(r.dom().finite());
    if golden.dom() != Set::<Seq<char>>::empty() {
        let k = golden.dom().choose();
        assert(golden.dom().contains(k)) by {
            if !golden.dom().contains(k) {
                assert(golden.dom() =~= Set::<Seq<char>>::empty());
            }
        }
        assert(r.dom().contains(k));
        assert(r.dom().remove(k).len() + 1 == r.dom().len());
    } else if exists|k: Seq<char>| #[trigger] original.dom().contains(k) && !lost.contains(k) {
        let k = choose|k: Seq<char>| #[trigger] original.dom().contains(k) && !lost.contains(k);
        assert(r.dom().contains(k));
        assert(r.dom().remove(k).len() + 1 == r.dom().len());
    } else {
        assert(r.dom() =~= Set::<Seq<char>>::empty());
    }
}

/// Diversity counts every state of a generation: a domain is counted for
/// generation `g` exactly when some item of some state of generation `g` has
/// it, so adding a state of `g` never lowers the count.
pub proof fn law_diversity_counts_every_state(states: Seq<AgentView>, g: u64, s: AgentView)
    ensures
        forall|d: Seq<char>| #[trigger] generation_domains(states, g).contains(d) <==> exists|i: int, k: Seq<char>|
            0 <= i < states.len() && states[i].generation == g && #[trigger] states[i].knowledge.dom().contains(k)
                && states[i].knowledge[k].domain == d,
        generation_domains(states, g).subset_of(generation_domains(states.push(s), g)),
        s.generation == g ==> generation_domains(states.push(s), g) == generation_domains(states, g).union(domain_set(s.knowledge)),
{
    assert forall|d: Seq<char>| #[trigger] generation_domains(states, g).contains(d) <==> exists|i: int, k: Seq<char>|
        0 <= i < states.len() && states[i].generation == g && #[trigger] states[i].knowledge.dom().contains(k)
            && states[i].knowledge[k].domain == d by {
        if generation_domains(states, g).contains(d) {
            let i = choose|i: int| 0 <= i < states.len() && #[trigger] states[i].generation == g && domain_set(states[i].knowledge).contains(d);
            let k = choose|k: Seq<char>| #[trigger] states[i].knowledge.dom().contains(k) && states[i].knowledge[k].domain == d;
        }
        if exists|i: int, k: Seq<char>|
            0 <= i < states.len() && states[i].generation == g && #[trigger] states[i].knowledge.dom().contains(k)
                && states[i].knowledge[k].domain == d {
            let (i, k) = choose|i: int, k: Seq<char>|
                0 <= i < states.len() && states[i].generation == g && #[trigger] states[i].knowledge.dom().contains(k)
                    && states[i].knowledge[k].domain == d;
            assert(domain_set(states[i].knowledge).contains(d));
        }
    }
    let t = states.push(s);
    assert forall|d: Seq<char>| generation_domains(states, g).contains(d) implies #[trigger] generation_domains(t, g).contains(d) by {
        let i = choose|i: int| 0 <= i < states.len() && #[trigger] states[i].generation == g && domain_set(states[i].knowledge).contains(d);
        assert(t[i] == states[i]);
    }
    if s.generation == g {
        assert forall|d: Seq<char>| #[trigger] generation_domains(t, g).contains(d) == generation_domains(states, g).union(domain_set(s.knowledge)).contains(d) by {
            if generation_domains(t, g).contains(d) {
                let i = choose|i: int| 0 <= i < t.len() && #[trigger] t[i].generation == g && domain_set(t[i].knowledge).contains(d);
                if i < states.len() {
                    assert(t[i] == states[i]);
                }
            }
            if domain_set(s.knowledge).contains(d) {
                assert(t[states.len() as int] == s);
            }
            if generation_domains(states, g).contains(d) {
                let i = choose|i: int| 0 <= i < states.len() && #[trigger] states[i].generation == g && domain_set(states[i].knowledge).contains(d);
                assert(t[i] == states[i]);
            }
        }
        assert(generation_domains(t, g) =~= generation_domains(states, g).union(domain_set(s.knowledge)));
    }
}

/// Conservation is checked transition by transition: a diagram conserves
/// exactly when along each transition the knowledge count does not drop,
/// equal counts included, which is what `map_transition` checks.
pub proof fn law_conservation_per_transition(ss: Seq<AgentView>, n: int)
    ensures
        counts_non_decreasing(ss, n) <==> forall|i: int| 0 <= i < n ==> #[trigger] ss[i + 1].knowledge.len() >= ss[i].knowledge.len(),
{
    if counts_non_decreasing(ss, n) {
        assert forall|i: int| 0 <= i < n implies #[trigger] ss[i + 1].knowledge.len() >= ss[i].knowledge.len() by {
            assert(ss[i].knowledge.len() <= ss[i + 1].knowledge.len());
        }
    }
    if forall|i: int| 0 <= i < n ==> #[trigger] ss[i + 1].knowledge.len() >= ss[i].knowledge.len() {
        assert forall|i: int| 0 <= i < n implies #[trigger] ss[i].knowledge.len() <= ss[i + 1].knowledge.len() by {
            assert(ss[i + 1].knowledge.len() >= ss[i].knowledge.len());
        }
    }
}

/// Knowledge-monotone chains conserve: where each state keeps every id of
/// the one before (an idle tick among them), the knowledge count never drops.
pub proof fn law_monotone_chain_conserves(ss: Seq<AgentView>, n: int)
    requires
        0 <= n < ss.len(),
        forall|i: int| 0 <= i <= n ==> (#[trigger] ss[i]).knowledge.dom().finite(),
        forall|i: int| 0 <= i < n ==> monotone(#[trigger] ss[i], ss[i + 1]),
    ensures
        counts_non_decreasing(ss, n),
{
    assert forall|i: int| 0 <= i < n implies #[trigger] ss[i].knowledge.len() <= ss[i + 1].knowledge.len() by {
        assert(monotone(ss[i], ss[i + 1]));
        assert(ss[i + 1].knowledge.dom().finite());
        vstd::set_lib::lemma_len_subset(ss[i].knowledge.dom(), ss[i + 1].knowledge.dom());
    }
}

} // verus!
