//! Spawning as a pullback: a child agent crossed over from two parents that
//! agree on a shared interface.

use vstd::prelude::*;
use crate::keys::{texts, key_lt, lemma_key_order};
use crate::knowledge::{KnowledgeSet, KnowledgeItem, ItemView, item_views, enumerates, prefix_ids};
use crate::agent::{AgentState, AgentView, LifecyclePhase};
use crate::strmap::{StrSet, keys_increasing};

verus! {

/// A shared interface that two parent agents agree on.
pub struct SharedInterface {
    pub knowledge_ids: StrSet,
    pub domain: String,
}

impl SharedInterface {
    pub fn new(domain: &str, ids: StrSet) -> (r: Self)
        ensures
            r.knowledge_ids@ == ids@,
            r.domain@ == domain@,
    {
        SharedInterface { knowledge_ids: ids, domain: domain.to_owned() }
    }

    /// The interface with no ids and an empty domain.
    pub fn empty() -> (r: Self)
        ensures
            r.knowledge_ids@ == Set::<Seq<char>>::empty(),
            r.domain@ == Seq::<char>::empty(),
    {
        SharedInterface { knowledge_ids: StrSet::new(), domain: String::new() }
    }

    pub fn len(&self) -> (r: usize)
        ensures
            r == self.knowledge_ids@.len(),
    {
        self.knowledge_ids.len()
    }

    pub fn is_empty(&self) -> (r: bool)
        ensures
            r == (self.knowledge_ids@.len() == 0),
    {
        self.knowledge_ids.is_empty()
    }

}

impl Clone for SharedInterface {
    /// A copy of this interface.
    fn clone(&self) -> (r: Self)
        ensures
            r.knowledge_ids@ == self.knowledge_ids@,
            r.domain@ == self.domain@,
    {
        SharedInterface { knowledge_ids: self.knowledge_ids.clone(), domain: self.domain.clone() }
    }
}

/// The knowledge of a spawned child. It holds the interface ids that the
/// first parent has, with both parents as provenance, and the ids that only
/// one parent has, with that parent as provenance. Ids that both parents
/// hold outside the interface are not inherited.
pub open spec fn child_knowledge(p1: AgentView, p2: AgentView, iface: Set<Seq<char>>) -> Map<Seq<char>, ItemView> {
    Map::new(
        |k: Seq<char>|
            (iface.contains(k) && p1.knowledge.dom().contains(k)) || (p1.knowledge.dom().contains(k)
                && !p2.knowledge.dom().contains(k)) || (p2.knowledge.dom().contains(k)
                && !p1.knowledge.dom().contains(k)),
        |k: Seq<char>|
            if p1.knowledge.dom().contains(k) {
                ItemView {
                    provenance: if iface.contains(k) {
                        seq![p1.id, p2.id]
                    } else {
                        seq![p1.id]
                    },
                    ..p1.knowledge[k]
                }
            } else {
                ItemView { provenance: seq![p2.id], ..p2.knowledge[k] }
            },
    )
}

/// The larger of two generations.
pub open spec fn max_generation(a: u64, b: u64) -> u64 {
    if a >= b { a } else { b }
}

/// The child that `spawn` builds.
pub open spec fn spawned_child(p1: AgentView, p2: AgentView, iface: Set<Seq<char>>, child_id: Seq<char>) -> AgentView {
    AgentView {
        id: child_id,
        phase: LifecyclePhase::Birth,
        knowledge: child_knowledge(p1, p2, iface),
        generation: (max_generation(p1.generation, p2.generation) + 1) as u64,
        parent_ids: seq![p1.id, p2.id],
        tick: 0,
        feature_dim: p1.feature_dim,
    }
}

/// The result of a spawn.
pub struct SpawnResult {
    pub child: AgentState,
    pub shared_interface: SharedInterface,
    pub parent1_unique: usize,
    pub parent2_unique: usize,
    pub inherited_from_p1: usize,
    pub inherited_from_p2: usize,
    pub crossover_count: usize,
}

/// A copy of `item` with the given provenance.
fn with_parents_provenance(item: &KnowledgeItem, first: &String, second: Option<&String>) -> (r: KnowledgeItem)
    ensures
        r@ == (ItemView {
            provenance: match second {
                Some(s) => seq![first@, s@],
                None => seq![first@],
            },
            ..item@
        }),
{
    let mut pv: Vec<String> = Vec::new();
    pv.push(first.clone());
    match second {
        Some(s) => {
            pv.push(s.clone());
            assert(texts(pv@) =~= seq![first@, s@]);
        },
        None => {
            assert(texts(pv@) =~= seq![first@]);
        },
    }
    item.clone().with_provenance(pv)
}

/// Computes the spawn (pullback) of two parents over a shared interface: the
/// crossover child of generation one past the older parent.
pub fn spawn(parent1: &AgentState, parent2: &AgentState, interface: &SharedInterface, child_id: &str) -> (r: SpawnResult)
    requires
        max_generation(parent1.generation, parent2.generation) < u64::MAX,
    ensures
        r.child@ == spawned_child(parent1@, parent2@, interface.knowledge_ids@, child_id@),
        r.shared_interface.knowledge_ids@ == interface.knowledge_ids@,
        r.shared_interface.domain@ == interface.domain@,
        r.crossover_count == interface.knowledge_ids@.intersect(parent1.knowledge@.dom()).len(),
        r.parent1_unique == parent1.knowledge@.dom().difference(parent2.knowledge@.dom()).len(),
        r.parent2_unique == parent2.knowledge@.dom().difference(parent1.knowledge@.dom()).len(),
        r.inherited_from_p1 == r.parent1_unique,
        r.inherited_from_p2 == r.parent2_unique,
{
    let ghost m1 = parent1.knowledge@;
    let ghost m2 = parent2.knowledge@;
    let ghost iface = interface.knowledge_ids@;
    let ghost p1v = parent1@;
    let ghost p2v = parent2@;
    let ghost target = child_knowledge(p1v, p2v, iface);
    let mut child = KnowledgeSet::new();

    // The shared interface, in key order.
    let ids = &interface.knowledge_ids;
    let ni = ids.len();
    let ghost es = ids.elem_seq();
    let mut crossover: usize = 0;
    let ghost mut crossed: Set<Seq<char>> = Set::empty();
    let mut t: usize = 0;
    while t < ni
        invariant
            ni == es.len(),
            es == ids.elem_seq(),
            keys_increasing(es),
            forall|k: Seq<char>| #[trigger] iface.contains(k) <==> es.contains(k),
            iface == interface.knowledge_ids@,
            m1 == parent1.knowledge@,
            p1v == parent1@,
            p2v == parent2@,
            target == child_knowledge(p1v, p2v, iface),
            t <= ni,
            crossed == es.take(t as int).to_set().intersect(m1.dom()),
            crossed.finite(),
            crossover == crossed.len(),
            crossover <= t,
            child@ == target.restrict(crossed),
        decreases ni - t,
    {
        let id = ids.elem_at(t);
        let ghost k = id@;
        proof {
            assert(es.take(t + 1) =~= es.take(t as int).push(k));
            crate::knowledge::lemma_push_to_set(es.take(t as int), k);
            assert(!es.take(t as int).to_set().contains(k)) by {
                if es.take(t as int).to_set().contains(k) {
                    let j = choose|j: int| 0 <= j < t && es.take(t as int)[j] == k;
                    assert(es[j] == k);
                    lemma_key_order(k, k, k);
                }
            }
            assert(iface.contains(k)) by {
                assert(es.contains(k));
            }
        }
        match parent1.knowledge.get_item(id.as_str()) {
            Some(item) => {
                let crossed_item = with_parents_provenance(item, &parent1.id, Some(&parent2.id));
                child.insert(crossed_item);
                crossover = crossover + 1;
                proof {
                    crossed = crossed.insert(k);
                    assert(child@ =~= target.restrict(crossed));
                }
            },
            None => {},
        }
        proof {
            assert(crossed =~= es.take(t + 1).to_set().intersect(m1.dom()));
        }
        t = t + 1;
    }
    proof {
        assert(es.take(ni as int) =~= es);
        assert(es.to_set() =~= iface);
        assert(crossed =~= iface.intersect(m1.dom()));
    }

    let p1_unique = parent1.knowledge.unique_against(&parent2.knowledge);
    let p2_unique = parent2.knowledge.unique_against(&parent1.knowledge);

    let u1 = p1_unique.items();
    let ghost v1 = item_views(u1@);
    let n1 = u1.len();
    let mut inherited_p1: usize = 0;
    let ghost base1 = child@;
    let mut i: usize = 0;
    while i < n1
        invariant
            n1 == u1@.len(),
            v1 == item_views(u1@),
            enumerates(v1, p1_unique@),
            p1_unique@ == m1.remove_keys(m2.dom()),
            m1 == parent1.knowledge@,
            m2 == parent2.knowledge@,
            p1v == parent1@,
            p2v == parent2@,
            target == child_knowledge(p1v, p2v, iface),
            base1 == target.restrict(iface.intersect(m1.dom())),
            i <= n1,
            inherited_p1 == i,
            child@ == target.restrict(prefix_ids(v1, i as int)).union_prefer_right(base1),
        decreases n1 - i,
    {
        let ghost k = v1[i as int].id;
        proof {
            assert(u1@[i as int]@ == v1[i as int]);
            assert(p1_unique@.dom().contains(k));
            assert(!prefix_ids(v1, i as int).contains(k)) by {
                if prefix_ids(v1, i as int).contains(k) {
                    let j = choose|j: int| 0 <= j < i && #[trigger] v1[j].id == k;
                    lemma_key_order(k, k, k);
                    assert(key_lt(v1[j].id, v1[i as int].id));
                }
            }
            assert(prefix_ids(v1, i + 1) =~= prefix_ids(v1, i as int).insert(k));
        }
        let inherited = with_parents_provenance(u1[i], &parent1.id, None);
        child.insert(inherited);
        inherited_p1 = inherited_p1 + 1;
        proof {
            assert(child@ =~= target.restrict(prefix_ids(v1, i + 1)).union_prefer_right(base1));
        }
        i = i + 1;
    }
    proof {
        assert(prefix_ids(v1, n1 as int) =~= p1_unique@.dom()) by {
            assert forall|k: Seq<char>| p1_unique@.dom().contains(k) implies #[trigger] prefix_ids(v1, n1 as int).contains(k) by {
                let j = choose|j: int| 0 <= j < v1.len() && #[trigger] v1[j].id == k;
            }
        }
    }

    let u2 = p2_unique.items();
    let ghost v2 = item_views(u2@);
    let n2 = u2.len();
    let mut inherited_p2: usize = 0;
    let ghost base2 = child@;
    let mut i: usize = 0;
    while i < n2
        invariant
            n2 == u2@.len(),
            v2 == item_views(u2@),
            enumerates(v2, p2_unique@),
            p2_unique@ == m2.remove_keys(m1.dom()),
            m1 == parent1.knowledge@,
            m2 == parent2.knowledge@,
            p1v == parent1@,
            p2v == parent2@,
            target == child_knowledge(p1v, p2v, iface),
            forall|k: Seq<char>| #[trigger] base2.dom().contains(k) ==> m1.dom().contains(k),
            i <= n2,
            inherited_p2 == i,
            child@ == target.restrict(prefix_ids(v2, i as int)).union_prefer_right(base2),
        decreases n2 - i,
    {
        let ghost k = v2[i as int].id;
        proof {
            assert(u2@[i as int]@ == v2[i as int]);
            assert(p2_unique@.dom().contains(k));
            assert(!prefix_ids(v2, i as int).contains(k)) by {
                if prefix_ids(v2, i as int).contains(k) {
                    let j = choose|j: int| 0 <= j < i && #[trigger] v2[j].id == k;
                    lemma_key_order(k, k, k);
                    assert(key_lt(v2[j].id, v2[i as int].id));
                }
            }
            assert(prefix_ids(v2, i + 1) =~= prefix_ids(v2, i as int).insert(k));
        }
        let inherited = with_parents_provenance(u2[i], &parent2.id, None);
        child.insert(inherited);
        inherited_p2 = inherited_p2 + 1;
        proof {
            assert(child@ =~= target.restrict(prefix_ids(v2, i + 1)).union_prefer_right(base2));
        }
        i = i + 1;
    }
    proof {
        assert(prefix_ids(v2, n2 as int) =~= p2_unique@.dom()) by {
            assert forall|k: Seq<char>| p2_unique@.dom().contains(k) implies #[trigger] prefix_ids(v2, n2 as int).contains(k) by {
                let j = choose|j: int| 0 <= j < v2.len() && #[trigger] v2[j].id == k;
            }
        }
        assert(child@ =~= target);
    }

    let g1 = parent1.generation;
    let g2 = parent2.generation;
    let g = if g1 >= g2 { g1 } else { g2 };
    let mut parents: Vec<String> = Vec::new();
    parents.push(parent1.id.clone());
    parents.push(parent2.id.clone());
    proof {
        assert(texts(parents@) =~= seq![parent1.id@, parent2.id@]);
    }
    let child_state = AgentState {
        id: child_id.to_owned(),
        phase: LifecyclePhase::Birth,
        knowledge: child,
        generation: g + 1,
        parent_ids: parents,
        tick: 0,
        feature_dim: parent1.feature_dim,
    };
    let unique1 = p1_unique.len();
    let unique2 = p2_unique.len();
    proof {
        assert(p1_unique@.dom() =~= m1.dom().difference(m2.dom()));
        assert(p2_unique@.dom() =~= m2.dom().difference(m1.dom()));
    }
    SpawnResult {
        child: child_state,
        shared_interface: interface.clone(),
        parent1_unique: unique1,
        parent2_unique: unique2,
        inherited_from_p1: inherited_p1,
        inherited_from_p2: inherited_p2,
        crossover_count: crossover,
    }
}

} // verus!
