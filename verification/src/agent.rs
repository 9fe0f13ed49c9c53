//! Agent states (the objects of the category Ag), their conservation
//! signatures, and knowledge-monotone transitions (its morphisms).

use vstd::prelude::*;
use crate::keys::texts;
use crate::knowledge::{KnowledgeSet, ItemView, item_views, enumerates, copy_strings, prefix_ids};
use crate::keys::{key_lt, lemma_key_order};
use crate::strmap::StrSet;

verus! {

/// The phase of an agent's lifecycle.
#[derive(PartialEq, Eq, Structural, Clone, Copy, Debug, Hash)]
pub enum LifecyclePhase {
    Birth,
    Work,
    Sunset,
    Seed,
    Broken,
}

/// The name under which a phase is shown.
pub open spec fn phase_name(p: LifecyclePhase) -> Seq<char> {
    match p {
        LifecyclePhase::Birth => "Birth"@,
        LifecyclePhase::Work => "Work"@,
        LifecyclePhase::Sunset => "Sunset"@,
        LifecyclePhase::Seed => "Seed"@,
        LifecyclePhase::Broken => "Broken"@,
    }
}

impl LifecyclePhase {
    /// The name of the phase, as it is displayed.
    pub fn name(&self) -> (r: String)
        ensures
            r@ == phase_name(*self),
    {
        match self {
            LifecyclePhase::Birth => "Birth".to_owned(),
            LifecyclePhase::Work => "Work".to_owned(),
            LifecyclePhase::Sunset => "Sunset".to_owned(),
            LifecyclePhase::Seed => "Seed".to_owned(),
            LifecyclePhase::Broken => "Broken".to_owned(),
        }
    }
}

/// The plain contents of an agent state.
pub struct AgentView {
    pub id: Seq<char>,
    pub phase: LifecyclePhase,
    pub knowledge: Map<Seq<char>, ItemView>,
    pub generation: u64,
    pub parent_ids: Seq<Seq<char>>,
    pub tick: u64,
    pub feature_dim: usize,
}

/// An agent state: an object in the category Ag.
pub struct AgentState {
    pub id: String,
    pub phase: LifecyclePhase,
    pub knowledge: KnowledgeSet,
    pub generation: u64,
    pub parent_ids: Vec<String>,
    pub tick: u64,
    /// Feature vector dimension for categorical operations.
    pub feature_dim: usize,
}

impl View for AgentState {
    type V = AgentView;

    open spec fn view(&self) -> AgentView {
        AgentView {
            id: self.id@,
            phase: self.phase,
            knowledge: self.knowledge@,
            generation: self.generation,
            parent_ids: texts(self.parent_ids@),
            tick: self.tick,
            feature_dim: self.feature_dim,
        }
    }
}

/// The provenance entries that occur in some item of `m`.
pub open spec fn provenance_set(m: Map<Seq<char>, ItemView>) -> Set<Seq<char>> {
    Set::new(|p: Seq<char>| exists|k: Seq<char>| #[trigger] m.dom().contains(k) && m[k].provenance.contains(p))
}

/// The domains that occur in some item of `m`.
pub open spec fn domain_set(m: Map<Seq<char>, ItemView>) -> Set<Seq<char>> {
    Set::new(|d: Seq<char>| exists|k: Seq<char>| #[trigger] m.dom().contains(k) && m[k].domain == d)
}

/// A conservation signature: an invariant-like summary of an agent state.
#[derive(PartialEq, Eq, Structural, Clone, Copy, Debug)]
pub struct ConservationSignature {
    pub knowledge_count: usize,
    pub generation: u64,
    pub total_provenance: usize,
    pub phase: LifecyclePhase,
    pub domains: usize,
}

/// The signature of an agent state.
pub open spec fn signature_of(s: AgentView) -> ConservationSignature {
    ConservationSignature {
        knowledge_count: s.knowledge.len() as usize,
        generation: s.generation,
        total_provenance: provenance_set(s.knowledge).len() as usize,
        phase: s.phase,
        domains: domain_set(s.knowledge).len() as usize,
    }
}

/// A state with no knowledge, generation 0, no parents, tick 0 and feature
/// dimension 64.
pub open spec fn initial_state(id: Seq<char>, phase: LifecyclePhase) -> AgentView {
    AgentView {
        id,
        phase,
        knowledge: Map::empty(),
        generation: 0,
        parent_ids: Seq::empty(),
        tick: 0,
        feature_dim: 64,
    }
}

impl AgentState {
    /// A state with no knowledge, generation 0, no parents, tick 0 and
    /// feature dimension 64.
    pub fn new(id: &str, phase: LifecyclePhase) -> (r: Self)
        ensures
            r@ == initial_state(id@, phase),
    {
        let r = AgentState {
            id: id.to_owned(),
            phase,
            knowledge: KnowledgeSet::new(),
            generation: 0,
            parent_ids: Vec::new(),
            tick: 0,
            feature_dim: 64,
        };
        assert(texts(r.parent_ids@) =~= Seq::empty());
        r
    }

    pub fn with_knowledge(self, ks: KnowledgeSet) -> (r: Self)
        ensures
            r@ == (AgentView { knowledge: ks@, ..self@ }),
    {
        let mut s = self;
        s.knowledge = ks;
        s
    }

    pub fn with_generation(self, gen: u64) -> (r: Self)
        ensures
            r@ == (AgentView { generation: gen, ..self@ }),
    {
        let mut s = self;
        s.generation = gen;
        s
    }

    pub fn with_parents(self, parents: Vec<String>) -> (r: Self)
        ensures
            r@ == (AgentView { parent_ids: texts(parents@), ..self@ }),
    {
        let mut s = self;
        s.parent_ids = parents;
        s
    }

    pub fn with_tick(self, tick: u64) -> (r: Self)
        ensures
            r@ == (AgentView { tick, ..self@ }),
    {
        let mut s = self;
        s.tick = tick;
        s
    }

    pub fn with_feature_dim(self, dim: usize) -> (r: Self)
        ensures
            r@ == (AgentView { feature_dim: dim, ..self@ }),
    {
        let mut s = self;
        s.feature_dim = dim;
        s
    }


    /// How many items fall in each of the state's feature buckets.
    pub fn feature_counts(&self) -> (r: Vec<usize>)
        requires
            self.feature_dim > 0 || self.knowledge@.len() == 0,
        ensures
            r@.len() == self.feature_dim,
            forall|b: int|
                0 <= b < self.feature_dim ==> #[trigger] r@[b] == self.knowledge@.dom().filter(
                    |k: Seq<char>| crate::knowledge::bucket_of(k, self.feature_dim) == b,
                ).len(),
    {
        self.knowledge.feature_counts(self.feature_dim)
    }

    /// The counts of knowledge, distinct provenance entries and distinct
    /// domains, with the generation and phase.
    pub fn conservation_signature(&self) -> (r: ConservationSignature)
        ensures
            r == signature_of(self@),
    {
        let its = self.knowledge.items();
        let ghost vs = item_views(its@);
        let ghost m = self.knowledge@;
        let n = its.len();
        let mut doms = StrSet::new();
        let mut provs = StrSet::new();
        let mut i: usize = 0;
        while i < n
            invariant
                n == its@.len(),
                vs == item_views(its@),
                enumerates(vs, m),
                i <= n,
                doms@ == Set::new(|d: Seq<char>| exists|j: int| 0 <= j < i && #[trigger] vs[j].domain == d),
                provs@ == Set::new(|p: Seq<char>| exists|j: int| 0 <= j < i && #[trigger] vs[j].provenance.contains(p)),
            decreases n - i,
        {
            proof {
                assert(its@[i as int]@ == vs[i as int]);
            }
            let ghost before_d = doms@;
            doms.insert(its[i].domain.clone());
            proof {
                assert(doms@ =~= Set::new(|d: Seq<char>| exists|j: int| 0 <= j < i + 1 && #[trigger] vs[j].domain == d)) by {
                    assert(vs[i as int].domain == its@[i as int].domain@);
                    assert forall|d: Seq<char>| #[trigger] doms@.contains(d) == (exists|j: int| 0 <= j < i + 1 && #[trigger] vs[j].domain == d) by {
                        if exists|j: int| 0 <= j < i + 1 && #[trigger] vs[j].domain == d {
                            let j = choose|j: int| 0 <= j < i + 1 && #[trigger] vs[j].domain == d;
                            if j < i {
                                assert(before_d.contains(d));
                            }
                        }
                    }
                }
            }
            let pv = &its[i].provenance;
            let ghost outer = provs@;
            let mut t: usize = 0;
            while t < pv.len()
                invariant
                    pv@.len() == vs[i as int].provenance.len(),
                    texts(pv@) == vs[i as int].provenance,
                    t <= pv@.len(),
                    provs@ == outer.union(Set::new(|p: Seq<char>| exists|q: int| 0 <= q < t && #[trigger] vs[i as int].provenance[q] == p)),
                decreases pv@.len() - t,
            {
                let ghost before_p = provs@;
                provs.insert(pv[t].clone());
                proof {
                    assert(vs[i as int].provenance[t as int] == pv@[t as int]@);
                    assert forall|p: Seq<char>| #[trigger] provs@.contains(p) == outer.union(Set::new(|p: Seq<char>| exists|q: int| 0 <= q < t + 1 && #[trigger] vs[i as int].provenance[q] == p)).contains(p) by {
                        if exists|q: int| 0 <= q < t + 1 && #[trigger] vs[i as int].provenance[q] == p {
                            let q = choose|q: int| 0 <= q < t + 1 && #[trigger] vs[i as int].provenance[q] == p;
                            if q < t {
                                assert(before_p.contains(p));
                            }
                        }
                    }
                    assert(provs@ =~= outer.union(Set::new(|p: Seq<char>| exists|q: int| 0 <= q < t + 1 && #[trigger] vs[i as int].provenance[q] == p)));
                }
                t = t + 1;
            }
            proof {
                assert forall|p: Seq<char>| #[trigger] provs@.contains(p) == (exists|j: int| 0 <= j < i + 1 && #[trigger] vs[j].provenance.contains(p)) by {
                    if exists|j: int| 0 <= j < i + 1 && #[trigger] vs[j].provenance.contains(p) {
                        let j = choose|j: int| 0 <= j < i + 1 && #[trigger] vs[j].provenance.contains(p);
                        if j < i {
                            assert(outer.contains(p));
                        } else {
                            let q = choose|q: int| 0 <= q < vs[j].provenance.len() && vs[j].provenance[q] == p;
                            assert(vs[i as int].provenance[q] == p);
                        }
                    }
                    if provs@.contains(p) && !outer.contains(p) {
                        let q = choose|q: int| 0 <= q < pv@.len() && #[trigger] vs[i as int].provenance[q] == p;
                        assert(vs[i as int].provenance.contains(p));
                    }
                }
                assert(provs@ =~= Set::new(|p: Seq<char>| exists|j: int| 0 <= j < i + 1 && #[trigger] vs[j].provenance.contains(p)));
            }
            i = i + 1;
        }
        proof {
            assert(doms@ =~= domain_set(m)) by {
                assert forall|d: Seq<char>| #[trigger] doms@.contains(d) == domain_set(m).contains(d) by {
                    if domain_set(m).contains(d) {
                        let k = choose|k: Seq<char>| #[trigger] m.dom().contains(k) && m[k].domain == d;
                        let j = choose|j: int| 0 <= j < vs.len() && #[trigger] vs[j].id == k;
                        assert(vs[j].domain == d);
                    }
                    if doms@.contains(d) {
                        let j = choose|j: int| 0 <= j < n && #[trigger] vs[j].domain == d;
                        assert(m.dom().contains(vs[j].id));
                    }
                }
            }
            assert(provs@ =~= provenance_set(m)) by {
                assert forall|p: Seq<char>| #[trigger] provs@.contains(p) == provenance_set(m).contains(p) by {
                    if provenance_set(m).contains(p) {
                        let k = choose|k: Seq<char>| #[trigger] m.dom().contains(k) && m[k].provenance.contains(p);
                        let j = choose|j: int| 0 <= j < vs.len() && #[trigger] vs[j].id == k;
                        assert(vs[j].provenance.contains(p));
                    }
                    if provs@.contains(p) {
                        let j = choose|j: int| 0 <= j < n && #[trigger] vs[j].provenance.contains(p);
                        assert(m.dom().contains(vs[j].id));
                    }
                }
            }
        }
        let count = self.knowledge.len();
        ConservationSignature {
            knowledge_count: count,
            generation: self.generation,
            total_provenance: provs.len(),
            phase: self.phase,
            domains: doms.len(),
        }
    }
}

impl Clone for AgentState {
    /// A copy of this state.
    fn clone(&self) -> (r: Self)
        ensures
            r@ == self@,
    {
        AgentState {
            id: self.id.clone(),
            phase: self.phase,
            knowledge: self.knowledge.clone(),
            generation: self.generation,
            parent_ids: copy_strings(&self.parent_ids),
            tick: self.tick,
            feature_dim: self.feature_dim,
        }
    }
}


/// The plain contents of a transition.
pub struct TransitionView {
    pub source_id: Seq<char>,
    pub target_id: Seq<char>,
    pub knowledge_added: usize,
    pub knowledge_preserved: usize,
    pub label: Seq<char>,
}

/// The number of the source's item ids that the target also holds.
pub open spec fn preserved_count(source: AgentView, target: AgentView) -> nat {
    source.knowledge.dom().intersect(target.knowledge.dom()).len()
}

/// The transition that `Transition::new` builds between two states.
pub open spec fn transition_between(source: AgentView, target: AgentView, label: Seq<char>) -> TransitionView {
    TransitionView {
        source_id: source.id,
        target_id: target.id,
        knowledge_added: (target.knowledge.len() - preserved_count(source, target)) as usize,
        knowledge_preserved: preserved_count(source, target) as usize,
        label,
    }
}

/// Whether every item id of `source` is an item id of `target`.
pub open spec fn monotone(source: AgentView, target: AgentView) -> bool {
    source.knowledge.dom().subset_of(target.knowledge.dom())
}

/// A morphism in the category Ag: a transition between two agent states.
pub struct Transition {
    pub source_id: String,
    pub target_id: String,
    pub knowledge_added: usize,
    pub knowledge_preserved: usize,
    pub label: String,
}

impl View for Transition {
    type V = TransitionView;

    open spec fn view(&self) -> TransitionView {
        TransitionView {
            source_id: self.source_id@,
            target_id: self.target_id@,
            knowledge_added: self.knowledge_added,
            knowledge_preserved: self.knowledge_preserved,
            label: self.label@,
        }
    }
}

impl Transition {
    /// The transition from `source` to `target`: it counts the source's items
    /// that the target keeps, and the target's items beyond those.
    pub fn new(source: &AgentState, target: &AgentState, label: &str) -> (r: Self)
        ensures
            r@ == transition_between(source@, target@, label@),
            r.knowledge_preserved <= target.knowledge@.len(),
    {
        let its = source.knowledge.items();
        let ghost vs = item_views(its@);
        let ghost sm = source.knowledge@;
        let ghost tm = target.knowledge@;
        let n = its.len();
        let mut preserved: usize = 0;
        let ghost mut kept: Set<Seq<char>> = Set::empty();
        let mut i: usize = 0;
        while i < n
            invariant
                n == its@.len(),
                vs == item_views(its@),
                enumerates(vs, sm),
                tm == target.knowledge@,
                i <= n,
                kept == prefix_ids(vs, i as int).intersect(tm.dom()),
                kept.finite(),
                preserved == kept.len(),
                preserved <= i,
            decreases n - i,
        {
            let ghost id = vs[i as int].id;
            proof {
                assert(its@[i as int]@ == vs[i as int]);
                assert(!prefix_ids(vs, i as int).contains(id)) by {
                    if prefix_ids(vs, i as int).contains(id) {
                        let j = choose|j: int| 0 <= j < i && #[trigger] vs[j].id == id;
                        lemma_key_order(id, id, id);
                        assert(key_lt(vs[j].id, vs[i as int].id));
                    }
                }
                assert(prefix_ids(vs, i + 1) =~= prefix_ids(vs, i as int).insert(id));
            }
            if target.knowledge.contains(its[i].id.as_str()) {
                preserved = preserved + 1;
                proof {
                    kept = kept.insert(id);
                }
            }
            proof {
                assert(kept =~= prefix_ids(vs, i + 1).intersect(tm.dom()));
            }
            i = i + 1;
        }
        proof {
            assert(prefix_ids(vs, n as int) =~= sm.dom()) by {
                assert forall|k: Seq<char>| sm.dom().contains(k) implies #[trigger] prefix_ids(vs, n as int).contains(k) by {
                    let j = choose|j: int| 0 <= j < vs.len() && #[trigger] vs[j].id == k;
                }
            }
        }
        let total = target.knowledge.len();
        proof {
            vstd::set_lib::lemma_len_subset(kept, tm.dom());
        }
        Transition {
            source_id: source.id.clone(),
            target_id: target.id.clone(),
            knowledge_added: total - preserved,
            knowledge_preserved: preserved,
            label: label.to_owned(),
        }
    }

    /// Whether every item id of `source` is also an item id of `target`.
    pub fn is_monotone(&self, source: &AgentState, target: &AgentState) -> (r: bool)
        ensures
            r == monotone(source@, target@),
    {
        let its = source.knowledge.items();
        let ghost vs = item_views(its@);
        let ghost sm = source.knowledge@;
        let n = its.len();
        let mut i: usize = 0;
        while i < n
            invariant
                n == its@.len(),
                vs == item_views(its@),
                enumerates(vs, sm),
                sm == source.knowledge@,
                i <= n,
                forall|j: int| 0 <= j < i ==> target.knowledge@.dom().contains(#[trigger] vs[j].id),
            decreases n - i,
        {
            proof {
                assert(its@[i as int]@ == vs[i as int]);
            }
            if !target.knowledge.contains(its[i].id.as_str()) {
                proof {
                    assert(vs[i as int].id == its@[i as int].id@);
                    assert(sm.dom().contains(vs[i as int].id));
                    assert(!target.knowledge@.dom().contains(vs[i as int].id));
                    assert(!source.knowledge@.dom().subset_of(target.knowledge@.dom()));
                }
                return false;
            }
            i = i + 1;
        }
        proof {
            assert forall|k: Seq<char>| sm.dom().contains(k) implies target.knowledge@.dom().contains(k) by {
                let j = choose|j: int| 0 <= j < vs.len() && #[trigger] vs[j].id == k;
            }
        }
        true
    }
}

} // verus!
