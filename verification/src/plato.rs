//! The PLATO lifecycle (birth, work, sunset, seed) and the category Ag as a
//! whole.

use vstd::prelude::*;
use crate::keys::{texts, join_text, join_decimal, decimal_text};
use crate::knowledge::{KnowledgeSet, KnowledgeItem, ItemView, absorb};
use crate::strmap::StrMap;
use crate::agent::{AgentState, AgentView, LifecyclePhase, Transition, initial_state, monotone, transition_between};
use crate::diagram::{FilteredDiagram, SunsetResult, sunset, state_views, transition_views, knowledge_maps, total_len, sunset_state_of, accumulate, all_ids, redundant_ids, without_redundancy};
use crate::generation::{GenerationTracker, birth_entry};
use crate::components::{ConnectedComponents, groups, link_views};
use crate::conservation::{ConservationFunctor, mapped_signatures, mapped_objects};

verus! {

/// Whether each state of the chain keeps every item id of the one before.
pub open spec fn chain_monotone(states: Seq<AgentView>) -> bool {
    forall|i: int| 0 <= i < states.len() - 1 ==> monotone(#[trigger] states[i], states[i + 1])
}

/// The state a work tick appends: knowledge of the current state with the
/// new items absorbed, in the Work phase, one tick on.
pub open spec fn work_state(
    agent_id: Seq<char>,
    index: nat,
    current: AgentView,
    new_items: Seq<ItemView>,
    generation: u64,
    feature_dim: usize,
) -> AgentView {
    AgentView {
        id: agent_id + ":t"@ + decimal_text(index),
        phase: LifecyclePhase::Work,
        knowledge: absorb(current.knowledge, new_items),
        generation,
        parent_ids: Seq::empty(),
        tick: (current.tick + 1) as u64,
        feature_dim,
    }
}

/// Absorbing items never drops an id that was present.
pub proof fn lemma_absorb_keeps(m: Map<Seq<char>, ItemView>, s: Seq<ItemView>)
    ensures
        m.dom().subset_of(absorb(m, s).dom()),
        forall|k: Seq<char>| #[trigger] m.dom().contains(k) ==> absorb(m, s)[k] == m[k],
    decreases s.len(),
{
    if s.len() > 0 {
        lemma_absorb_keeps(m, s.drop_last());
    }
}

/// A complete lifecycle for a PLATO agent: birth, work, sunset, seed.
pub struct PlatoLifecycle {
    pub agent_id: String,
    pub diagram: FilteredDiagram,
    pub tracker: GenerationTracker,
    pub generation: u64,
    pub feature_dim: usize,
}

impl PlatoLifecycle {
    /// Birth: a chain holding one Birth state with the initial knowledge,
    /// registered in a fresh tracker.
    pub fn birth(id: &str, initial_knowledge: KnowledgeSet, generation: u64) -> (r: Self)
        ensures
            r.agent_id@ == id@,
            state_views(r.diagram.states@) == seq![
                AgentView { knowledge: initial_knowledge@, generation, ..initial_state(id@, LifecyclePhase::Birth) },
            ],
            r.diagram.transitions@.len() == 0,
            r.tracker.lineage@.dom() == set![id@],
            r.tracker.lineage@[id@]@ == birth_entry(AgentView { knowledge: initial_knowledge@, generation, ..initial_state(id@, LifecyclePhase::Birth) }),
            r.tracker.max_generation == generation,
            r.generation == generation,
            r.feature_dim == 64,
            chain_monotone(state_views(r.diagram.states@)),
    {
        let state = AgentState::new(id, LifecyclePhase::Birth).with_knowledge(initial_knowledge).with_generation(
            generation,
        ).with_feature_dim(64);
        let mut tracker = GenerationTracker::new();
        tracker.register(&state);
        let agent_id = state.id.clone();
        proof {
            assert(tracker.lineage@.dom() =~= set![id@]);
        }
        PlatoLifecycle { agent_id, diagram: FilteredDiagram::chain(state), tracker, generation, feature_dim: 64 }
    }

    /// Work: appends a state holding the current knowledge and the new items,
    /// linked to the current state by a transition labelled `label`.
    pub fn work(&mut self, new_knowledge: Vec<KnowledgeItem>, label: &str)
        requires
            old(self).diagram.states@.len() > 0,
            old(self).diagram.states@.last().tick < u64::MAX,
        ensures
            final(self).agent_id == old(self).agent_id,
            final(self).generation == old(self).generation,
            final(self).feature_dim == old(self).feature_dim,
            final(self).tracker == old(self).tracker,
            state_views(final(self).diagram.states@) == state_views(old(self).diagram.states@).push(
                work_state(
                    old(self).agent_id@,
                    old(self).diagram.states@.len() as nat,
                    old(self).diagram.states@.last()@,
                    new_knowledge@.map_values(|x: KnowledgeItem| x@),
                    old(self).generation,
                    old(self).feature_dim,
                ),
            ),
            transition_views(final(self).diagram.transitions@) == transition_views(old(self).diagram.transitions@).push(
                transition_between(
                    old(self).diagram.states@.last()@,
                    work_state(
                        old(self).agent_id@,
                        old(self).diagram.states@.len() as nat,
                        old(self).diagram.states@.last()@,
                        new_knowledge@.map_values(|x: KnowledgeItem| x@),
                        old(self).generation,
                        old(self).feature_dim,
                    ),
                    label@,
                ),
            ),
            chain_monotone(state_views(old(self).diagram.states@)) ==> chain_monotone(state_views(final(self).diagram.states@)),
    {
        let n = self.diagram.states.len();
        let ghost vs = new_knowledge@.map_values(|x: KnowledgeItem| x@);
        let ghost cur = self.diagram.states@[n - 1]@;
        let mut new_ks = self.diagram.states[n - 1].knowledge.clone();
        let m = new_knowledge.len();
        let mut i: usize = 0;
        proof {
            assert(vs.take(0) =~= Seq::<ItemView>::empty());
        }
        while i < m
            invariant
                m == new_knowledge@.len(),
                vs == new_knowledge@.map_values(|x: KnowledgeItem| x@),
                i <= m,
                new_ks@ == absorb(cur.knowledge, vs.take(i as int)),
            decreases m - i,
        {
            let item = new_knowledge[i].clone();
            proof {
                assert(vs.take(i + 1).drop_last() =~= vs.take(i as int));
                assert(vs.take(i + 1).last() == vs[i as int]);
            }
            new_ks.insert(item);
            i = i + 1;
        }
        proof {
            assert(vs.take(m as int) =~= vs);
        }
        let id = join_decimal(self.agent_id.as_str(), ":t", n as u64);
        proof {
            reveal_strlit(":t");
        }
        let next = AgentState::new(id.as_str(), LifecyclePhase::Work).with_knowledge(new_ks).with_generation(
            self.generation,
        ).with_feature_dim(self.feature_dim);
        let ghost before = state_views(self.diagram.states@);
        self.diagram.tick(next, label);
        proof {
            let after = state_views(self.diagram.states@);
            lemma_absorb_keeps(cur.knowledge, vs);
            assert(monotone(cur, after[n as int]));
            if chain_monotone(before) {
                assert forall|i: int| 0 <= i < after.len() - 1 implies monotone(#[trigger] after[i], after[i + 1]) by {
                    if i < n - 1 {
                        assert(after[i] == before[i]);
                        assert(after[i + 1] == before[i + 1]);
                    } else {
                        assert(after[i] == before[n - 1]);
                    }
                }
            }
        }
    }

    /// Sunset: the colimit of the lifetime diagram.
    pub fn sunset(&self) -> (r: SunsetResult)
        requires
            self.diagram.states@.len() > 0,
            total_len(knowledge_maps(state_views(self.diagram.states@))) <= usize::MAX,
        ensures
            r.sunset_state@ == sunset_state_of(state_views(self.diagram.states@)),
            r.source_count == self.diagram.states@.len(),
            r.knowledge_after_total == r.sunset_state.knowledge@.len(),
            r.unique_knowledge_preserved == all_ids(knowledge_maps(state_views(self.diagram.states@))).subset_of(
                r.sunset_state.knowledge@.dom(),
            ),
            r.knowledge_before_total == total_len(knowledge_maps(state_views(self.diagram.states@))),
            r.knowledge_after_total == without_redundancy(
                accumulate(knowledge_maps(state_views(self.diagram.states@))),
            ).len(),
            r.redundancy_removed == redundant_ids(
                accumulate(knowledge_maps(state_views(self.diagram.states@))),
            ).len(),
            r.unique_knowledge_preserved == all_ids(knowledge_maps(state_views(self.diagram.states@))).subset_of(
                without_redundancy(accumulate(knowledge_maps(state_views(self.diagram.states@)))).dom(),
            ),
    {
        sunset(&self.diagram)
    }

    /// Seed: a Seed state of the next generation holding the sunset knowledge.
    pub fn seed(&self) -> (r: AgentState)
        requires
            self.diagram.states@.len() > 0,
            total_len(knowledge_maps(state_views(self.diagram.states@))) <= usize::MAX,
            self.generation < u64::MAX,
        ensures
            r@ == (AgentView {
                id: self.agent_id@ + ":seed:g"@ + decimal_text((self.generation + 1) as nat),
                phase: LifecyclePhase::Seed,
                knowledge: sunset_state_of(state_views(self.diagram.states@)).knowledge,
                generation: (self.generation + 1) as u64,
                parent_ids: seq![self.agent_id@],
                tick: 0,
                feature_dim: self.feature_dim,
            }),
    {
        let result = sunset(&self.diagram);
        let next_gen = self.generation + 1;
        let id = join_decimal(self.agent_id.as_str(), ":seed:g", next_gen);
        proof {
            reveal_strlit(":seed:g");
        }
        let mut parents: Vec<String> = Vec::new();
        parents.push(self.agent_id.clone());
        proof {
            assert(texts(parents@) =~= seq![self.agent_id@]);
        }
        AgentState {
            id,
            phase: LifecyclePhase::Seed,
            knowledge: result.sunset_state.knowledge,
            generation: next_gen,
            parent_ids: parents,
            tick: 0,
            feature_dim: self.feature_dim,
        }
    }

    /// The current (last) state.
    pub fn current(&self) -> (r: &AgentState)
        requires
            self.diagram.states@.len() > 0,
        ensures
            *r == self.diagram.states@.last(),
    {
        let n = self.diagram.states.len();
        &self.diagram.states[n - 1]
    }
}


/// The views of the states held by a category, in key order.
pub open spec fn object_views(objects: Seq<AgentState>) -> Seq<AgentView> {
    objects.map_values(|s: AgentState| s@)
}

/// The lifecycle category Ag: agent states as objects, transitions as
/// morphisms.
pub struct AgentCategory {
    pub objects: StrMap<AgentState>,
    pub morphisms: Vec<Transition>,
}

impl AgentCategory {
    pub fn new() -> (r: Self)
        ensures
            r.objects@ == Map::<Seq<char>, AgentState>::empty(),
            r.morphisms@.len() == 0,
    {
        AgentCategory { objects: StrMap::new(), morphisms: Vec::new() }
    }

    /// Adds a state under its id, replacing any state with that id.
    pub fn add_state(&mut self, state: AgentState)
        ensures
            final(self).objects@ == old(self).objects@.insert(state.id@, state),
            final(self).morphisms == old(self).morphisms,
    {
        let k = state.id.clone();
        self.objects.insert(k, state);
    }

    pub fn add_transition(&mut self, t: Transition)
        ensures
            final(self).objects == old(self).objects,
            final(self).morphisms@ == old(self).morphisms@.push(t),
    {
        self.morphisms.push(t);
    }

    /// Composition of morphisms is associative: transitions compose by
    /// transitivity, so there is nothing to check.
    pub fn verify_composition(&self) -> (r: bool)
        ensures
            r,
    {
        true
    }

    /// The check made of identities: every object key is non-empty.
    pub fn verify_identities(&self) -> (r: bool)
        ensures
            r == forall|k: Seq<char>| #[trigger] self.objects@.dom().contains(k) ==> k.len() > 0,
    {
        let n = self.objects.len();
        let mut i: usize = 0;
        while i < n
            invariant
                n == self.objects.key_seq().len(),
                forall|k: Seq<char>| #[trigger] self.objects@.dom().contains(k) <==> self.objects.key_seq().contains(k),
                i <= n,
                forall|j: int| 0 <= j < i ==> (#[trigger] self.objects.key_seq()[j]).len() > 0,
            decreases n - i,
        {
            let k = self.objects.key_at(i);
            if k.as_str().is_empty() {
                proof {
                    assert(self.objects.key_seq()[i as int] == k@);
                    assert(self.objects.key_seq().contains(k@));
                    assert(self.objects@.dom().contains(k@));
                    assert(k@.len() == 0);
                }
                return false;
            }
            i = i + 1;
        }
        proof {
            assert forall|k: Seq<char>| #[trigger] self.objects@.dom().contains(k) implies k.len() > 0 by {
                let j = choose|j: int| 0 <= j < n && self.objects.key_seq()[j] == k;
            }
        }
        true
    }

    /// The connected components of the objects under the morphisms.
    pub fn connected_components(&self) -> (r: ConnectedComponents)
        ensures
            groups(r.components@, self.objects.value_seq(), self.objects.value_seq().len() as int, link_views(self.morphisms@)),
    {
        let n = self.objects.len();
        let mut states: Vec<AgentState> = Vec::new();
        let mut i: usize = 0;
        while i < n
            invariant
                n == self.objects.value_seq().len(),
                n == self.objects.key_seq().len(),
                i <= n,
                states@.len() == i,
                forall|j: int| 0 <= j < i ==> (#[trigger] states@[j]).id@ == self.objects.value_seq()[j].id@,
            decreases n - i,
        {
            states.push(self.objects.value_at(i).clone());
            i = i + 1;
        }
        let r = ConnectedComponents::compute(states.as_slice(), self.morphisms.as_slice());
        proof {
            lemma_groups_by_ids(r.components@, states@, self.objects.value_seq(), n as int, link_views(self.morphisms@));
        }
        r
    }

    /// The conservation functor applied to every object, in key order.
    pub fn apply_conservation(&self) -> (r: ConservationFunctor)
        ensures
            r.mapping@ == mapped_signatures(Map::empty(), object_views(self.objects.value_seq())),
            r.discrete_cat.objects@ == mapped_objects(Set::empty(), object_views(self.objects.value_seq())),
    {
        let mut cf = ConservationFunctor::new();
        let n = self.objects.len();
        let ghost ss = object_views(self.objects.value_seq());
        let mut i: usize = 0;
        proof {
            assert(ss.take(0) =~= Seq::<AgentView>::empty());
            assert(mapped_objects(Set::empty(), ss.take(0)) =~= Set::<Seq<char>>::empty());
        }
        while i < n
            invariant
                n == self.objects.value_seq().len(),
                n == self.objects.key_seq().len(),
                ss == object_views(self.objects.value_seq()),
                i <= n,
                cf.mapping@ == mapped_signatures(Map::empty(), ss.take(i as int)),
                cf.discrete_cat.objects@ == mapped_objects(Set::empty(), ss.take(i as int)),
            decreases n - i,
        {
            let ghost before = cf.discrete_cat.objects@;
            let st = self.objects.value_at(i);
            cf.map_state(st);
            proof {
                let t = ss.take(i + 1);
                assert(t.drop_last() =~= ss.take(i as int));
                assert(t.last() == ss[i as int]);
                assert(ss[i as int] == st@);
                assert forall|k: Seq<char>| #[trigger] cf.discrete_cat.objects@.contains(k) == mapped_objects(Set::empty(), t).contains(k) by {
                    if exists|j: int| 0 <= j < t.len() && #[trigger] crate::conservation::object_key(t[j]) == k {
                        let j = choose|j: int| 0 <= j < t.len() && #[trigger] crate::conservation::object_key(t[j]) == k;
                        if j < i {
                            assert(ss.take(i as int)[j] == t[j]);
                            assert(before.contains(k));
                        }
                    }
                    if before.contains(k) {
                        let j = choose|j: int| 0 <= j < ss.take(i as int).len() && #[trigger] crate::conservation::object_key(ss.take(i as int)[j]) == k;
                        assert(t[j] == ss.take(i as int)[j]);
                    }
                    assert(crate::conservation::object_key(t[i as int]) == crate::conservation::object_key(ss[i as int]));
                }
                assert(cf.discrete_cat.objects@ =~= mapped_objects(Set::empty(), t));
            }
            i = i + 1;
        }
        proof {
            assert(ss.take(n as int) =~= ss);
        }
        cf
    }
}

/// Components depend only on the ids of the states.
proof fn lemma_groups_by_ids(
    comps: Map<Seq<char>, crate::strmap::StrSet>,
    a: Seq<AgentState>,
    b: Seq<AgentState>,
    n: int,
    ts: Seq<crate::agent::TransitionView>,
)
    requires
        groups(comps, a, n, ts),
        a.len() == n,
        b.len() == n,
        forall|j: int| 0 <= j < n ==> (#[trigger] a[j]).id@ == b[j].id@,
    ensures
        groups(comps, b, n, ts),
{
    assert forall|r: Seq<char>| #[trigger] comps.dom().contains(r) implies comps[r]@ == crate::components::members(b, n, ts, r) by {
        assert forall|x: Seq<char>| #[trigger] crate::components::members(a, n, ts, r).contains(x) == crate::components::members(b, n, ts, r).contains(x) by {
            if crate::components::is_state_id(a, n, x) {
                let j = choose|j: int| 0 <= j < n && #[trigger] a[j].id@ == x;
                assert(b[j].id@ == x);
            }
            if crate::components::is_state_id(b, n, x) {
                let j = choose|j: int| 0 <= j < n && #[trigger] b[j].id@ == x;
                assert(a[j].id@ == x);
            }
        }
        assert(crate::components::members(a, n, ts, r) =~= crate::components::members(b, n, ts, r));
    }
    assert forall|r: Seq<char>| #[trigger] comps.dom().contains(r) <==> exists|j: int| 0 <= j < n && crate::components::root_of(ts, #[trigger] b[j].id@) == r by {
        if comps.dom().contains(r) {
            let j = choose|j: int| 0 <= j < n && crate::components::root_of(ts, #[trigger] a[j].id@) == r;
            assert(b[j].id@ == a[j].id@);
        }
        if exists|j: int| 0 <= j < n && crate::components::root_of(ts, #[trigger] b[j].id@) == r {
            let j = choose|j: int| 0 <= j < n && crate::components::root_of(ts, #[trigger] b[j].id@) == r;
            assert(a[j].id@ == b[j].id@);
        }
    }
}

impl Default for AgentCategory {
    fn default() -> (r: Self)
        ensures
            r.objects@ == Map::<Seq<char>, AgentState>::empty(),
            r.morphisms@.len() == 0,
    {
        AgentCategory::new()
    }
}

} // verus!
