//! Filtered lifetime diagrams: chains of agent states linked by transitions,
//! and their colimit, the sunset state.

use vstd::prelude::*;
use crate::keys::{texts, join_text};
use crate::knowledge::{KnowledgeSet, ItemView, item_views, enumerates, redundant};
use crate::agent::{AgentState, AgentView, LifecyclePhase, Transition, TransitionView, transition_between, monotone};

verus! {

/// The views of a sequence of states.
pub open spec fn state_views(v: Seq<AgentState>) -> Seq<AgentView> {
    v.map_values(|s: AgentState| s@)
}

/// The views of a sequence of transitions.
pub open spec fn transition_views(v: Seq<Transition>) -> Seq<TransitionView> {
    v.map_values(|t: Transition| t@)
}

/// The knowledge of each state of a sequence.
pub open spec fn knowledge_maps(v: Seq<AgentView>) -> Seq<Map<Seq<char>, ItemView>> {
    v.map_values(|s: AgentView| s.knowledge)
}

/// The knowledge gathered from a sequence of knowledge maps in order: an id
/// keeps the item of the first map that holds it.
pub open spec fn accumulate(ms: Seq<Map<Seq<char>, ItemView>>) -> Map<Seq<char>, ItemView>
    decreases ms.len(),
{
    if ms.len() == 0 {
        Map::empty()
    } else {
        ms.last().union_prefer_right(accumulate(ms.drop_last()))
    }
}

/// The ids held by some map of the sequence.
pub open spec fn all_ids(ms: Seq<Map<Seq<char>, ItemView>>) -> Set<Seq<char>> {
    Set::new(|k: Seq<char>| exists|i: int| 0 <= i < ms.len() && #[trigger] ms[i].dom().contains(k))
}

/// The ids of `m` whose item repeats an item with a smaller id.
pub open spec fn redundant_ids(m: Map<Seq<char>, ItemView>) -> Set<Seq<char>> {
    m.dom().filter(|k: Seq<char>| redundant(m, k))
}

/// `m` without its redundant items.
pub open spec fn without_redundancy(m: Map<Seq<char>, ItemView>) -> Map<Seq<char>, ItemView> {
    m.remove_keys(redundant_ids(m))
}

/// The sum of the sizes of a sequence of knowledge maps.
pub open spec fn total_len(ms: Seq<Map<Seq<char>, ItemView>>) -> nat
    decreases ms.len(),
{
    if ms.len() == 0 {
        0
    } else {
        total_len(ms.drop_last()) + ms.last().len()
    }
}

/// The state that `FilteredDiagram::colimit` builds from the accumulated
/// knowledge and the last state.
pub open spec fn colimit_state(last: AgentView, knowledge: Map<Seq<char>, ItemView>) -> AgentView {
    AgentView {
        id: last.id + ":sunset"@,
        phase: LifecyclePhase::Sunset,
        knowledge,
        generation: last.generation,
        parent_ids: seq![last.id],
        tick: last.tick,
        feature_dim: last.feature_dim,
    }
}

/// Gathers the knowledge of the states in order; an id keeps the item of the
/// first state holding it.
fn accumulate_knowledge(states: &Vec<AgentState>) -> (r: KnowledgeSet)
    ensures
        r@ == accumulate(knowledge_maps(state_views(states@))),
{
    let ghost ms = knowledge_maps(state_views(states@));
    let mut acc = KnowledgeSet::new();
    let n = states.len();
    let mut i: usize = 0;
    proof {
        assert(ms.take(0) =~= Seq::<Map<Seq<char>, ItemView>>::empty());
    }
    while i < n
        invariant
            n == states@.len(),
            ms == knowledge_maps(state_views(states@)),
            i <= n,
            acc@ == accumulate(ms.take(i as int)),
        decreases n - i,
    {
        acc.merge(&states[i].knowledge);
        proof {
            assert(ms.take(i + 1).drop_last() =~= ms.take(i as int));
            assert(ms.take(i + 1).last() == states@[i as int].knowledge@);
        }
        i = i + 1;
    }
    proof {
        assert(ms.take(n as int) =~= ms);
    }
    acc
}

/// Whether `ks` holds every item id of every state.
fn holds_all_ids(states: &Vec<AgentState>, ks: &KnowledgeSet) -> (r: bool)
    ensures
        r == all_ids(knowledge_maps(state_views(states@))).subset_of(ks@.dom()),
{
    let ghost ms = knowledge_maps(state_views(states@));
    let n = states.len();
    let mut i: usize = 0;
    while i < n
        invariant
            n == states@.len(),
            ms == knowledge_maps(state_views(states@)),
            i <= n,
            forall|j: int, k: Seq<char>| 0 <= j < i && #[trigger] ms[j].dom().contains(k) ==> ks@.dom().contains(k),
        decreases n - i,
    {
        let its = states[i].knowledge.items();
        let ghost vs = item_views(its@);
        let m = its.len();
        let mut t: usize = 0;
        while t < m
            invariant
                m == its@.len(),
                vs == item_views(its@),
                n == states@.len(),
                i < n,
                ms == knowledge_maps(state_views(states@)),
                enumerates(vs, states@[i as int].knowledge@),
                forall|j: int, k: Seq<char>| 0 <= j < i && #[trigger] ms[j].dom().contains(k) ==> ks@.dom().contains(k),
                t <= m,
                forall|u: int| 0 <= u < t ==> ks@.dom().contains(#[trigger] vs[u].id),
            decreases m - t,
        {
            proof {
                assert(its@[t as int]@ == vs[t as int]);
            }
            if !ks.contains(its[t].id.as_str()) {
                proof {
                    let k = vs[t as int].id;
                    assert(ms[i as int].dom().contains(k));
                    assert(all_ids(ms).contains(k));
                }
                return false;
            }
            t = t + 1;
        }
        proof {
            assert forall|j: int, k: Seq<char>| 0 <= j < i + 1 && #[trigger] ms[j].dom().contains(k) implies ks@.dom().contains(k) by {
                if j == i {
                    let u = choose|u: int| 0 <= u < vs.len() && #[trigger] vs[u].id == k;
                }
            }
        }
        i = i + 1;
    }
    true
}

/// A filtered diagram: a chain of agent states connected by transitions.
pub struct FilteredDiagram {
    pub states: Vec<AgentState>,
    pub transitions: Vec<Transition>,
}

impl FilteredDiagram {
    pub fn new() -> (r: Self)
        ensures
            r.states@.len() == 0,
            r.transitions@.len() == 0,
    {
        FilteredDiagram { states: Vec::new(), transitions: Vec::new() }
    }

    /// The chain holding only `initial`.
    pub fn chain(initial: AgentState) -> (r: Self)
        ensures
            state_views(r.states@) == seq![initial@],
            r.transitions@.len() == 0,
    {
        let ghost iv = initial@;
        let mut states: Vec<AgentState> = Vec::new();
        states.push(initial);
        assert(state_views(states@) =~= seq![iv]);
        FilteredDiagram { states, transitions: Vec::new() }
    }

    /// Extends the chain with `next`, whose tick becomes one past the last
    /// state's, and records the transition from the last state to it.
    pub fn tick(&mut self, next: AgentState, label: &str) -> (r: &AgentState)
        requires
            old(self).states@.len() > 0,
            old(self).states@.last().tick < u64::MAX,
        ensures
            state_views(final(self).states@) == state_views(old(self).states@).push(
                AgentView { tick: (old(self).states@.last().tick + 1) as u64, ..next@ },
            ),
            transition_views(final(self).transitions@) == transition_views(old(self).transitions@).push(
                transition_between(
                    old(self).states@.last()@,
                    AgentView { tick: (old(self).states@.last().tick + 1) as u64, ..next@ },
                    label@,
                ),
            ),
            r@ == (AgentView { tick: (old(self).states@.last().tick + 1) as u64, ..next@ }),
    {
        let ghost old_states = state_views(self.states@);
        let ghost old_transitions = transition_views(self.transitions@);
        let last = self.states.len() - 1;
        let mut next = next;
        next.tick = self.states[last].tick + 1;
        let t = Transition::new(&self.states[last], &next, label);
        self.transitions.push(t);
        let ghost nv = next@;
        self.states.push(next);
        proof {
            assert(state_views(self.states@) =~= old_states.push(nv));
            assert(transition_views(self.transitions@) =~= old_transitions.push(t@));
        }
        let n = self.states.len();
        &self.states[n - 1]
    }

    /// The last state, if any.
    pub fn current_state(&self) -> (r: Option<&AgentState>)
        ensures
            match r {
                Some(s) => self.states@.len() > 0 && *s == self.states@.last(),
                None => self.states@.len() == 0,
            },
    {
        let n = self.states.len();
        if n == 0 {
            None
        } else {
            Some(&self.states[n - 1])
        }
    }

    pub fn length(&self) -> (r: usize)
        ensures
            r == self.states@.len(),
    {
        self.states.len()
    }

    /// Whether each transition's source state keeps all its item ids in the
    /// next state.
    pub fn verify_monotonicity(&self) -> (r: bool)
        requires
            self.transitions@.len() < self.states@.len() || exists|i: int|
                0 <= i < self.states@.len() - 1 && !monotone(
                    #[trigger] self.states@[i]@,
                    self.states@[i + 1]@,
                ),
        ensures
            r == forall|i: int|
                0 <= i < self.transitions@.len() ==> monotone(
                    #[trigger] self.states@[i]@,
                    self.states@[i + 1]@,
                ),
    {
        let n = self.transitions.len();
        let mut i: usize = 0;
        while i < n
            invariant
                n == self.transitions@.len(),
                i <= n,
                self.transitions@.len() < self.states@.len() || exists|i: int|
                    0 <= i < self.states@.len() - 1 && !monotone(
                        #[trigger] self.states@[i]@,
                        self.states@[i + 1]@,
                    ),
                forall|j: int| 0 <= j < i ==> monotone(#[trigger] self.states@[j]@, self.states@[j + 1]@),
            decreases n - i,
        {
            if i + 1 >= self.states.len() {
                proof {
                    let w = choose|w: int| 0 <= w < self.states@.len() - 1 && !monotone(
                        #[trigger] self.states@[w]@,
                        self.states@[w + 1]@,
                    );
                    assert(w < i);
                    assert(false);
                }
                return false;
            }
            if !self.transitions[i].is_monotone(&self.states[i], &self.states[i + 1]) {
                return false;
            }
            i = i + 1;
        }
        true
    }

    /// The colimit (sunset) of the chain: all knowledge of its states
    /// gathered, redundant items removed, as a Sunset state after the last.
    pub fn colimit(&self) -> (r: AgentState)
        requires
            self.states@.len() > 0,
        ensures
            r@ == colimit_state(
                self.states@.last()@,
                without_redundancy(accumulate(knowledge_maps(state_views(self.states@)))),
            ),
    {
        let mut acc = accumulate_knowledge(&self.states);
        acc.deduplicate();
        let last = &self.states[self.states.len() - 1];
        let id = join_text(last.id.as_str(), ":sunset");
        let mut parents: Vec<String> = Vec::new();
        parents.push(last.id.clone());
        proof {
            assert(texts(parents@) =~= seq![last.id@]);
        }
        AgentState {
            id,
            phase: LifecyclePhase::Sunset,
            knowledge: acc,
            generation: last.generation,
            parent_ids: parents,
            tick: last.tick,
            feature_dim: last.feature_dim,
        }
    }
}


/// The ids of a sequence of states.
pub open spec fn state_ids(v: Seq<AgentView>) -> Seq<Seq<char>> {
    v.map_values(|s: AgentView| s.id)
}

/// A prefix of a sequence of maps has no larger total size.
pub proof fn lemma_total_len_prefix(ms: Seq<Map<Seq<char>, ItemView>>, i: int)
    requires
        0 <= i <= ms.len(),
    ensures
        total_len(ms.take(i)) <= total_len(ms),
    decreases ms.len() - i,
{
    if i < ms.len() {
        lemma_total_len_prefix(ms, i + 1);
        assert(ms.take(i + 1).drop_last() =~= ms.take(i));
    } else {
        assert(ms.take(i) =~= ms);
    }
}

/// The result of a sunset: the colimit state with the counts around it.
pub struct SunsetResult {
    pub sunset_state: AgentState,
    pub source_count: usize,
    pub knowledge_before_total: usize,
    pub knowledge_after_total: usize,
    pub unique_knowledge_preserved: bool,
    pub redundancy_removed: usize,
}

/// The state that `sunset` builds: the colimit state, with every state of the
/// chain as a parent.
pub open spec fn sunset_state_of(states: Seq<AgentView>) -> AgentView {
    AgentView {
        parent_ids: state_ids(states),
        ..colimit_state(states.last(), without_redundancy(accumulate(knowledge_maps(states))))
    }
}

/// Computes the sunset (colimit) of a filtered diagram, with the counts of
/// knowledge before and after and whether every item id of the chain
/// survived.
pub fn sunset(diagram: &FilteredDiagram) -> (r: SunsetResult)
    requires
        diagram.states@.len() > 0,
        total_len(knowledge_maps(state_views(diagram.states@))) <= usize::MAX,
    ensures
        r.sunset_state@ == sunset_state_of(state_views(diagram.states@)),
        r.source_count == diagram.states@.len(),
        r.knowledge_after_total == r.sunset_state.knowledge@.len(),
        r.unique_knowledge_preserved == all_ids(knowledge_maps(state_views(diagram.states@))).subset_of(
            r.sunset_state.knowledge@.dom(),
        ),
        r.knowledge_before_total == total_len(knowledge_maps(state_views(diagram.states@))),
        r.knowledge_after_total == without_redundancy(
            accumulate(knowledge_maps(state_views(diagram.states@))),
        ).len(),
        r.redundancy_removed == redundant_ids(
            accumulate(knowledge_maps(state_views(diagram.states@))),
        ).len(),
        r.unique_knowledge_preserved == all_ids(knowledge_maps(state_views(diagram.states@))).subset_of(
            without_redundancy(accumulate(knowledge_maps(state_views(diagram.states@)))).dom(),
        ),
{
    let states = &diagram.states;
    let ghost ms = knowledge_maps(state_views(states@));
    let n = states.len();
    let mut before: usize = 0;
    let mut i: usize = 0;
    proof {
        assert(ms.take(0) =~= Seq::<Map<Seq<char>, ItemView>>::empty());
    }
    while i < n
        invariant
            n == states@.len(),
            ms == knowledge_maps(state_views(states@)),
            total_len(ms) <= usize::MAX,
            i <= n,
            before == total_len(ms.take(i as int)),
        decreases n - i,
    {
        proof {
            assert(ms.take(i + 1).drop_last() =~= ms.take(i as int));
            assert(ms.take(i + 1).last() == states@[i as int].knowledge@);
            lemma_total_len_prefix(ms, i + 1);
        }
        let c = states[i].knowledge.len();
        before = before + c;
        i = i + 1;
    }
    proof {
        assert(ms.take(n as int) =~= ms);
    }
    let mut acc = accumulate_knowledge(states);
    let removed = acc.deduplicate();
    let after = acc.len();
    let preserved = holds_all_ids(states, &acc);
    let last = &states[n - 1];
    let id = join_text(last.id.as_str(), ":sunset");
    let mut parents: Vec<String> = Vec::new();
    let mut j: usize = 0;
    while j < n
        invariant
            n == states@.len(),
            j <= n,
            texts(parents@) == state_ids(state_views(states@)).take(j as int),
        decreases n - j,
    {
        let ghost before_p = parents@;
        parents.push(states[j].id.clone());
        proof {
            assert(texts(parents@) =~= texts(before_p).push(states@[j as int].id@));
            assert(state_ids(state_views(states@)).take(j + 1) =~= state_ids(state_views(states@)).take(j as int).push(states@[j as int].id@));
        }
        j = j + 1;
    }
    proof {
        assert(state_ids(state_views(states@)).take(n as int) =~= state_ids(state_views(states@)));
    }
    let st = AgentState {
        id,
        phase: LifecyclePhase::Sunset,
        knowledge: acc,
        generation: last.generation,
        parent_ids: parents,
        tick: last.tick,
        feature_dim: last.feature_dim,
    };
    SunsetResult {
        sunset_state: st,
        source_count: n,
        knowledge_before_total: before,
        knowledge_after_total: after,
        unique_knowledge_preserved: preserved,
        redundancy_removed: removed,
    }
}

/// Whether `sunset_state` holds every item id of every state of the diagram.
pub fn verify_knowledge_preservation(diagram: &FilteredDiagram, sunset_state: &AgentState) -> (r: bool)
    ensures
        r == all_ids(knowledge_maps(state_views(diagram.states@))).subset_of(
            sunset_state.knowledge@.dom(),
        ),
{
    holds_all_ids(&diagram.states, &sunset_state.knowledge)
}

impl Default for FilteredDiagram {
    fn default() -> (r: Self)
        ensures
            r.states@.len() == 0,
            r.transitions@.len() == 0,
    {
        FilteredDiagram::new()
    }
}

} // verus!
