//! Generation tracking: genetic lineage, mutation counts and diversity.

use vstd::prelude::*;
use std::collections::BTreeMap;
use crate::keys::{texts, same_text};
use crate::strmap::{StrMap, StrSet, keys_increasing};
use crate::knowledge::{ItemView, item_views, enumerates, copy_strings};
use crate::agent::{AgentState, AgentView, domain_set};

verus! {

/// A genealogy record of one agent.
pub struct GenealogyEntry {
    pub agent_id: String,
    pub generation: u64,
    pub parent_ids: Vec<String>,
    pub mutation_count: u64,
    pub knowledge_at_birth: usize,
}

/// The plain contents of a genealogy record.
pub struct EntryView {
    pub agent_id: Seq<char>,
    pub generation: u64,
    pub parent_ids: Seq<Seq<char>>,
    pub mutation_count: u64,
    pub knowledge_at_birth: usize,
}

impl View for GenealogyEntry {
    type V = EntryView;

    open spec fn view(&self) -> EntryView {
        EntryView {
            agent_id: self.agent_id@,
            generation: self.generation,
            parent_ids: texts(self.parent_ids@),
            mutation_count: self.mutation_count,
            knowledge_at_birth: self.knowledge_at_birth,
        }
    }
}

/// The record that registering a state writes.
pub open spec fn birth_entry(s: AgentView) -> EntryView {
    EntryView {
        agent_id: s.id,
        generation: s.generation,
        parent_ids: s.parent_ids,
        mutation_count: 0,
        knowledge_at_birth: s.knowledge.len() as usize,
    }
}

/// The domains of the items of the states of generation `g`.
pub open spec fn generation_domains(states: Seq<AgentView>, g: u64) -> Set<Seq<char>> {
    Set::new(|d: Seq<char>| exists|i: int| 0 <= i < states.len() && #[trigger] states[i].generation == g && domain_set(states[i].knowledge).contains(d))
}

/// Whether some state of generation `g` holds knowledge.
pub open spec fn generation_has_knowledge(states: Seq<AgentView>, g: u64) -> bool {
    exists|i: int| 0 <= i < states.len() && #[trigger] states[i].generation == g && states[i].knowledge.len() > 0
}

/// Adds the domains of the items of `s` to `set`.
fn collect_domains(s: &AgentState, set: &mut StrSet)
    ensures
        final(set)@ == old(set)@.union(domain_set(s.knowledge@)),
{
    let its = s.knowledge.items();
    let ghost vs = item_views(its@);
    let ghost m = s.knowledge@;
    let ghost start = set@;
    let n = its.len();
    let mut i: usize = 0;
    while i < n
        invariant
            n == its@.len(),
            vs == item_views(its@),
            enumerates(vs, m),
            m == s.knowledge@,
            start == old(set)@,
            i <= n,
            set@ == start.union(Set::new(|d: Seq<char>| exists|j: int| 0 <= j < i && #[trigger] vs[j].domain == d)),
        decreases n - i,
    {
        proof {
            assert(its@[i as int]@ == vs[i as int]);
        }
        let ghost before = set@;
        set.insert(its[i].domain.clone());
        proof {
            assert(vs[i as int].domain == its@[i as int].domain@);
            assert forall|d: Seq<char>| #[trigger] set@.contains(d) == start.union(Set::new(|d: Seq<char>| exists|j: int| 0 <= j < i + 1 && #[trigger] vs[j].domain == d)).contains(d) by {
                if exists|j: int| 0 <= j < i + 1 && #[trigger] vs[j].domain == d {
                    let j = choose|j: int| 0 <= j < i + 1 && #[trigger] vs[j].domain == d;
                    if j < i {
                        assert(before.contains(d));
                    }
                }
                if before.contains(d) && !start.contains(d) {
                    let j = choose|j: int| 0 <= j < i && #[trigger] vs[j].domain == d;
                    assert(0 <= j < i + 1);
                }
            }
            assert(set@ =~= start.union(Set::new(|d: Seq<char>| exists|j: int| 0 <= j < i + 1 && #[trigger] vs[j].domain == d)));
        }
        i = i + 1;
    }
    proof {
        assert forall|d: Seq<char>| #[trigger] set@.contains(d) == start.union(domain_set(m)).contains(d) by {
            if domain_set(m).contains(d) {
                let k = choose|k: Seq<char>| #[trigger] m.dom().contains(k) && m[k].domain == d;
                let j = choose|j: int| 0 <= j < vs.len() && #[trigger] vs[j].id == k;
                assert(vs[j].domain == d);
            }
            if set@.contains(d) && !start.contains(d) {
                let j = choose|j: int| 0 <= j < n && #[trigger] vs[j].domain == d;
                assert(m.dom().contains(vs[j].id));
            }
        }
        assert(set@ =~= start.union(domain_set(m)));
    }
}

/// Tracks genetic lineage, mutation and diversity across generations.
pub struct GenerationTracker {
    pub lineage: StrMap<GenealogyEntry>,
    pub max_generation: u64,
}

impl GenerationTracker {
    pub fn new() -> (r: Self)
        ensures
            r.lineage@ == Map::<Seq<char>, GenealogyEntry>::empty(),
            r.max_generation == 0,
    {
        GenerationTracker { lineage: StrMap::new(), max_generation: 0 }
    }

    /// Records `state` under its id (replacing an earlier record) and raises
    /// the maximum generation to its generation.
    pub fn register(&mut self, state: &AgentState)
        ensures
            final(self).lineage@.dom() == old(self).lineage@.dom().insert(state.id@),
            final(self).lineage@[state.id@]@ == birth_entry(state@),
            forall|k: Seq<char>| #[trigger] old(self).lineage@.dom().contains(k) && k != state.id@ ==> final(self).lineage@[k] == old(self).lineage@[k],
            final(self).max_generation == (if old(self).max_generation >= state.generation { old(self).max_generation } else { state.generation }),
    {
        let count = state.knowledge.len();
        let entry = GenealogyEntry {
            agent_id: state.id.clone(),
            generation: state.generation,
            parent_ids: copy_strings(&state.parent_ids),
            mutation_count: 0,
            knowledge_at_birth: count,
        };
        if state.generation > self.max_generation {
            self.max_generation = state.generation;
        }
        self.lineage.insert(state.id.clone(), entry);
    }

    /// Counts one more mutation of `agent_id`, if it is registered.
    pub fn record_mutation(&mut self, agent_id: &str)
        requires
            old(self).lineage@.dom().contains(agent_id@) ==> old(self).lineage@[agent_id@].mutation_count < u64::MAX,
        ensures
            final(self).max_generation == old(self).max_generation,
            final(self).lineage@.dom() == old(self).lineage@.dom(),
            forall|k: Seq<char>| #[trigger] old(self).lineage@.dom().contains(k) && k != agent_id@ ==> final(self).lineage@[k] == old(self).lineage@[k],
            old(self).lineage@.dom().contains(agent_id@) ==> final(self).lineage@[agent_id@]@ == (EntryView {
                mutation_count: (old(self).lineage@[agent_id@].mutation_count + 1) as u64,
                ..old(self).lineage@[agent_id@]@
            }),
    {
        match self.lineage.take(agent_id) {
            Some(entry) => {
                let mut e = entry;
                e.mutation_count = e.mutation_count + 1;
                let k = e.agent_id.clone();
                let key = agent_id.to_owned();
                self.lineage.insert(key, e);
                proof {
                    assert(self.lineage@.dom() =~= old(self).lineage@.dom());
                }
            },
            None => {
                proof {
                    assert(self.lineage@ =~= old(self).lineage@);
                }
            },
        }
    }

    /// The number of distinct domains per generation, over the states that
    /// hold knowledge.
    pub fn diversity(&self, states: &[AgentState]) -> (r: BTreeMap<u64, usize>)
        ensures
            forall|g: u64| #[trigger] r@.dom().contains(g) <==> generation_has_knowledge(state_list(states@), g),
            forall|g: u64| #[trigger] r@.dom().contains(g) ==> r@[g] == generation_domains(state_list(states@), g).len(),
    {
        broadcast use vstd::std_specs::btree::group_btree_axioms;

        proof {
            crate::order_facts::lemma_u64_keys_ordered();
        }
        let ghost ss = state_list(states@);
        let mut result: BTreeMap<u64, usize> = BTreeMap::new();
        let n = states.len();
        let mut i: usize = 0;
        while i < n
            invariant
                n == states@.len(),
                ss == state_list(states@),
                i <= n,
                forall|g: u64| #[trigger] result@.dom().contains(g) <==> exists|j: int| 0 <= j < i && #[trigger] ss[j].generation == g && ss[j].knowledge.len() > 0,
                forall|g: u64| #[trigger] result@.dom().contains(g) ==> result@[g] == generation_domains(ss, g).len(),
            decreases n - i,
        {
            let g = states[i].generation;
            let c = states[i].knowledge.len();
            let ghost before_r = result@;
            let present = result.contains_key(&g);
            proof {
                assert(present == before_r.dom().contains(g));
            }
            if c > 0 && !present {
                let mut doms = StrSet::new();
                let mut j: usize = 0;
                while j < n
                    invariant
                        n == states@.len(),
                        ss == state_list(states@),
                        j <= n,
                        doms@ == Set::new(|d: Seq<char>| exists|q: int| 0 <= q < j && #[trigger] ss[q].generation == g && domain_set(ss[q].knowledge).contains(d)),
                    decreases n - j,
                {
                    let ghost before = doms@;
                    let ghost matches = states@[j as int].generation == g;
                    if states[j].generation == g {
                        collect_domains(&states[j], &mut doms);
                    }
                    proof {
                        assert(ss[j as int] == states@[j as int]@);
                        if matches {
                            assert(doms@ == before.union(domain_set(ss[j as int].knowledge)));
                        } else {
                            assert(doms@ == before);
                        }
                        assert forall|d: Seq<char>| #[trigger] doms@.contains(d) == (exists|q: int| 0 <= q < j + 1 && #[trigger] ss[q].generation == g && domain_set(ss[q].knowledge).contains(d)) by {
                            if exists|q: int| 0 <= q < j + 1 && #[trigger] ss[q].generation == g && domain_set(ss[q].knowledge).contains(d) {
                                let q = choose|q: int| 0 <= q < j + 1 && #[trigger] ss[q].generation == g && domain_set(ss[q].knowledge).contains(d);
                                if q < j {
                                    assert(before.contains(d));
                                }
                            }
                            if before.contains(d) {
                                let q = choose|q: int| 0 <= q < j && #[trigger] ss[q].generation == g && domain_set(ss[q].knowledge).contains(d);
                                assert(0 <= q < j + 1);
                            }
                            if doms@.contains(d) && !before.contains(d) {
                                assert(matches);
                                assert(ss[j as int].generation == g && domain_set(ss[j as int].knowledge).contains(d));
                            }
                        }
                        assert(doms@ =~= Set::new(|d: Seq<char>| exists|q: int| 0 <= q < j + 1 && #[trigger] ss[q].generation == g && domain_set(ss[q].knowledge).contains(d)));
                    }
                    j = j + 1;
                }
                let count = doms.len();
                proof {
                    assert(doms@ =~= generation_domains(ss, g));
                }
                result.insert(g, count);
                proof {
                    assert(result@ == before_r.insert(g, count));
                }
            }
            proof {
                assert(ss[i as int] == states@[i as int]@);
                if !(c > 0 && !present) {
                    assert(result@ == before_r);
                }
                assert forall|h: u64| #[trigger] result@.dom().contains(h) <==> exists|j: int| 0 <= j < i + 1 && #[trigger] ss[j].generation == h && ss[j].knowledge.len() > 0 by {
                    if exists|j: int| 0 <= j < i + 1 && #[trigger] ss[j].generation == h && ss[j].knowledge.len() > 0 {
                        let j = choose|j: int| 0 <= j < i + 1 && #[trigger] ss[j].generation == h && ss[j].knowledge.len() > 0;
                        if j < i {
                            assert(exists|j: int| 0 <= j < i && #[trigger] ss[j].generation == h && ss[j].knowledge.len() > 0);
                            assert(before_r.dom().contains(h));
                        } else {
                            assert(h == g);
                            assert(c > 0);
                        }
                    }
                    if result@.dom().contains(h) && !before_r.dom().contains(h) {
                        assert(h == g);
                        assert(ss[i as int].generation == h && ss[i as int].knowledge.len() > 0);
                    }
                    if before_r.dom().contains(h) {
                        let j = choose|j: int| 0 <= j < i && #[trigger] ss[j].generation == h && ss[j].knowledge.len() > 0;
                        assert(0 <= j < i + 1);
                    }
                }
            }
            i = i + 1;
        }
        result
    }

    /// `agent_id` followed by its recorded ancestors, found depth-first, each
    /// once.
    #[verifier::rlimit(50)]
    pub fn lineage_of(&self, agent_id: &str) -> (r: Vec<String>)
        ensures
            texts(r@).no_duplicates(),
            texts(r@).to_set() == ancestry(self.lineage@, agent_id@),
            r@.len() > 0,
            r@[0]@ == agent_id@,
            texts(r@) == lineage_walk(self.lineage@, seq![agent_id@], Set::empty(), Seq::empty()),
    {
        let ghost m = self.lineage@;
        let ghost a = agent_id@;
        let nk = self.lineage.len();
        let ghost ks = self.lineage.key_seq();
        let ghost es = self.lineage.value_seq();
        let mut out: Vec<String> = Vec::new();
        let mut stack: Vec<String> = Vec::new();
        stack.push(agent_id.to_owned());
        let mut visited = StrSet::new();
        proof {
            let p0 = seq![a];
            assert(is_ancestry_path(m, p0, a));
            assert(ancestry(m, a).contains(a));
            assert(texts(out@).to_set() =~= Set::<Seq<char>>::empty());
            assert(texts(stack@) =~= seq![a]);
            assert(visited@ =~= Set::<Seq<char>>::empty());
            assert(texts(out@) =~= Seq::<Seq<char>>::empty());
        }
        let ghost goal = lineage_walk(m, seq![a], Set::empty(), Seq::empty());
        while stack.len() > 0
            invariant
                m.dom().finite(),
                lineage_walk(m, texts(stack@), visited@, texts(out@)) == goal,
                m == self.lineage@,
                nk == ks.len(),
                ks == self.lineage.key_seq(),
                es == self.lineage.value_seq(),
                es.len() == nk,
                keys_increasing(ks),
                forall|k: Seq<char>| #[trigger] m.dom().contains(k) <==> ks.contains(k),
                forall|i: int| 0 <= i < nk ==> #[trigger] m[ks[i]] == es[i],
                visited@ == texts(out@).to_set(),
                texts(out@).no_duplicates(),
                forall|x: Seq<char>| #[trigger] visited@.contains(x) ==> ancestry(m, a).contains(x),
                forall|i: int| 0 <= i < stack@.len() ==> ancestry(m, a).contains(#[trigger] texts(stack@)[i]),
                forall|v: Seq<char>, q: Seq<char>| #[trigger] visited@.contains(v) && #[trigger] recorded_parents(m, v).contains(q) ==> visited@.contains(q) || texts(stack@).contains(q),
                visited@.contains(a) || texts(stack@).contains(a),
                out@.len() > 0 ==> out@[0]@ == a,
                out@.len() == 0 ==> texts(stack@) == seq![a],
            decreases pending_parents(ks, es, visited@, nk as int) + stack@.len(),
        {
            let ghost old_stack = texts(stack@);
            let id = stack.pop().unwrap();
            let ghost x = id@;
            proof {
                assert(old_stack == texts(stack@).push(x));
                assert(old_stack[old_stack.len() - 1] == x);
            }
            if visited.contains(id.as_str()) {
                proof {
                    assert(old_stack.drop_last() =~= texts(stack@));
                    assert(lineage_walk(m, old_stack, visited@, texts(out@)) == lineage_walk(m, texts(stack@), visited@, texts(out@)));
                    assert forall|v: Seq<char>, q: Seq<char>| #[trigger] visited@.contains(v) && #[trigger] recorded_parents(m, v).contains(q) implies visited@.contains(q) || texts(stack@).contains(q) by {
                        if old_stack.contains(q) && !visited@.contains(q) {
                            let i = choose|i: int| 0 <= i < old_stack.len() && old_stack[i] == q;
                            if i < old_stack.len() - 1 {
                                assert(texts(stack@)[i] == q);
                            }
                        }
                    }
                    if !visited@.contains(a) {
                        let i = choose|i: int| 0 <= i < old_stack.len() && old_stack[i] == a;
                        if i < old_stack.len() - 1 {
                            assert(texts(stack@)[i] == a);
                        }
                    }
                    assert forall|i: int| 0 <= i < stack@.len() implies ancestry(m, a).contains(#[trigger] texts(stack@)[i]) by {
                        assert(texts(stack@)[i] == old_stack[i]);
                    }
                }
            } else {
                let ghost old_visited = visited@;
                let ghost old_out = texts(out@);
                proof {
                    assert(ancestry(m, a).contains(x)) by {
                        assert(old_stack[old_stack.len() - 1] == x);
                    }
                }
                visited.insert(id.clone());
                out.push(id.clone());
                proof {
                    assert(texts(out@) == old_out.push(x));
                    crate::knowledge::lemma_push_to_set(old_out, x);
                    assert forall|i: int, j: int| 0 <= i < j < texts(out@).len() implies texts(out@)[i] != texts(out@)[j] by {
                        if j == old_out.len() {
                            assert(old_out.to_set().contains(old_out[i]));
                        }
                    }
                    if old_out.len() == 0 {
                        assert(old_stack == seq![a]);
                    }
                }
                let ghost mid_stack = texts(stack@);
                let ghost pending_before = pending_parents(ks, es, old_visited, nk as int);
                match self.lineage.get(id.as_str()) {
                    Some(entry) => {
                        let ghost j = ks.index_of(x);
                        proof {
                            assert(ks.contains(x));
                            assert(0 <= j < nk && ks[j] == x);
                            assert(m[ks[j]] == es[j]);
                            lemma_pending_registered(ks, es, old_visited, nk as int, j);
                        }
                        let np = entry.parent_ids.len();
                        let mut t: usize = 0;
                        while t < np
                            invariant
                                np == entry.parent_ids@.len(),
                                m.dom().contains(x),
                                *entry == m[x],
                                t <= np,
                                texts(stack@) == mid_stack + texts(entry.parent_ids@.take(t as int)),
                            decreases np - t,
                        {
                            let ghost before = texts(stack@);
                            stack.push(entry.parent_ids[t].clone());
                            proof {
                                assert(texts(stack@) =~= before.push(entry.parent_ids@[t as int]@));
                                assert(texts(entry.parent_ids@.take(t + 1)) =~= texts(entry.parent_ids@.take(t as int)).push(entry.parent_ids@[t as int]@));
                                assert(texts(stack@) =~= mid_stack + texts(entry.parent_ids@.take(t + 1)));
                            }
                            t = t + 1;
                        }
                        proof {
                            assert(entry.parent_ids@.take(np as int) =~= entry.parent_ids@);
                            assert(recorded_parents(m, x) == texts(entry.parent_ids@));
                            let ps = recorded_parents(m, x);
                            assert(texts(stack@) == mid_stack + ps);
                            // Every pushed parent is an ancestor.
                            assert forall|i: int| 0 <= i < stack@.len() implies ancestry(m, a).contains(#[trigger] texts(stack@)[i]) by {
                                if i < mid_stack.len() {
                                    assert(texts(stack@)[i] == old_stack[i]);
                                } else {
                                    let q = ps[i - mid_stack.len()];
                                    assert(texts(stack@)[i] == q);
                                    let p = choose|p: Seq<Seq<char>>| #[trigger] is_ancestry_path(m, p, a) && p.last() == x;
                                    let p2 = p.push(q);
                                    assert(ps.contains(q));
                                    assert(is_ancestry_path(m, p2, a)) by {
                                        assert forall|k: int| 0 <= k < p2.len() - 1 implies recorded_parents(m, #[trigger] p2[k]).contains(p2[k + 1]) by {
                                            if k < p.len() - 1 {
                                                assert(p2[k] == p[k]);
                                                assert(p2[k + 1] == p[k + 1]);
                                            } else {
                                                assert(p2[k] == x);
                                                assert(p2[k + 1] == q);
                                            }
                                        }
                                    }
                                    assert(p2.last() == q);
                                }
                            }
                            assert forall|v: Seq<char>, q: Seq<char>| #[trigger] visited@.contains(v) && #[trigger] recorded_parents(m, v).contains(q) implies visited@.contains(q) || texts(stack@).contains(q) by {
                                if v == x {
                                    let i = choose|i: int| 0 <= i < ps.len() && ps[i] == q;
                                    assert(texts(stack@)[mid_stack.len() + i] == q);
                                } else if !visited@.contains(q) {
                                    assert(old_visited.contains(v));
                                    assert(old_stack.contains(q));
                                    let i = choose|i: int| 0 <= i < old_stack.len() && old_stack[i] == q;
                                    if i < old_stack.len() - 1 {
                                        assert(texts(stack@)[i] == q);
                                    }
                                }
                            }
                        }
                    },
                    None => {
                        proof {
                            assert(!ks.contains(x));
                            lemma_pending_unregistered(ks, es, old_visited, nk as int, x);
                            assert(recorded_parents(m, x) == Seq::<Seq<char>>::empty());
                            assert forall|i: int| 0 <= i < stack@.len() implies ancestry(m, a).contains(#[trigger] texts(stack@)[i]) by {
                                assert(texts(stack@)[i] == old_stack[i]);
                            }
                            assert forall|v: Seq<char>, q: Seq<char>| #[trigger] visited@.contains(v) && #[trigger] recorded_parents(m, v).contains(q) implies visited@.contains(q) || texts(stack@).contains(q) by {
                                if v != x && !visited@.contains(q) {
                                    assert(old_visited.contains(v));
                                    let i = choose|i: int| 0 <= i < old_stack.len() && old_stack[i] == q;
                                    if i < old_stack.len() - 1 {
                                        assert(texts(stack@)[i] == q);
                                    }
                                }
                            }
                        }
                    },
                }
                proof {
                    if !visited@.contains(a) {
                        let i = choose|i: int| 0 <= i < old_stack.len() && old_stack[i] == a;
                        assert(texts(stack@)[i] == a);
                    }
                    assert(texts(stack@) =~= mid_stack + recorded_parents(m, x));
                    assert(old_stack.drop_last() =~= mid_stack);
                    assert(lineage_walk(m, old_stack, old_visited, old_out) == lineage_walk(m, texts(stack@), visited@, texts(out@)));
                }
            }
        }
        proof {
            assert(texts(stack@) =~= Seq::<Seq<char>>::empty());
            assert forall|x: Seq<char>| ancestry(m, a).contains(x) implies #[trigger] visited@.contains(x) by {
                let p = choose|p: Seq<Seq<char>>| #[trigger] is_ancestry_path(m, p, a) && p.last() == x;
                lemma_closed_holds_ancestry(m, visited@, a, p);
            }
            assert(texts(out@).to_set() =~= ancestry(m, a));
        }
        out
    }

    /// Whether `ancestor_id` is `agent_id` or one of its recorded ancestors.
    pub fn is_descendant_of(&self, agent_id: &str, ancestor_id: &str) -> (r: bool)
        ensures
            r == ancestry(self.lineage@, agent_id@).contains(ancestor_id@),
    {
        let line = self.lineage_of(agent_id);
        let n = line.len();
        let mut i: usize = 0;
        while i < n
            invariant
                n == line@.len(),
                i <= n,
                texts(line@).to_set() == ancestry(self.lineage@, agent_id@),
                forall|j: int| 0 <= j < i ==> texts(line@)[j] != ancestor_id@,
            decreases n - i,
        {
            if same_text(line[i].as_str(), ancestor_id) {
                proof {
                    assert(texts(line@)[i as int] == ancestor_id@);
                    assert(texts(line@).to_set().contains(ancestor_id@));
                    assert(ancestry(self.lineage@, agent_id@).contains(ancestor_id@));
                }
                return true;
            }
            i = i + 1;
        }
        proof {
            if texts(line@).to_set().contains(ancestor_id@) {
                let j = choose|j: int| 0 <= j < texts(line@).len() && texts(line@)[j] == ancestor_id@;
            }
        }
        false
    }

    /// The number of registered agents.
    pub fn lineage_size(&self) -> (r: usize)
        ensures
            r == self.lineage@.len(),
    {
        self.lineage.len()
    }
}

/// The parents recorded for `x`; none when `x` is not registered.
pub open spec fn recorded_parents(m: Map<Seq<char>, GenealogyEntry>, x: Seq<char>) -> Seq<Seq<char>> {
    if m.dom().contains(x) {
        m[x]@.parent_ids
    } else {
        Seq::empty()
    }
}

/// The ids a depth-first walk records, after `out`: it takes the top of
/// `stack`, passes over it when already `seen`, and otherwise records it and
/// pushes its recorded parents in their order.
pub open spec fn lineage_walk(
    m: Map<Seq<char>, GenealogyEntry>,
    stack: Seq<Seq<char>>,
    seen: Set<Seq<char>>,
    out: Seq<Seq<char>>,
) -> Seq<Seq<char>>
    decreases m.dom().difference(seen).len(), stack.len(),
    when m.dom().finite()
{
    if stack.len() == 0 {
        out
    } else {
        let x = stack.last();
        let rest = stack.drop_last();
        if seen.contains(x) {
            lineage_walk(m, rest, seen, out)
        } else {
            proof {
                if m.dom().contains(x) {
                    assert(m.dom().difference(seen.insert(x)) =~= m.dom().difference(seen).remove(x));
                } else {
                    assert(m.dom().difference(seen.insert(x)) =~= m.dom().difference(seen));
                    assert(rest + recorded_parents(m, x) =~= rest);
                }
            }
            lineage_walk(m, rest + recorded_parents(m, x), seen.insert(x), out.push(x))
        }
    }
}

/// Whether `p` leads from `a` through recorded parents, one step at a time.
pub open spec fn is_ancestry_path(m: Map<Seq<char>, GenealogyEntry>, p: Seq<Seq<char>>, a: Seq<char>) -> bool {
    &&& p.len() > 0
    &&& p[0] == a
    &&& forall|i: int| 0 <= i < p.len() - 1 ==> recorded_parents(m, #[trigger] p[i]).contains(p[i + 1])
}

/// `a` with all its recorded ancestors.
pub open spec fn ancestry(m: Map<Seq<char>, GenealogyEntry>, a: Seq<char>) -> Set<Seq<char>> {
    Set::new(|x: Seq<char>| exists|p: Seq<Seq<char>>| #[trigger] is_ancestry_path(m, p, a) && p.last() == x)
}

/// The parent counts of the registered agents not yet visited, over the first
/// `n` entries.
pub open spec fn pending_parents(ks: Seq<Seq<char>>, es: Seq<GenealogyEntry>, visited: Set<Seq<char>>, n: int) -> nat
    decreases n,
{
    if n <= 0 {
        0
    } else {
        pending_parents(ks, es, visited, n - 1) + (if visited.contains(ks[n - 1]) {
            0
        } else {
            es[n - 1].parent_ids@.len()
        })
    }
}

/// Visiting an id that no entry among the first `n` has leaves the count.
proof fn lemma_pending_unregistered(ks: Seq<Seq<char>>, es: Seq<GenealogyEntry>, visited: Set<Seq<char>>, n: int, x: Seq<char>)
    requires
        0 <= n <= ks.len(),
        forall|j: int| 0 <= j < n ==> ks[j] != x,
    ensures
        pending_parents(ks, es, visited.insert(x), n) == pending_parents(ks, es, visited, n),
    decreases n,
{
    if n > 0 {
        lemma_pending_unregistered(ks, es, visited, n - 1, x);
    }
}

/// Visiting the id of entry `j` takes its parents off the count.
proof fn lemma_pending_registered(ks: Seq<Seq<char>>, es: Seq<GenealogyEntry>, visited: Set<Seq<char>>, n: int, j: int)
    requires
        0 <= j < n <= ks.len(),
        keys_increasing(ks),
        !visited.contains(ks[j]),
    ensures
        pending_parents(ks, es, visited.insert(ks[j]), n) + es[j].parent_ids@.len() == pending_parents(ks, es, visited, n),
    decreases n,
{
    if n - 1 == j {
        assert forall|q: int| 0 <= q < j implies ks[q] != ks[j] by {
            crate::keys::lemma_key_order(ks[q], ks[j], ks[q]);
        }
        lemma_pending_unregistered(ks, es, visited, j, ks[j]);
    } else {
        lemma_pending_registered(ks, es, visited, n - 1, j);
        crate::keys::lemma_key_order(ks[j], ks[n - 1], ks[j]);
    }
}

/// A set holding `a` and closed under recorded parents holds all of `a`'s
/// ancestry.
proof fn lemma_closed_holds_ancestry(m: Map<Seq<char>, GenealogyEntry>, visited: Set<Seq<char>>, a: Seq<char>, p: Seq<Seq<char>>)
    requires
        visited.contains(a),
        forall|v: Seq<char>, q: Seq<char>| #[trigger] visited.contains(v) && #[trigger] recorded_parents(m, v).contains(q) ==> visited.contains(q),
        is_ancestry_path(m, p, a),
    ensures
        visited.contains(p.last()),
    decreases p.len(),
{
    if p.len() > 1 {
        let prev = p.drop_last();
        assert(is_ancestry_path(m, prev, a)) by {
            assert forall|i: int| 0 <= i < prev.len() - 1 implies recorded_parents(m, #[trigger] prev[i]).contains(prev[i + 1]) by {
                assert(prev[i] == p[i]);
                assert(recorded_parents(m, p[i]).contains(p[i + 1]));
            }
        }
        lemma_closed_holds_ancestry(m, visited, a, prev);
        assert(recorded_parents(m, p[p.len() - 2]).contains(p[p.len() - 1]));
    }
}

/// The views of a slice of states.
pub open spec fn state_list(v: Seq<AgentState>) -> Seq<AgentView> {
    v.map_values(|s: AgentState| s@)
}

impl Default for GenerationTracker {
    fn default() -> (r: Self)
        ensures
            r.lineage@ == Map::<Seq<char>, GenealogyEntry>::empty(),
            r.max_generation == 0,
    {
        GenerationTracker::new()
    }
}

} // verus!
