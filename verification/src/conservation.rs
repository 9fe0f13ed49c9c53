//! The conservation functor C: Ag -> Disc(X), mapping agent states to their
//! conservation signatures.

use vstd::prelude::*;
use crate::keys::{join_decimal, decimal_text};
use crate::strmap::{StrMap, StrSet};
use crate::agent::{AgentState, AgentView, ConservationSignature, Transition, signature_of};
use crate::diagram::{FilteredDiagram, state_views};

verus! {

/// The discrete category Disc(X): objects only, with identity morphisms.
pub struct DiscreteCategory {
    pub objects: StrSet,
}

impl DiscreteCategory {
    pub fn new() -> (r: Self)
        ensures
            r.objects@ == Set::<Seq<char>>::empty(),
    {
        DiscreteCategory { objects: StrSet::new() }
    }

    pub fn insert(&mut self, obj: String)
        ensures
            final(self).objects@ == old(self).objects@.insert(obj@),
    {
        self.objects.insert(obj);
    }

    pub fn contains(&self, obj: &str) -> (r: bool)
        ensures
            r == self.objects@.contains(obj@),
    {
        self.objects.contains(obj)
    }

    pub fn len(&self) -> (r: usize)
        ensures
            r == self.objects@.len(),
    {
        self.objects.len()
    }

    pub fn is_empty(&self) -> (r: bool)
        ensures
            r == (self.objects@.len() == 0),
    {
        self.objects.is_empty()
    }
}

/// The object of Disc(X) that a state is sent to: its id, a colon and its
/// knowledge count.
pub open spec fn object_key(s: AgentView) -> Seq<char> {
    s.id + ":"@ + decimal_text(s.knowledge.len())
}

/// The signatures recorded after mapping the states of `ss` in order, a later
/// state replacing an earlier one with the same id.
pub open spec fn mapped_signatures(
    m: Map<Seq<char>, ConservationSignature>,
    ss: Seq<AgentView>,
) -> Map<Seq<char>, ConservationSignature>
    decreases ss.len(),
{
    if ss.len() == 0 {
        m
    } else {
        mapped_signatures(m, ss.drop_last()).insert(ss.last().id, signature_of(ss.last()))
    }
}

/// The objects recorded after mapping the states of `ss`.
pub open spec fn mapped_objects(o: Set<Seq<char>>, ss: Seq<AgentView>) -> Set<Seq<char>> {
    o.union(Set::new(|k: Seq<char>| exists|i: int| 0 <= i < ss.len() && #[trigger] object_key(ss[i]) == k))
}

/// Whether the knowledge count never drops from one state to the next along
/// the first `n` transitions.
pub open spec fn counts_non_decreasing(ss: Seq<AgentView>, n: int) -> bool {
    forall|i: int| 0 <= i < n ==> #[trigger] ss[i].knowledge.len() <= ss[i + 1].knowledge.len()
}

/// The conservation functor C: Ag -> Disc(X).
pub struct ConservationFunctor {
    pub mapping: StrMap<ConservationSignature>,
    pub discrete_cat: DiscreteCategory,
}

impl ConservationFunctor {
    pub fn new() -> (r: Self)
        ensures
            r.mapping@ == Map::<Seq<char>, ConservationSignature>::empty(),
            r.discrete_cat.objects@ == Set::<Seq<char>>::empty(),
    {
        ConservationFunctor { mapping: StrMap::new(), discrete_cat: DiscreteCategory::new() }
    }

    /// Records the signature of `state` under its id, adds its object to
    /// Disc(X), and returns the signature.
    pub fn map_state(&mut self, state: &AgentState) -> (r: ConservationSignature)
        ensures
            r == signature_of(state@),
            final(self).mapping@ == old(self).mapping@.insert(state.id@, signature_of(state@)),
            final(self).discrete_cat.objects@ == old(self).discrete_cat.objects@.insert(object_key(state@)),
    {
        let sig = state.conservation_signature();
        let count = state.knowledge.len();
        assert(sig.knowledge_count as nat == state.knowledge@.len());
        let key = join_decimal(state.id.as_str(), ":", sig.knowledge_count as u64);
        proof {
            reveal_strlit(":");
        }
        self.mapping.insert(state.id.clone(), sig);
        self.discrete_cat.insert(key);
        sig
    }

    /// The conservation law on a transition: the knowledge count does not drop.
    pub fn map_transition(&self, t: &Transition, source: &AgentState, target: &AgentState) -> (r: bool)
        ensures
            r == (target.knowledge@.len() >= source.knowledge@.len()),
    {
        target.knowledge.len() >= source.knowledge.len()
    }

    /// Whether the domain count recorded for `after` is at least the one
    /// recorded for `before`; true when either is not recorded.
    pub fn is_invariant(&self, before: &AgentState, after: &AgentState) -> (r: bool)
        ensures
            r == (self.mapping@.dom().contains(before.id@) && self.mapping@.dom().contains(after.id@)
                ==> self.mapping@[after.id@].domains >= self.mapping@[before.id@].domains),
    {
        match (self.mapping.get(before.id.as_str()), self.mapping.get(after.id.as_str())) {
            (Some(sig_before), Some(sig_after)) => sig_after.domains >= sig_before.domains,
            _ => true,
        }
    }

    /// Maps every state of the diagram, then checks the conservation law on
    /// each transition.
    pub fn verify_conservation(&mut self, diagram: &FilteredDiagram) -> (r: bool)
        requires
            diagram.transitions@.len() < diagram.states@.len() || exists|i: int|
                0 <= i < diagram.states@.len() - 1 && #[trigger] diagram.states@[i]@.knowledge.len()
                    > diagram.states@[i + 1]@.knowledge.len(),
        ensures
            final(self).mapping@ == mapped_signatures(old(self).mapping@, state_views(diagram.states@)),
            final(self).discrete_cat.objects@ == mapped_objects(
                old(self).discrete_cat.objects@,
                state_views(diagram.states@),
            ),
            r == counts_non_decreasing(state_views(diagram.states@), diagram.transitions@.len() as int),
    {
        let ghost ss = state_views(diagram.states@);
        let ghost m0 = self.mapping@;
        let ghost o0 = self.discrete_cat.objects@;
        let n = diagram.states.len();
        let mut i: usize = 0;
        proof {
            assert(ss.take(0) =~= Seq::<AgentView>::empty());
            assert(mapped_objects(o0, ss.take(0)) =~= o0);
        }
        while i < n
            invariant
                n == diagram.states@.len(),
                ss == state_views(diagram.states@),
                i <= n,
                self.mapping@ == mapped_signatures(m0, ss.take(i as int)),
                m0 == old(self).mapping@,
                o0 == old(self).discrete_cat.objects@,
                self.discrete_cat.objects@ == mapped_objects(o0, ss.take(i as int)),
            decreases n - i,
        {
            let ghost before = self.discrete_cat.objects@;
            self.map_state(&diagram.states[i]);
            proof {
                assert(ss.take(i + 1).drop_last() =~= ss.take(i as int));
                assert(ss.take(i + 1).last() == ss[i as int]);
                assert(self.discrete_cat.objects@ =~= mapped_objects(o0, ss.take(i + 1))) by {
                    assert forall|k: Seq<char>| #[trigger] self.discrete_cat.objects@.contains(k) == mapped_objects(o0, ss.take(i + 1)).contains(k) by {
                        let t = ss.take(i + 1);
                        if exists|j: int| 0 <= j < t.len() && #[trigger] object_key(t[j]) == k {
                            let j = choose|j: int| 0 <= j < t.len() && #[trigger] object_key(t[j]) == k;
                            if j < i {
                                assert(ss.take(i as int)[j] == t[j]);
                                assert(before.contains(k));
                            }
                        }
                        if before.contains(k) && !o0.contains(k) {
                            let j = choose|j: int| 0 <= j < ss.take(i as int).len() && #[trigger] object_key(ss.take(i as int)[j]) == k;
                            assert(t[j] == ss.take(i as int)[j]);
                        }
                        assert(object_key(t[i as int]) == object_key(ss[i as int]));
                    }
                }
            }
            i = i + 1;
        }
        proof {
            assert(ss.take(n as int) =~= ss);
        }
        let nt = diagram.transitions.len();
        let mut j: usize = 0;
        while j < nt
            invariant
                nt == diagram.transitions@.len(),
                n == diagram.states@.len(),
                ss == state_views(diagram.states@),
                j <= nt,
                self.mapping@ == mapped_signatures(m0, ss),
                m0 == old(self).mapping@,
                o0 == old(self).discrete_cat.objects@,
                self.discrete_cat.objects@ == mapped_objects(o0, ss),
                diagram.transitions@.len() < diagram.states@.len() || exists|i: int|
                    0 <= i < diagram.states@.len() - 1 && #[trigger] diagram.states@[i]@.knowledge.len()
                        > diagram.states@[i + 1]@.knowledge.len(),
                counts_non_decreasing(ss, j as int),
            decreases nt - j,
        {
            if j + 1 >= n {
                proof {
                    let w = choose|w: int| 0 <= w < diagram.states@.len() - 1 && #[trigger] diagram.states@[w]@.knowledge.len()
                        > diagram.states@[w + 1]@.knowledge.len();
                    assert(ss[w] == diagram.states@[w]@);
                    assert(ss[w + 1] == diagram.states@[w + 1]@);
                    assert(false);
                }
                return false;
            }
            if !self.map_transition(&diagram.transitions[j], &diagram.states[j], &diagram.states[j + 1]) {
                proof {
                    assert(ss[j as int] == diagram.states@[j as int]@);
                    assert(ss[j + 1] == diagram.states@[j + 1]@);
                    assert(!(ss[j as int].knowledge.len() <= ss[j + 1].knowledge.len()));
                    assert(!counts_non_decreasing(ss, nt as int));
                }
                return false;
            }
            proof {
                assert(ss[j as int] == diagram.states@[j as int]@);
                assert(ss[j + 1] == diagram.states@[j + 1]@);
            }
            j = j + 1;
        }
        true
    }
}

impl Default for DiscreteCategory {
    fn default() -> (r: Self)
        ensures
            r.objects@ == Set::<Seq<char>>::empty(),
    {
        DiscreteCategory::new()
    }
}

impl Default for ConservationFunctor {
    fn default() -> (r: Self)
        ensures
            r.mapping@ == Map::<Seq<char>, ConservationSignature>::empty(),
            r.discrete_cat.objects@ == Set::<Seq<char>>::empty(),
    {
        ConservationFunctor::new()
    }
}

} // verus!
