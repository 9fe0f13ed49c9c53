//! Connected components pi0(Ag), the disc embedding, and the adjunction
//! pi0 -| disc.

use vstd::prelude::*;
use crate::keys::same_text;
use crate::strmap::{StrMap, StrSet, keys_increasing};
use crate::agent::{AgentState, AgentView, LifecyclePhase, Transition, TransitionView, initial_state};

verus! {

/// The views of a sequence of transitions.
pub open spec fn link_views(v: Seq<Transition>) -> Seq<TransitionView> {
    v.map_values(|t: Transition| t@)
}

/// The representative of `x` after joining, in order, the source and target
/// of every transition of `ts`. Joining `a` and `b` sends every node whose
/// representative is that of `a` to the representative of `b`.
#[verifier::opaque]
pub open spec fn root_of(ts: Seq<TransitionView>, x: Seq<char>) -> Seq<char>
    decreases ts.len(),
{
    if ts.len() == 0 {
        x
    } else {
        let prev = ts.drop_last();
        let ra = root_of(prev, ts.last().source_id);
        let rb = root_of(prev, ts.last().target_id);
        let rx = root_of(prev, x);
        if rx == ra {
            rb
        } else {
            rx
        }
    }
}

/// Whether `m` records, for the nodes it holds, their representatives after
/// the transitions `ts`: every other node is its own representative, and the
/// representatives are themselves held.
#[verifier::opaque]
pub open spec fn tracks_roots(m: Map<Seq<char>, String>, ts: Seq<TransitionView>) -> bool {
    &&& forall|x: Seq<char>| #[trigger] m.dom().contains(x) ==> m[x]@ == root_of(ts, x)
    &&& forall|x: Seq<char>| !(#[trigger] m.dom().contains(x)) ==> root_of(ts, x) == x
    &&& forall|x: Seq<char>| #[trigger] m.dom().contains(x) ==> m.dom().contains(m[x]@)
}

/// Joining the ends of one more transition in a map that tracks the
/// representatives keeps it tracking them.
proof fn lemma_join_step(
    prev: Seq<TransitionView>,
    t: TransitionView,
    mid: Map<Seq<char>, String>,
    next: Map<Seq<char>, String>,
    ra: Seq<char>,
    rb: Seq<char>,
)
    requires
        tracks_roots(mid, prev),
        mid.dom().contains(t.source_id),
        mid.dom().contains(t.target_id),
        ra == mid[t.source_id]@,
        rb == mid[t.target_id]@,
        next.dom() == mid.dom(),
        forall|x: Seq<char>| #[trigger] next.dom().contains(x) ==> next[x]@ == (if mid[x]@ == ra { rb } else { mid[x]@ }),
    ensures
        tracks_roots(next, prev.push(t)),
{
    assert(prev.push(t).drop_last() =~= prev);
    assert(prev.push(t).last() == t);
    reveal(root_of);
    reveal(tracks_roots);
}

/// Starting to track a node that was its own representative keeps the map
/// tracking representatives.
proof fn lemma_track_node(m: Map<Seq<char>, String>, ts: Seq<TransitionView>, s: String)
    requires
        tracks_roots(m, ts),
    ensures
        tracks_roots(if m.dom().contains(s@) { m } else { m.insert(s@, s) }, ts),
{
    reveal(tracks_roots);
}

/// Sends every node whose representative is that of `a` to the
/// representative of `b`.
fn join_roots(rep: &mut StrMap<String>, a: &String, b: &String)
    requires
        old(rep)@.dom().contains(a@),
        old(rep)@.dom().contains(b@),
    ensures
        final(rep)@.dom() == old(rep)@.dom(),
        forall|x: Seq<char>| #[trigger] final(rep)@.dom().contains(x) ==> final(rep)@[x]@ == (if old(rep)@[x]@
            == old(rep)@[a@]@ {
            old(rep)@[b@]@
        } else {
            old(rep)@[x]@
        }),
{
    let ra = rep.get(a.as_str()).unwrap().clone();
    let rb = rep.get(b.as_str()).unwrap().clone();
    let ghost mid = rep@;
    let ghost mid_keys = rep.key_seq();
    let ghost mid_vals = rep.value_seq();
    let m = rep.len();
    let mut p: usize = 0;
    while p < m
        invariant
            m == mid_keys.len(),
            mid_keys.len() == mid_vals.len(),
            rep.key_seq() == mid_keys,
            rep.value_seq().len() == m,
            p <= m,
            forall|q: int| 0 <= q < p ==> #[trigger] rep.value_seq()[q]@ == (if mid_vals[q]@ == ra@ { rb@ } else { mid_vals[q]@ }),
            forall|q: int| p <= q < m ==> #[trigger] rep.value_seq()[q] == mid_vals[q],
        decreases m - p,
    {
        let v = rep.value_at(p);
        if same_text(v.as_str(), ra.as_str()) {
            let nv = rb.clone();
            rep.set_at(p, nv);
        }
        p = p + 1;
    }
    // The contract of `len` lays out the keys and values in order.
    let _ = rep.len();
    proof {
        assert(rep@.dom() =~= mid.dom()) by {
            assert forall|x: Seq<char>| #[trigger] rep@.dom().contains(x) == mid.dom().contains(x) by {
                assert(rep.key_seq() == mid_keys);
            }
        }
        assert forall|x: Seq<char>| #[trigger] rep@.dom().contains(x) implies rep@[x]@ == (if mid[x]@ == ra@ { rb@ } else { mid[x]@ }) by {
            let q = choose|q: int| 0 <= q < mid_keys.len() && mid_keys[q] == x;
            assert(rep@[rep.key_seq()[q]] == rep.value_seq()[q]);
            assert(mid[mid_keys[q]] == mid_vals[q]);
        }
    }
}

/// Whether some state among the first `n` has id `x`.
pub open spec fn is_state_id(states: Seq<AgentState>, n: int, x: Seq<char>) -> bool {
    exists|j: int| 0 <= j < n && #[trigger] states[j].id@ == x
}

/// The ids of the first `n` states whose representative is `r`.
pub open spec fn members(states: Seq<AgentState>, n: int, ts: Seq<TransitionView>, r: Seq<char>) -> Set<Seq<char>> {
    Set::new(|x: Seq<char>| is_state_id(states, n, x) && root_of(ts, x) == r)
}

/// Whether `comps` groups the first `n` states by representative: one entry
/// per representative, holding the ids with that representative.
pub open spec fn groups(comps: Map<Seq<char>, StrSet>, states: Seq<AgentState>, n: int, ts: Seq<TransitionView>) -> bool {
    &&& forall|r: Seq<char>| #[trigger] comps.dom().contains(r) <==> exists|j: int| 0 <= j < n && root_of(ts, #[trigger] states[j].id@) == r
    &&& forall|r: Seq<char>| #[trigger] comps.dom().contains(r) ==> comps[r]@ == members(states, n, ts, r)
}

/// Whether no id lies in two different components.
pub open spec fn disjoint_members(comps: Map<Seq<char>, StrSet>) -> bool {
    forall|r1: Seq<char>, r2: Seq<char>, x: Seq<char>|
        #![trigger comps[r1]@.contains(x), comps[r2]@.contains(x)]
        comps.dom().contains(r1) && comps.dom().contains(r2) && comps[r1]@.contains(x) && comps[r2]@.contains(x) ==> r1 == r2
}

/// Connected components: agent states grouped by the transitions that link
/// them, each group keyed by its representative.
pub struct ConnectedComponents {
    pub components: StrMap<StrSet>,
}

impl ConnectedComponents {
    pub fn new() -> (r: Self)
        ensures
            r.components@ == Map::<Seq<char>, StrSet>::empty(),
    {
        ConnectedComponents { components: StrMap::new() }
    }

    /// Groups the states into components, joining the source and target of
    /// each transition in order.
    pub fn compute(states: &[AgentState], transitions: &[Transition]) -> (r: Self)
        ensures
            groups(r.components@, states@, states@.len() as int, link_views(transitions@)),
    {
        let ghost ts = link_views(transitions@);
        let mut rep: StrMap<String> = StrMap::new();
        let ns = states.len();
        let mut i: usize = 0;
        while i < ns
            invariant
                ns == states@.len(),
                i <= ns,
                forall|x: Seq<char>| #[trigger] rep@.dom().contains(x) <==> is_state_id(states@, i as int, x),
                forall|x: Seq<char>| #[trigger] rep@.dom().contains(x) ==> rep@[x]@ == x,
            decreases ns - i,
        {
            let ghost before = rep@;
            rep.insert(states[i].id.clone(), states[i].id.clone());
            proof {
                assert forall|x: Seq<char>| #[trigger] rep@.dom().contains(x) <==> is_state_id(states@, i + 1, x) by {
                    if is_state_id(states@, i + 1, x) {
                        let j = choose|j: int| 0 <= j < i + 1 && #[trigger] states@[j].id@ == x;
                        if j < i {
                            assert(is_state_id(states@, i as int, x));
                        }
                    }
                    if before.dom().contains(x) {
                        let j = choose|j: int| 0 <= j < i && #[trigger] states@[j].id@ == x;
                        assert(0 <= j < i + 1);
                    }
                }
            }
            i = i + 1;
        }
        let nt = transitions.len();
        let mut t: usize = 0;
        proof {
            assert(ts.take(0) =~= Seq::<TransitionView>::empty());
            reveal(root_of);
            reveal(tracks_roots);
            assert forall|j: int| 0 <= j < ns implies rep@.dom().contains(#[trigger] states@[j].id@) by {
                assert(is_state_id(states@, ns as int, states@[j].id@));
            }
        }
        while t < nt
            invariant
                nt == transitions@.len(),
                ns == states@.len(),
                ts == link_views(transitions@),
                t <= nt,
                tracks_roots(rep@, ts.take(t as int)),
                forall|j: int| 0 <= j < ns ==> rep@.dom().contains(#[trigger] states@[j].id@),
            decreases nt - t,
        {
            let ghost prev = ts.take(t as int);
            let a = &transitions[t].source_id;
            let b = &transitions[t].target_id;
            proof {
                assert(ts.take(t + 1) =~= prev.push(ts[t as int]));
                assert(ts[t as int].source_id == a@);
                assert(ts[t as int].target_id == b@);
            }
            if !rep.contains_key(a.as_str()) {
                let ghost before = rep@;
                let ac = a.clone();
                proof {
                    lemma_track_node(before, prev, ac);
                }
                rep.insert(ac, a.clone());
            }
            if !rep.contains_key(b.as_str()) {
                let ghost before = rep@;
                let bc = b.clone();
                proof {
                    lemma_track_node(before, prev, bc);
                }
                rep.insert(bc, b.clone());
            }
            let ghost mid = rep@;
            join_roots(&mut rep, a, b);
            proof {
                lemma_join_step(prev, ts[t as int], mid, rep@, mid[a@]@, mid[b@]@);
            }
            t = t + 1;
        }
        proof {
            assert(ts.take(nt as int) =~= ts);
            reveal(tracks_roots);
        }
        let mut comps: StrMap<StrSet> = StrMap::new();
        let mut i: usize = 0;
        while i < ns
            invariant
                ns == states@.len(),
                ts == link_views(transitions@),
                i <= ns,
                forall|x: Seq<char>| #[trigger] rep@.dom().contains(x) ==> rep@[x]@ == root_of(ts, x),
                forall|j: int| 0 <= j < ns ==> rep@.dom().contains(#[trigger] states@[j].id@),
                groups(comps@, states@, i as int, ts),
            decreases ns - i,
        {
            let id = &states[i].id;
            let root = rep.get(id.as_str()).unwrap().clone();
            let ghost before = comps@;
            let mut set = match comps.take(root.as_str()) {
                Some(s) => s,
                None => StrSet::new(),
            };
            let ghost old_set = set@;
            set.insert(id.clone());
            comps.insert(root, set);
            proof {
                let rr = root_of(ts, id@);
                assert forall|r: Seq<char>| #[trigger] comps@.dom().contains(r) <==> exists|j: int| 0 <= j < i + 1 && root_of(ts, #[trigger] states@[j].id@) == r by {
                    if exists|j: int| 0 <= j < i + 1 && root_of(ts, #[trigger] states@[j].id@) == r {
                        let j = choose|j: int| 0 <= j < i + 1 && root_of(ts, #[trigger] states@[j].id@) == r;
                        if j < i {
                            assert(before.dom().contains(r));
                        }
                    }
                    if before.dom().contains(r) {
                        let j = choose|j: int| 0 <= j < i && root_of(ts, #[trigger] states@[j].id@) == r;
                        assert(0 <= j < i + 1);
                    }
                    assert(root_of(ts, states@[i as int].id@) == rr);
                }
                assert forall|r: Seq<char>| #[trigger] comps@.dom().contains(r) implies comps@[r]@ == members(states@, i + 1, ts, r) by {
                    if r == rr {
                        if before.dom().contains(r) {
                            assert(old_set == before[r]@);
                        } else {
                            assert(old_set == Set::<Seq<char>>::empty());
                            assert(members(states@, i as int, ts, r) =~= Set::<Seq<char>>::empty()) by {
                                if exists|x: Seq<char>| members(states@, i as int, ts, r).contains(x) {
                                    let x = choose|x: Seq<char>| members(states@, i as int, ts, r).contains(x);
                                    let j = choose|j: int| 0 <= j < i && #[trigger] states@[j].id@ == x;
                                    assert(root_of(ts, states@[j].id@) == r);
                                }
                            }
                        }
                    }
                    assert forall|x: Seq<char>| #[trigger] members(states@, i + 1, ts, r).contains(x) == (members(states@, i as int, ts, r).contains(x) || (x == id@ && rr == r)) by {
                        if is_state_id(states@, i + 1, x) {
                            let j = choose|j: int| 0 <= j < i + 1 && #[trigger] states@[j].id@ == x;
                            if j < i {
                                assert(is_state_id(states@, i as int, x));
                            }
                        }
                        if is_state_id(states@, i as int, x) {
                            let j = choose|j: int| 0 <= j < i && #[trigger] states@[j].id@ == x;
                            assert(0 <= j < i + 1);
                        }
                        assert(states@[i as int].id@ == id@);
                    }
                    assert(comps@[r]@ =~= members(states@, i + 1, ts, r));
                }
            }
            i = i + 1;
        }
        ConnectedComponents { components: comps }
    }

    /// The number of components.
    pub fn count(&self) -> (r: usize)
        ensures
            r == self.components@.len(),
    {
        self.components.len()
    }

    /// The first component, in key order, that holds `state_id`.
    pub fn component_of(&self, state_id: &str) -> (r: Option<&StrSet>)
        ensures
            match r {
                Some(c) => exists|i: int|
                    0 <= i < self.components.value_seq().len() && *c == #[trigger] self.components.value_seq()[i]
                        && c@.contains(state_id@) && forall|j: int|
                        0 <= j < i ==> !(#[trigger] self.components.value_seq()[j])@.contains(state_id@),
                None => forall|i: int|
                    0 <= i < self.components.value_seq().len() ==> !(#[trigger] self.components.value_seq()[i])@.contains(state_id@),
            },
    {
        let n = self.components.len();
        let mut i: usize = 0;
        while i < n
            invariant
                n == self.components.value_seq().len(),
                n == self.components.key_seq().len(),
                i <= n,
                forall|j: int| 0 <= j < i ==> !(#[trigger] self.components.value_seq()[j])@.contains(state_id@),
            decreases n - i,
        {
            let members = self.components.value_at(i);
            if members.contains(state_id) {
                return Some(members);
            }
            i = i + 1;
        }
        None
    }

    /// Whether `b` is in the component that `component_of(a)` finds.
    pub fn are_connected(&self, a: &str, b: &str) -> (r: bool)
        ensures
            r == exists|i: int|
                0 <= i < self.components.value_seq().len() && (#[trigger] self.components.value_seq()[i])@.contains(a@)
                    && self.components.value_seq()[i]@.contains(b@) && forall|j: int|
                    0 <= j < i ==> !(#[trigger] self.components.value_seq()[j])@.contains(a@),
            disjoint_members(self.components@) ==> (r == exists|k: Seq<char>|
                #[trigger] self.components@.dom().contains(k) && self.components@[k]@.contains(a@)
                    && self.components@[k]@.contains(b@)),
    {
        // The contract of `len` lays out the components in key order.
        let _ = self.components.len();
        match self.component_of(a) {
            Some(comp) => {
                let res = comp.contains(b);
                proof {
                    let i = choose|i: int|
                        0 <= i < self.components.value_seq().len() && *comp == #[trigger] self.components.value_seq()[i]
                            && comp@.contains(a@) && forall|j: int|
                            0 <= j < i ==> !(#[trigger] self.components.value_seq()[j])@.contains(a@);
                    if exists|i2: int|
                        0 <= i2 < self.components.value_seq().len() && (#[trigger] self.components.value_seq()[i2])@.contains(a@)
                            && self.components.value_seq()[i2]@.contains(b@) && forall|j: int|
                            0 <= j < i2 ==> !(#[trigger] self.components.value_seq()[j])@.contains(a@) {
                        let i2 = choose|i2: int|
                            0 <= i2 < self.components.value_seq().len() && (#[trigger] self.components.value_seq()[i2])@.contains(a@)
                                && self.components.value_seq()[i2]@.contains(b@) && forall|j: int|
                                0 <= j < i2 ==> !(#[trigger] self.components.value_seq()[j])@.contains(a@);
                        if i2 < i {
                        } else if i < i2 {
                        }
                    }
                    let ks = self.components.key_seq();
                    let vs = self.components.value_seq();
                    assert(self.components@[ks[i]] == vs[i]);
                    assert(self.components@.dom().contains(ks[i]));
                    if disjoint_members(self.components@) {
                        if exists|k: Seq<char>| #[trigger] self.components@.dom().contains(k) && self.components@[k]@.contains(a@) && self.components@[k]@.contains(b@) {
                            let k = choose|k: Seq<char>| #[trigger] self.components@.dom().contains(k) && self.components@[k]@.contains(a@) && self.components@[k]@.contains(b@);
                            assert(self.components@[ks[i]]@.contains(a@));
                            assert(k == ks[i]);
                        }
                    }
                }
                res
            },
            None => {
                proof {
                    let ks = self.components.key_seq();
                    let vs = self.components.value_seq();
                    if exists|k: Seq<char>| #[trigger] self.components@.dom().contains(k) && self.components@[k]@.contains(a@) && self.components@[k]@.contains(b@) {
                        let k = choose|k: Seq<char>| #[trigger] self.components@.dom().contains(k) && self.components@[k]@.contains(a@) && self.components@[k]@.contains(b@);
                        assert(ks.contains(k));
                        let i = choose|i: int| 0 <= i < ks.len() && ks[i] == k;
                        assert(self.components@[ks[i]] == vs[i]);
                        assert(!vs[i]@.contains(a@));
                    }
                }
                false
            },
        }
    }
}


/// The disc functor: each id embedded as an isolated state in `phase`.
pub fn disc_embed(ids: &[String], phase: LifecyclePhase) -> (r: Vec<AgentState>)
    ensures
        r@.len() == ids@.len(),
        forall|i: int| 0 <= i < ids@.len() ==> #[trigger] r@[i]@ == initial_state(ids@[i]@, phase),
{
    let n = ids.len();
    let mut r: Vec<AgentState> = Vec::new();
    let mut i: usize = 0;
    while i < n
        invariant
            n == ids@.len(),
            i <= n,
            r@.len() == i,
            forall|j: int| 0 <= j < i ==> #[trigger] r@[j]@ == initial_state(ids@[j]@, phase),
        decreases n - i,
    {
        r.push(AgentState::new(ids[i].as_str(), phase));
        i = i + 1;
    }
    r
}

/// The check made of the adjunction pi0 -| disc: there is an embedded state
/// and the target states have a component.
pub fn verify_adjunction(embedded: &[AgentState], target_states: &[AgentState], transitions: &[Transition]) -> (r: bool)
    ensures
        r == (embedded@.len() > 0 && target_states@.len() > 0),
{
    let pi0 = ConnectedComponents::compute(target_states, transitions);
    let c = pi0.count();
    // The contract of `len` relates the component map to its keys.
    let _ = pi0.components.len();
    proof {
        let ts = link_views(transitions@);
        if target_states@.len() > 0 {
            let r0 = root_of(ts, target_states@[0].id@);
            assert(pi0.components@.dom().contains(r0));
        } else {
            assert(pi0.components@.dom() =~= Set::<Seq<char>>::empty());
        }
    }
    embedded.len() > 0 && c > 0
}

impl Default for ConnectedComponents {
    fn default() -> (r: Self)
        ensures
            r.components@ == Map::<Seq<char>, StrSet>::empty(),
    {
        ConnectedComponents::new()
    }
}


/// Whether transition `t` joins `x` and `y`, in either direction.
pub open spec fn joins(t: TransitionView, x: Seq<char>, y: Seq<char>) -> bool {
    (t.source_id == x && t.target_id == y) || (t.source_id == y && t.target_id == x)
}

/// Whether `p` walks from `x` to `y`, each step along a transition of `ts`
/// taken in either direction.
pub open spec fn is_walk(ts: Seq<TransitionView>, p: Seq<Seq<char>>, x: Seq<char>, y: Seq<char>) -> bool {
    &&& p.len() > 0
    &&& p[0] == x
    &&& p.last() == y
    &&& forall|i: int| 0 <= i < p.len() - 1 ==> exists|j: int| 0 <= j < ts.len() && joins(#[trigger] ts[j], #[trigger] p[i], p[i + 1])
}

/// Whether the transitions link `x` and `y`.
pub open spec fn linked(ts: Seq<TransitionView>, x: Seq<char>, y: Seq<char>) -> bool {
    exists|p: Seq<Seq<char>>| #[trigger] is_walk(ts, p, x, y)
}

proof fn lemma_linked_refl(ts: Seq<TransitionView>, x: Seq<char>)
    ensures
        linked(ts, x, x),
{
    assert(is_walk(ts, seq![x], x, x));
}

proof fn lemma_linked_symm(ts: Seq<TransitionView>, x: Seq<char>, y: Seq<char>)
    requires
        linked(ts, x, y),
    ensures
        linked(ts, y, x),
{
    let p = choose|p: Seq<Seq<char>>| #[trigger] is_walk(ts, p, x, y);
    let q = p.reverse();
    assert forall|i: int| 0 <= i < q.len() - 1 implies exists|j: int| 0 <= j < ts.len() && joins(#[trigger] ts[j], #[trigger] q[i], q[i + 1]) by {
        let a = p.len() - 2 - i;
        assert(q[i] == p[a + 1]);
        assert(q[i + 1] == p[a]);
        let j = choose|j: int| 0 <= j < ts.len() && joins(#[trigger] ts[j], #[trigger] p[a], p[a + 1]);
        assert(joins(ts[j], q[i], q[i + 1]));
    }
    assert(is_walk(ts, q, y, x));
}

proof fn lemma_linked_trans(ts: Seq<TransitionView>, x: Seq<char>, y: Seq<char>, z: Seq<char>)
    requires
        linked(ts, x, y),
        linked(ts, y, z),
    ensures
        linked(ts, x, z),
{
    let p = choose|p: Seq<Seq<char>>| #[trigger] is_walk(ts, p, x, y);
    let q = choose|q: Seq<Seq<char>>| #[trigger] is_walk(ts, q, y, z);
    let r = p + q.drop_first();
    assert forall|i: int| 0 <= i < r.len() - 1 implies exists|j: int| 0 <= j < ts.len() && joins(#[trigger] ts[j], #[trigger] r[i], r[i + 1]) by {
        if i < p.len() - 1 {
            assert(r[i] == p[i]);
            assert(r[i + 1] == p[i + 1]);
            let j = choose|j: int| 0 <= j < ts.len() && joins(#[trigger] ts[j], #[trigger] p[i], p[i + 1]);
            assert(joins(ts[j], r[i], r[i + 1]));
        } else {
            let a = i - p.len() + 1;
            assert(r[i] == q[a]);
            assert(r[i + 1] == q[a + 1]);
            let j = choose|j: int| 0 <= j < ts.len() && joins(#[trigger] ts[j], #[trigger] q[a], q[a + 1]);
            assert(joins(ts[j], r[i], r[i + 1]));
        }
    }
    if q.len() == 1 {
        assert(r =~= p);
    }
    assert(is_walk(ts, r, x, z));
}

proof fn lemma_linked_extend(ts: Seq<TransitionView>, t: TransitionView, x: Seq<char>, y: Seq<char>)
    requires
        linked(ts, x, y),
    ensures
        linked(ts.push(t), x, y),
{
    let p = choose|p: Seq<Seq<char>>| #[trigger] is_walk(ts, p, x, y);
    let us = ts.push(t);
    assert forall|i: int| 0 <= i < p.len() - 1 implies exists|j: int| 0 <= j < us.len() && joins(#[trigger] us[j], #[trigger] p[i], p[i + 1]) by {
        let j = choose|j: int| 0 <= j < ts.len() && joins(#[trigger] ts[j], #[trigger] p[i], p[i + 1]);
        assert(us[j] == ts[j]);
    }
    assert(is_walk(us, p, x, y));
}

/// Every node is linked to its representative.
proof fn lemma_root_linked(ts: Seq<TransitionView>, x: Seq<char>)
    ensures
        linked(ts, x, root_of(ts, x)),
    decreases ts.len(),
{
    reveal(root_of);
    if ts.len() == 0 {
        lemma_linked_refl(ts, x);
    } else {
        let prev = ts.drop_last();
        let t = ts.last();
        assert(prev.push(t) =~= ts);
        let a = t.source_id;
        let b = t.target_id;
        lemma_root_linked(prev, x);
        lemma_root_linked(prev, a);
        lemma_root_linked(prev, b);
        lemma_linked_extend(prev, t, x, root_of(prev, x));
        if root_of(prev, x) == root_of(prev, a) {
            lemma_linked_extend(prev, t, a, root_of(prev, a));
            lemma_linked_extend(prev, t, b, root_of(prev, b));
            lemma_linked_symm(ts, a, root_of(prev, a));
            assert(is_walk(ts, seq![a, b], a, b)) by {
                assert(joins(ts[ts.len() - 1], seq![a, b][0], seq![a, b][1]));
            }
            lemma_linked_trans(ts, x, root_of(prev, x), a);
            lemma_linked_trans(ts, x, a, b);
            lemma_linked_trans(ts, x, b, root_of(prev, b));
        }
    }
}

/// The two ends of a transition share a representative once it is joined,
/// and nodes sharing one keep sharing it.
proof fn lemma_joined_same_root(ts: Seq<TransitionView>, j: int, n: int)
    requires
        0 <= j < n <= ts.len(),
    ensures
        root_of(ts.take(n), ts[j].source_id) == root_of(ts.take(n), ts[j].target_id),
    decreases n,
{
    reveal(root_of);
    let pre = ts.take(n);
    assert(pre.drop_last() =~= ts.take(n - 1));
    if n - 1 > j {
        lemma_joined_same_root(ts, j, n - 1);
    } else {
        assert(pre.last() == ts[j]);
    }
}

/// Linked nodes share a representative.
proof fn lemma_linked_same_root(ts: Seq<TransitionView>, p: Seq<Seq<char>>, x: Seq<char>, y: Seq<char>)
    requires
        is_walk(ts, p, x, y),
    ensures
        root_of(ts, x) == root_of(ts, y),
    decreases p.len(),
{
    if p.len() > 1 {
        let q = p.drop_last();
        let u = q.last();
        assert(is_walk(ts, q, x, u)) by {
            assert forall|i: int| 0 <= i < q.len() - 1 implies exists|j: int| 0 <= j < ts.len() && joins(#[trigger] ts[j], #[trigger] q[i], q[i + 1]) by {
                assert(q[i] == p[i]);
                assert(q[i + 1] == p[i + 1]);
                let j = choose|j: int| 0 <= j < ts.len() && joins(#[trigger] ts[j], #[trigger] p[i], p[i + 1]);
            }
        }
        lemma_linked_same_root(ts, q, x, u);
        let k = p.len() - 2;
        assert(p[k] == u);
        let j = choose|j: int| 0 <= j < ts.len() && joins(#[trigger] ts[j], #[trigger] p[k], p[k + 1]);
        lemma_joined_same_root(ts, j, ts.len() as int);
        assert(ts.take(ts.len() as int) =~= ts);
    }
}

/// Components are linkage: two states lie in one computed component exactly
/// when the transitions link their ids.
pub proof fn law_components_are_linkage(
    comps: Map<Seq<char>, StrSet>,
    states: Seq<AgentState>,
    ts: Seq<TransitionView>,
    x: Seq<char>,
    y: Seq<char>,
)
    requires
        groups(comps, states, states.len() as int, ts),
        is_state_id(states, states.len() as int, x),
        is_state_id(states, states.len() as int, y),
    ensures
        (exists|r: Seq<char>| #[trigger] comps.dom().contains(r) && comps[r]@.contains(x) && comps[r]@.contains(y))
            <==> linked(ts, x, y),
        root_of(ts, x) == root_of(ts, y) <==> linked(ts, x, y),
{
    let n = states.len() as int;
    lemma_root_linked(ts, x);
    lemma_root_linked(ts, y);
    if root_of(ts, x) == root_of(ts, y) {
        lemma_linked_symm(ts, y, root_of(ts, y));
        lemma_linked_trans(ts, x, root_of(ts, x), y);
    }
    if linked(ts, x, y) {
        let p = choose|p: Seq<Seq<char>>| #[trigger] is_walk(ts, p, x, y);
        lemma_linked_same_root(ts, p, x, y);
        let r = root_of(ts, x);
        let jx = choose|j: int| 0 <= j < n && #[trigger] states[j].id@ == x;
        assert(root_of(ts, states[jx].id@) == r);
        assert(comps.dom().contains(r));
        assert(comps[r]@ == members(states, n, ts, r));
        assert(comps[r]@.contains(x));
        assert(comps[r]@.contains(y));
    }
    if exists|r: Seq<char>| #[trigger] comps.dom().contains(r) && comps[r]@.contains(x) && comps[r]@.contains(y) {
        let r = choose|r: Seq<char>| #[trigger] comps.dom().contains(r) && comps[r]@.contains(x) && comps[r]@.contains(y);
        assert(members(states, n, ts, r).contains(x));
        assert(members(states, n, ts, r).contains(y));
    }
}

/// Computed components are disjoint, so `are_connected` on them tells
/// whether the two ids share a component.
pub proof fn law_components_disjoint(comps: Map<Seq<char>, StrSet>, states: Seq<AgentState>, ts: Seq<TransitionView>)
    requires
        groups(comps, states, states.len() as int, ts),
    ensures
        disjoint_members(comps),
{
    let n = states.len() as int;
    assert forall|r1: Seq<char>, r2: Seq<char>, x: Seq<char>|
        comps.dom().contains(r1) && comps.dom().contains(r2) && #[trigger] comps[r1]@.contains(x) && #[trigger] comps[r2]@.contains(x) implies r1 == r2 by {
        assert(members(states, n, ts, r1).contains(x));
        assert(members(states, n, ts, r2).contains(x));
    }
}

/// The computed components partition the states: each state id lies in
/// exactly one component, the one of its representative.
pub proof fn law_components_partition(
    comps: Map<Seq<char>, StrSet>,
    states: Seq<AgentState>,
    ts: Seq<TransitionView>,
    x: Seq<char>,
    r: Seq<char>,
)
    requires
        groups(comps, states, states.len() as int, ts),
        is_state_id(states, states.len() as int, x),
    ensures
        comps.dom().contains(root_of(ts, x)) && comps[root_of(ts, x)]@.contains(x),
        comps.dom().contains(r) && comps[r]@.contains(x) ==> r == root_of(ts, x),
{
    let n = states.len() as int;
    let j = choose|j: int| 0 <= j < n && #[trigger] states[j].id@ == x;
    assert(root_of(ts, states[j].id@) == root_of(ts, x));
    assert(comps.dom().contains(root_of(ts, x)));
    assert(members(states, n, ts, root_of(ts, x)).contains(x));
    if comps.dom().contains(r) && comps[r]@.contains(x) {
        assert(members(states, n, ts, r).contains(x));
    }
}

} // verus!
