//! The kintsugi adjunction repair -| break: controlled damage to an agent
//! state, and its golden repair.

use vstd::prelude::*;
use vstd::wrapping::u64_specs;
use crate::keys::{texts, join_text};
use crate::knowledge::{KnowledgeSet, ItemView, item_views, enumerates, ordered_items, bucket_of, prefix_ids};
use crate::agent::{AgentState, AgentView, LifecyclePhase};
use crate::strmap::StrSet;
use crate::keys::{key_lt, lemma_key_order};

verus! {

/// A broken state: the ids it lost, and which feature buckets they hit.
pub struct BrokenState {
    pub original_id: String,
    pub lost_knowledge_ids: StrSet,
    /// One flag per feature bucket: whether a lost id falls in it.
    pub damage_vector: Vec<bool>,
}

/// The state of the damage generator after `k` steps from `seed`:
/// x(k + 1) = x(k) * 6364136223846793005 + 1, wrapping.
pub open spec fn damage_rng(seed: u64, k: nat) -> u64
    decreases k,
{
    if k == 0 {
        seed
    } else {
        u64_specs::wrapping_add(u64_specs::wrapping_mul(damage_rng(seed, (k - 1) as nat), 6364136223846793005), 1)
    }
}

/// The position, among `len` ids, that step `k` of the damage picks.
pub open spec fn damage_pick(seed: u64, k: nat, len: nat) -> int {
    ((u64_specs::wrapping_add(damage_rng(seed, k), k as u64) as usize) as nat % len) as int
}

/// The number of steps that break `len` ids with `count` damage.
pub open spec fn damage_steps(count: usize, len: nat) -> nat {
    if count < len { count as nat } else { len }
}

/// The ids that breaking a state with knowledge `m` loses: the id picked at
/// each step, ids taken in increasing order.
pub open spec fn lost_ids(m: Map<Seq<char>, ItemView>, count: usize, seed: u64) -> Set<Seq<char>> {
    Set::new(
        |id: Seq<char>|
            exists|k: nat|
                k < damage_steps(count, m.len()) && #[trigger] ordered_items(m)[damage_pick(seed, k, m.len())].id == id,
    )
}

/// The knowledge of a repaired state: the original items not lost, then the
/// golden patch's items whose ids are not yet present.
pub open spec fn repaired_knowledge(
    original: Map<Seq<char>, ItemView>,
    lost: Set<Seq<char>>,
    golden: Map<Seq<char>, ItemView>,
) -> Map<Seq<char>, ItemView> {
    golden.union_prefer_right(original.remove_keys(lost))
}

/// The state that `repair` builds.
pub open spec fn repaired_state(original_id: Seq<char>, lost: Set<Seq<char>>, original: AgentView, golden: Map<Seq<char>, ItemView>) -> AgentView {
    AgentView {
        id: original_id + ":kintsugi"@,
        phase: LifecyclePhase::Work,
        knowledge: repaired_knowledge(original.knowledge, lost, golden),
        generation: original.generation,
        parent_ids: seq![original_id + ":broken"@],
        tick: original.tick,
        feature_dim: original.feature_dim,
    }
}

/// One flag per feature bucket among `dim`: whether an id of `lost` falls in
/// it.
fn damage_flags(lost: &StrSet, dim: usize) -> (r: Vec<bool>)
    requires
        dim > 0 || lost@.len() == 0,
    ensures
        r@.len() == dim,
        forall|b: int| 0 <= b < dim ==> #[trigger] r@[b] == exists|id: Seq<char>|
            #[trigger] lost@.contains(id) && bucket_of(id, dim) == b,
{
        let mut dv: Vec<bool> = Vec::new();
        let mut z: usize = 0;
        while z < dim
            invariant
                z <= dim,
                dv@.len() == z,
                forall|b: int| 0 <= b < z ==> !dv@[b],
            decreases dim - z,
        {
            dv.push(false);
            z = z + 1;
        }
        let nl = lost.len();
        let ghost ls = lost.elem_seq();
        let mut t: usize = 0;
        while t < nl
            invariant
                nl == ls.len(),
                ls == lost.elem_seq(),
                forall|k: Seq<char>| #[trigger] lost@.contains(k) <==> ls.contains(k),
                dim > 0 || nl == 0,
                dv@.len() == dim,
                t <= nl,
                forall|b: int| 0 <= b < dim ==> #[trigger] dv@[b] == exists|u: int| 0 <= u < t && bucket_of(#[trigger] ls[u], dim) == b,
            decreases nl - t,
        {
            let h = KnowledgeSet::simple_hash(lost.elem_at(t).as_str());
            let b = (h as usize) % dim;
            let ghost before = dv@;
            dv.set(b, true);
            proof {
                assert(b == bucket_of(ls[t as int], dim));
                assert forall|c: int| 0 <= c < dim implies #[trigger] dv@[c] == exists|u: int| 0 <= u < t + 1 && bucket_of(#[trigger] ls[u], dim) == c by {
                    if exists|u: int| 0 <= u < t + 1 && bucket_of(#[trigger] ls[u], dim) == c {
                        let u = choose|u: int| 0 <= u < t + 1 && bucket_of(#[trigger] ls[u], dim) == c;
                        if u < t {
                            assert(before[c]);
                        }
                    }
                    if before[c] {
                        let u = choose|u: int| 0 <= u < t && bucket_of(#[trigger] ls[u], dim) == c;
                        assert(0 <= u < t + 1);
                    }
                }
            }
            t = t + 1;
        }
        proof {
            assert forall|b: int| 0 <= b < dim implies #[trigger] dv@[b] == exists|id: Seq<char>|
                #[trigger] lost@.contains(id) && bucket_of(id, dim) == b by {
                if dv@[b] {
                    let u = choose|u: int| 0 <= u < nl && bucket_of(#[trigger] ls[u], dim) == b;
                    assert(lost@.contains(ls[u]));
                }
                if exists|id: Seq<char>| #[trigger] lost@.contains(id) && bucket_of(id, dim) == b {
                    let id = choose|id: Seq<char>| #[trigger] lost@.contains(id) && bucket_of(id, dim) == b;
                    assert(ls.contains(id));
                    let u = choose|u: int| 0 <= u < ls.len() && ls[u] == id;
                    assert(bucket_of(ls[u], dim) == b);
                }
            }
        }
    dv
}

/// The ids lost by `count` steps of the damage generator from `seed`.
fn pick_lost(state: &AgentState, damage_count: usize, seed: u64) -> (r: StrSet)
    ensures
        r@ == lost_ids(state.knowledge@, damage_count, seed),
{
        let its = state.knowledge.items();
        let ghost vs = item_views(its@);
        let ghost m = state.knowledge@;
        let n = its.len();
        let steps = if damage_count < n { damage_count } else { n };
        let mut lost = StrSet::new();
        let mut rng: u64 = seed;
        let mut i: usize = 0;
        while i < steps
            invariant
                n == its@.len(),
                vs == item_views(its@),
                vs == ordered_items(m),
                m == state.knowledge@,
                n == m.len(),
                steps == damage_steps(damage_count, m.len()),
                steps <= n,
                i <= steps,
                rng == damage_rng(seed, i as nat),
                lost@ == Set::new(|id: Seq<char>| exists|k: nat| k < i && #[trigger] ordered_items(m)[damage_pick(seed, k, m.len())].id == id),
            decreases steps - i,
        {
            let idx = ((rng.wrapping_add(i as u64)) as usize) % n;
            proof {
                assert(idx == damage_pick(seed, i as nat, m.len()));
                assert(its@[idx as int]@ == vs[idx as int]);
            }
            let ghost before = lost@;
            lost.insert(its[idx].id.clone());
            proof {
                assert(lost@ =~= Set::new(|id: Seq<char>| exists|k: nat| k < i + 1 && #[trigger] ordered_items(m)[damage_pick(seed, k, m.len())].id == id)) by {
                    assert forall|id: Seq<char>| #[trigger] lost@.contains(id) == (exists|k: nat| k < i + 1 && #[trigger] ordered_items(m)[damage_pick(seed, k, m.len())].id == id) by {
                        if exists|k: nat| k < i + 1 && #[trigger] ordered_items(m)[damage_pick(seed, k, m.len())].id == id {
                            let k = choose|k: nat| k < i + 1 && #[trigger] ordered_items(m)[damage_pick(seed, k, m.len())].id == id;
                            if k < i {
                                assert(before.contains(id));
                            }
                        }
                        if before.contains(id) {
                            let k = choose|k: nat| k < i && #[trigger] ordered_items(m)[damage_pick(seed, k, m.len())].id == id;
                            assert(k < i + 1);
                        }
                        assert(ordered_items(m)[damage_pick(seed, i as nat, m.len())].id == its@[idx as int].id@);
                    }
                }
            }
            rng = rng.wrapping_mul(6364136223846793005).wrapping_add(1);
            i = i + 1;
        }
        proof {
            assert(lost@ =~= lost_ids(m, damage_count, seed));
        }
        lost
}

/// The kintsugi adjunction: repair -| break.
pub struct KintsugiAdjunction;

impl KintsugiAdjunction {
    /// Breaks `state` by `damage_count` steps of the seeded generator, each
    /// losing the id it picks, and marks the feature buckets of the lost ids.
    pub fn break_state(state: &AgentState, damage_count: usize, seed: u64) -> (r: BrokenState)
        requires
            state.feature_dim > 0 || damage_count == 0 || state.knowledge@.len() == 0,
        ensures
            r.original_id@ == state.id@,
            r.lost_knowledge_ids@ == lost_ids(state.knowledge@, damage_count, seed),
            r.damage_vector@.len() == state.feature_dim,
            forall|b: int| 0 <= b < state.feature_dim ==> #[trigger] r.damage_vector@[b] == exists|id: Seq<char>|
                #[trigger] r.lost_knowledge_ids@.contains(id) && bucket_of(id, state.feature_dim) == b,
    {
        let lost = pick_lost(state, damage_count, seed);
        proof {
            if state.feature_dim == 0 {
                assert(damage_steps(damage_count, state.knowledge@.len()) == 0);
                assert(lost@ =~= Set::<Seq<char>>::empty());
            }
        }
        let dv = damage_flags(&lost, state.feature_dim);
        BrokenState { original_id: state.id.clone(), lost_knowledge_ids: lost, damage_vector: dv }
    }

    /// Repairs a broken state: the original's items that were not lost, with
    /// the golden patch joined in.
    pub fn repair(broken: &BrokenState, original: &AgentState, golden_patch: &KnowledgeSet) -> (r: AgentState)
        ensures
            r@ == repaired_state(broken.original_id@, broken.lost_knowledge_ids@, original@, golden_patch@),
    {
        let its = original.knowledge.items();
        let ghost vs = item_views(its@);
        let ghost m = original.knowledge@;
        let ghost lost = broken.lost_knowledge_ids@;
        let n = its.len();
        let mut repaired = KnowledgeSet::new();
        let mut i: usize = 0;
        while i < n
            invariant
                n == its@.len(),
                vs == item_views(its@),
                enumerates(vs, m),
                m == original.knowledge@,
                lost == broken.lost_knowledge_ids@,
                i <= n,
                repaired@ == m.restrict(prefix_ids(vs, i as int).difference(lost)),
            decreases n - i,
        {
            let ghost id = vs[i as int].id;
            proof {
                assert(its@[i as int]@ == vs[i as int]);
                assert(m.dom().contains(id) && m[id] == vs[i as int]);
                assert(!prefix_ids(vs, i as int).contains(id)) by {
                    if prefix_ids(vs, i as int).contains(id) {
                        let j = choose|j: int| 0 <= j < i && #[trigger] vs[j].id == id;
                        lemma_key_order(id, id, id);
                        assert(key_lt(vs[j].id, vs[i as int].id));
                    }
                }
            }
            if !broken.lost_knowledge_ids.contains(its[i].id.as_str()) {
                repaired.insert(its[i].clone());
            }
            proof {
                assert(prefix_ids(vs, i + 1) =~= prefix_ids(vs, i as int).insert(id));
                assert(repaired@ =~= m.restrict(prefix_ids(vs, i + 1).difference(lost)));
            }
            i = i + 1;
        }
        proof {
            assert(prefix_ids(vs, n as int) =~= m.dom()) by {
                assert forall|k: Seq<char>| m.dom().contains(k) implies #[trigger] prefix_ids(vs, n as int).contains(k) by {
                    let j = choose|j: int| 0 <= j < vs.len() && #[trigger] vs[j].id == k;
                }
            }
            assert(repaired@ =~= m.remove_keys(lost));
        }
        repaired.merge(golden_patch);
        let id = join_text(broken.original_id.as_str(), ":kintsugi");
        let parent = join_text(broken.original_id.as_str(), ":broken");
        let mut parents: Vec<String> = Vec::new();
        parents.push(parent);
        proof {
            assert(texts(parents@) =~= seq![broken.original_id@ + ":broken"@]);
        }
        AgentState {
            id,
            phase: LifecyclePhase::Work,
            knowledge: repaired,
            generation: original.generation,
            parent_ids: parents,
            tick: original.tick,
            feature_dim: original.feature_dim,
        }
    }

    /// The check made of the adjunction: the repaired state holds knowledge
    /// and is in the Work phase.
    pub fn verify_adjunction(broken: &BrokenState, original: &AgentState, golden_patch: &KnowledgeSet) -> (r: bool)
        ensures
            r == (repaired_knowledge(original.knowledge@, broken.lost_knowledge_ids@, golden_patch@).len() > 0),
    {
        let repaired = Self::repair(broken, original, golden_patch);
        let n = repaired.knowledge.len();
        n > 0 && repaired.phase == LifecyclePhase::Work
    }
}

} // verus!
