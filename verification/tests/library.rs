use lau_agent_lifecycle::agent::{AgentState, LifecyclePhase, Transition};
use lau_agent_lifecycle::components::ConnectedComponents;
use lau_agent_lifecycle::conservation::ConservationFunctor;
use lau_agent_lifecycle::diagram::{sunset, verify_knowledge_preservation, FilteredDiagram};
use lau_agent_lifecycle::generation::GenerationTracker;
use lau_agent_lifecycle::keys::{compare_keys, join_decimal, join_text, same_text, KeyOrder};
use lau_agent_lifecycle::kintsugi::KintsugiAdjunction;
use lau_agent_lifecycle::knowledge::{KnowledgeItem, KnowledgeSet};
use lau_agent_lifecycle::plato::PlatoLifecycle;
use lau_agent_lifecycle::spawn::{spawn, SharedInterface};
use lau_agent_lifecycle::strmap::StrSet;

fn item(id: &str, content: &str, domain: &str) -> KnowledgeItem {
    KnowledgeItem::new(id, content, domain)
}

fn ids_of(ks: &KnowledgeSet) -> Vec<String> {
    ks.items().iter().map(|k| k.id.clone()).collect()
}

fn set_of(ids: &[&str]) -> StrSet {
    StrSet::from_vec(ids.iter().map(|s| s.to_string()).collect())
}

// ─── Hash and feature counts ───────────────────────────────────────

#[test]
fn simple_hash_exact_values() {
    assert_eq!(KnowledgeSet::simple_hash(""), 5381);
    assert_eq!(KnowledgeSet::simple_hash("a"), 177670);
    assert_eq!(KnowledgeSet::simple_hash("abc"), 193485963);
    assert_eq!(KnowledgeSet::simple_hash("k1"), 5863489);
    assert_eq!(KnowledgeSet::simple_hash("k2"), 5863490);
}

#[test]
fn simple_hash_wraps_on_long_input() {
    let long = "z".repeat(40);
    let mut h: u64 = 5381;
    for b in long.bytes() {
        h = h.wrapping_mul(33).wrapping_add(b as u64);
    }
    assert_eq!(KnowledgeSet::simple_hash(&long), h);
}

#[test]
fn feature_counts_buckets_by_hash() {
    let ks = KnowledgeSet::from_items(vec![
        item("k1", "a", "d"),
        item("k2", "b", "d"),
        item("k3", "c", "d"),
    ]);
    let v = ks.feature_counts(16);
    assert_eq!(v.len(), 16);
    assert_eq!(v[1], 1);
    assert_eq!(v[2], 1);
    assert_eq!(v[3], 1);
    assert_eq!(v.iter().sum::<usize>(), 3);
    let folded = ks.feature_counts(1);
    assert_eq!(folded, vec![3]);
}

#[test]
fn feature_counts_of_empty_set_with_zero_dimension() {
    let ks = KnowledgeSet::new();
    assert!(ks.feature_counts(0).is_empty());
    assert_eq!(ks.feature_counts(4), vec![0, 0, 0, 0]);
}

#[test]
fn agent_feature_counts_use_feature_dim() {
    let ks = KnowledgeSet::from_items(vec![item("k1", "a", "d"), item("k2", "b", "d")]);
    let s = AgentState::new("a", LifecyclePhase::Work).with_knowledge(ks).with_feature_dim(2);
    assert_eq!(s.feature_counts(), vec![1, 1]);
}

// ─── KnowledgeSet ───────────────────────────────────────────────────

#[test]
fn items_come_in_id_order() {
    let ks = KnowledgeSet::from_items(vec![
        item("k3", "c", "d"),
        item("k1", "a", "d"),
        item("k2", "b", "d"),
    ]);
    assert_eq!(ids_of(&ks), vec!["k1", "k2", "k3"]);
}

#[test]
fn insert_keeps_first_item_for_an_id() {
    let mut ks = KnowledgeSet::new();
    assert!(ks.insert(item("k1", "first", "d")));
    assert!(!ks.insert(item("k1", "second", "d")));
    assert_eq!(ks.get_item("k1").unwrap().content, "first");
    assert!(ks.get_item("k9").is_none());
}

#[test]
fn merge_returns_zero_when_nothing_is_new() {
    let mut a = KnowledgeSet::from_items(vec![item("k1", "a", "d")]);
    let b = a.clone();
    assert_eq!(a.merge(&b), 0);
    assert_eq!(a.len(), 1);
}

#[test]
fn merge_is_union_of_ids() {
    let mut a = KnowledgeSet::from_items(vec![item("k1", "a", "d"), item("k2", "b", "d")]);
    let b = KnowledgeSet::from_items(vec![item("k2", "other", "d"), item("k3", "c", "d")]);
    assert_eq!(a.merge(&b), 1);
    assert_eq!(ids_of(&a), vec!["k1", "k2", "k3"]);
    assert_eq!(a.get_item("k2").unwrap().content, "b");
}

#[test]
fn deduplicate_keeps_smallest_id() {
    let mut ks = KnowledgeSet::from_items(vec![
        item("k2", "same", "d"),
        item("k1", "same", "d"),
        item("k3", "same", "e"),
        item("k4", "other", "d"),
    ]);
    assert_eq!(ks.deduplicate(), 1);
    assert_eq!(ids_of(&ks), vec!["k1", "k3", "k4"]);
}

#[test]
fn deduplicate_twice_removes_nothing_more() {
    let mut ks = KnowledgeSet::from_items(vec![
        item("a", "x", "d"),
        item("b", "x", "d"),
        item("c", "x", "d"),
    ]);
    assert_eq!(ks.deduplicate(), 2);
    assert_eq!(ks.deduplicate(), 0);
    assert_eq!(ids_of(&ks), vec!["a"]);
}

#[test]
fn domain_filter_of_unknown_domain_is_empty() {
    let ks = KnowledgeSet::from_items(vec![item("k1", "a", "math")]);
    assert!(ks.domain_filter("art").is_empty());
}

#[test]
fn unique_against_itself_is_empty() {
    let ks = KnowledgeSet::from_items(vec![item("k1", "a", "d"), item("k2", "b", "d")]);
    assert!(ks.unique_against(&ks).is_empty());
}

#[test]
fn redundant_by_same_id_across_domains() {
    let a = item("k1", "x", "math");
    let b = item("k1", "y", "art");
    assert!(a.is_redundant_with(&b));
    let c = item("k2", "x", "art");
    assert!(!a.is_redundant_with(&c));
}

// ─── Keys ───────────────────────────────────────────────────────────

#[test]
fn keys_order_by_bytes() {
    assert!(matches!(compare_keys("a", "b"), KeyOrder::Before));
    assert!(matches!(compare_keys("b", "a"), KeyOrder::After));
    assert!(matches!(compare_keys("ab", "ab"), KeyOrder::Same));
    assert!(matches!(compare_keys("a", "ab"), KeyOrder::Before));
    assert!(matches!(compare_keys("Z", "a"), KeyOrder::Before));
    assert!(same_text("x", "x"));
    assert!(!same_text("x", "y"));
}

#[test]
fn join_helpers_build_ids() {
    assert_eq!(join_text("agent", ":sunset"), "agent:sunset");
    assert_eq!(join_decimal("a", ":", 0), "a:0");
    assert_eq!(join_decimal("a", ":", 1234567890), "a:1234567890");
    assert_eq!(join_decimal("g", "", u64::MAX), format!("g{}", u64::MAX));
}

// ─── Transitions and diagrams ───────────────────────────────────────

#[test]
fn transition_counts_exact() {
    let s = AgentState::new("s", LifecyclePhase::Work)
        .with_knowledge(KnowledgeSet::from_items(vec![item("k1", "a", "d"), item("k2", "b", "d")]));
    let t = AgentState::new("t", LifecyclePhase::Work)
        .with_knowledge(KnowledgeSet::from_items(vec![item("k2", "b", "d"), item("k3", "c", "d"), item("k4", "e", "d")]));
    let tr = Transition::new(&s, &t, "step");
    assert_eq!(tr.knowledge_preserved, 1);
    assert_eq!(tr.knowledge_added, 2);
    assert_eq!(tr.source_id, "s");
    assert_eq!(tr.target_id, "t");
    assert_eq!(tr.label, "step");
    assert!(!tr.is_monotone(&s, &t));
}

#[test]
fn tick_sets_next_tick_from_previous() {
    let s0 = AgentState::new("s0", LifecyclePhase::Birth).with_tick(7);
    let mut d = FilteredDiagram::chain(s0);
    let s1 = AgentState::new("s1", LifecyclePhase::Work).with_tick(100);
    let t = d.tick(s1, "w").tick;
    assert_eq!(t, 8);
    assert_eq!(d.transitions.len(), 1);
    assert_eq!(d.length(), 2);
}

#[test]
fn colimit_names_and_parents() {
    let s0 = AgentState::new("s0", LifecyclePhase::Birth)
        .with_knowledge(KnowledgeSet::from_items(vec![item("k1", "a", "d")]))
        .with_generation(3);
    let mut d = FilteredDiagram::chain(s0);
    let s1 = AgentState::new("s1", LifecyclePhase::Work)
        .with_knowledge(KnowledgeSet::from_items(vec![item("k2", "a", "d")]))
        .with_generation(3);
    d.tick(s1, "w");
    let c = d.colimit();
    assert_eq!(c.id, "s1:sunset");
    assert_eq!(c.parent_ids, vec!["s1".to_string()]);
    assert_eq!(c.phase, LifecyclePhase::Sunset);
    assert_eq!(c.generation, 3);
    assert_eq!(c.tick, 1);
    // k2 duplicates k1 in content and domain, so only k1 is left
    assert_eq!(ids_of(&c.knowledge), vec!["k1"]);
}

#[test]
fn sunset_reports_lost_preservation_on_redundancy() {
    let s0 = AgentState::new("s0", LifecyclePhase::Birth)
        .with_knowledge(KnowledgeSet::from_items(vec![item("k1", "a", "d"), item("k2", "a", "d")]));
    let d = FilteredDiagram::chain(s0);
    let r = sunset(&d);
    assert_eq!(r.source_count, 1);
    assert_eq!(r.knowledge_before_total, 2);
    assert_eq!(r.knowledge_after_total, 1);
    assert_eq!(r.redundancy_removed, 1);
    assert!(!r.unique_knowledge_preserved);
    assert!(!verify_knowledge_preservation(&d, &r.sunset_state));
    assert_eq!(r.sunset_state.parent_ids, vec!["s0".to_string()]);
}

#[test]
fn sunset_counts_every_state_knowledge() {
    let s0 = AgentState::new("s0", LifecyclePhase::Birth)
        .with_knowledge(KnowledgeSet::from_items(vec![item("k1", "a", "d")]));
    let mut d = FilteredDiagram::chain(s0);
    let s1 = AgentState::new("s1", LifecyclePhase::Work)
        .with_knowledge(KnowledgeSet::from_items(vec![item("k1", "a", "d"), item("k2", "b", "d")]));
    d.tick(s1, "w");
    let r = sunset(&d);
    assert_eq!(r.knowledge_before_total, 3);
    assert_eq!(r.knowledge_after_total, 2);
    assert_eq!(r.redundancy_removed, 0);
    assert!(r.unique_knowledge_preserved);
    assert_eq!(r.sunset_state.parent_ids, vec!["s0".to_string(), "s1".to_string()]);
}

// ─── Spawn ──────────────────────────────────────────────────────────

#[test]
fn spawn_provenance_exact() {
    let p1 = AgentState::new("p1", LifecyclePhase::Work)
        .with_generation(2)
        .with_knowledge(KnowledgeSet::from_items(vec![item("k1", "a", "d"), item("k2", "b", "d")]));
    let p2 = AgentState::new("p2", LifecyclePhase::Work)
        .with_generation(5)
        .with_knowledge(KnowledgeSet::from_items(vec![item("k2", "b", "d"), item("k3", "c", "d")]));
    let iface = SharedInterface::new("d", set_of(&["k2"]));
    let r = spawn(&p1, &p2, &iface, "child");
    let child = &r.child;
    assert_eq!(child.id, "child");
    assert_eq!(child.generation, 6);
    assert_eq!(child.phase, LifecyclePhase::Birth);
    assert_eq!(child.parent_ids, vec!["p1".to_string(), "p2".to_string()]);
    assert_eq!(ids_of(&child.knowledge), vec!["k1", "k2", "k3"]);
    assert_eq!(child.knowledge.get_item("k2").unwrap().provenance, vec!["p1".to_string(), "p2".to_string()]);
    assert_eq!(child.knowledge.get_item("k1").unwrap().provenance, vec!["p1".to_string()]);
    assert_eq!(child.knowledge.get_item("k3").unwrap().provenance, vec!["p2".to_string()]);
    assert_eq!(r.crossover_count, 1);
    assert_eq!(r.parent1_unique, 1);
    assert_eq!(r.parent2_unique, 1);
    assert_eq!(r.inherited_from_p1, 1);
    assert_eq!(r.inherited_from_p2, 1);
}

#[test]
fn spawn_interface_item_unique_to_first_parent() {
    let p1 = AgentState::new("p1", LifecyclePhase::Work)
        .with_knowledge(KnowledgeSet::from_items(vec![item("k1", "a", "d")]));
    let p2 = AgentState::new("p2", LifecyclePhase::Work);
    let iface = SharedInterface::new("d", set_of(&["k1", "missing"]));
    let r = spawn(&p1, &p2, &iface, "c");
    // the crossover copy comes first, so it keeps both parents
    assert_eq!(r.child.knowledge.get_item("k1").unwrap().provenance, vec!["p1".to_string(), "p2".to_string()]);
    assert_eq!(r.crossover_count, 1);
    assert_eq!(r.inherited_from_p1, 1);
    assert_eq!(r.inherited_from_p2, 0);
    assert_eq!(r.child.knowledge.len(), 1);
}

#[test]
fn shared_interface_empty() {
    let e = SharedInterface::empty();
    assert!(e.is_empty());
    assert_eq!(e.len(), 0);
    assert_eq!(e.domain, "");
}

// ─── Kintsugi ───────────────────────────────────────────────────────

#[test]
fn break_state_exact_choice() {
    let ks = KnowledgeSet::from_items(vec![item("k1", "a", "d"), item("k2", "b", "d"), item("k3", "c", "d")]);
    let s = AgentState::new("s", LifecyclePhase::Work).with_knowledge(ks).with_feature_dim(16);
    let b = KintsugiAdjunction::break_state(&s, 2, 42);
    assert_eq!(b.original_id, "s");
    assert_eq!(b.lost_knowledge_ids.len(), 1);
    assert!(b.lost_knowledge_ids.contains("k1"));
    assert_eq!(b.damage_vector.len(), 16);
    for (i, d) in b.damage_vector.iter().enumerate() {
        assert_eq!(*d, i == 1);
    }
}

#[test]
fn break_state_count_above_size_is_capped() {
    let ks = KnowledgeSet::from_items(vec![item("k1", "a", "d"), item("k2", "b", "d")]);
    let s = AgentState::new("s", LifecyclePhase::Work).with_knowledge(ks);
    let b = KintsugiAdjunction::break_state(&s, 50, 0);
    assert!(b.lost_knowledge_ids.len() <= 2);
    assert!(b.lost_knowledge_ids.len() >= 1);
    assert_eq!(b.damage_vector.len(), 64);
}

#[test]
fn break_state_of_empty_knowledge_loses_nothing() {
    let s = AgentState::new("s", LifecyclePhase::Work).with_feature_dim(0);
    let b = KintsugiAdjunction::break_state(&s, 3, 9);
    assert!(b.lost_knowledge_ids.is_empty());
    assert!(b.damage_vector.is_empty());
}

#[test]
fn repair_names_and_restores() {
    let ks = KnowledgeSet::from_items(vec![item("k1", "a", "d"), item("k2", "b", "d"), item("k3", "c", "d")]);
    let s = AgentState::new("s", LifecyclePhase::Work).with_knowledge(ks).with_generation(4).with_tick(9);
    let b = KintsugiAdjunction::break_state(&s, 2, 42);
    let patch = KnowledgeSet::from_items(vec![item("k1", "golden", "d"), item("k2", "ignored", "d")]);
    let r = KintsugiAdjunction::repair(&b, &s, &patch);
    assert_eq!(r.id, "s:kintsugi");
    assert_eq!(r.parent_ids, vec!["s:broken".to_string()]);
    assert_eq!(r.phase, LifecyclePhase::Work);
    assert_eq!(r.generation, 4);
    assert_eq!(r.tick, 9);
    assert_eq!(ids_of(&r.knowledge), vec!["k1", "k2", "k3"]);
    assert_eq!(r.knowledge.get_item("k1").unwrap().content, "golden");
    assert_eq!(r.knowledge.get_item("k2").unwrap().content, "b");
}

#[test]
fn adjunction_fails_when_nothing_is_left() {
    let s = AgentState::new("s", LifecyclePhase::Work);
    let b = KintsugiAdjunction::break_state(&s, 0, 1);
    assert!(!KintsugiAdjunction::verify_adjunction(&b, &s, &KnowledgeSet::new()));
}

// ─── Components ─────────────────────────────────────────────────────

#[test]
fn components_rooted_outside_the_states() {
    let states = vec![AgentState::new("a", LifecyclePhase::Work), AgentState::new("b", LifecyclePhase::Work)];
    let x = AgentState::new("x", LifecyclePhase::Work);
    let t = Transition::new(&states[0], &x, "out");
    let cc = ConnectedComponents::compute(&states, &[t]);
    assert_eq!(cc.count(), 2);
    assert!(cc.components.contains_key("x"));
    assert!(cc.components.contains_key("b"));
    assert!(!cc.components.contains_key("a"));
    assert!(!cc.are_connected("a", "b"));
    assert!(cc.component_of("x").is_none());
}

#[test]
fn components_join_through_chains() {
    let states = vec![
        AgentState::new("a", LifecyclePhase::Work),
        AgentState::new("b", LifecyclePhase::Work),
        AgentState::new("c", LifecyclePhase::Work),
    ];
    let t1 = Transition::new(&states[0], &states[1], "ab");
    let t2 = Transition::new(&states[2], &states[0], "ca");
    let cc = ConnectedComponents::compute(&states, &[t1, t2]);
    assert_eq!(cc.count(), 1);
    assert!(cc.are_connected("c", "b"));
    assert_eq!(cc.component_of("a").unwrap().len(), 3);
}

// ─── Conservation ───────────────────────────────────────────────────

#[test]
fn map_state_records_key_with_count() {
    let s = AgentState::new("a", LifecyclePhase::Work)
        .with_knowledge(KnowledgeSet::from_items(vec![item("k1", "x", "d1"), item("k2", "y", "d2")]));
    let mut cf = ConservationFunctor::new();
    let sig = cf.map_state(&s);
    assert_eq!(sig.knowledge_count, 2);
    assert_eq!(sig.domains, 2);
    assert!(cf.discrete_cat.contains("a:2"));
    assert_eq!(cf.discrete_cat.len(), 1);
}

#[test]
fn signature_counts_distinct_provenance() {
    let ks = KnowledgeSet::from_items(vec![
        item("k1", "x", "d").with_provenance(vec!["p".to_string(), "q".to_string()]),
        item("k2", "y", "d").with_provenance(vec!["q".to_string()]),
    ]);
    let s = AgentState::new("a", LifecyclePhase::Seed).with_knowledge(ks).with_generation(2);
    let sig = s.conservation_signature();
    assert_eq!(sig.total_provenance, 2);
    assert_eq!(sig.domains, 1);
    assert_eq!(sig.generation, 2);
    assert_eq!(sig.phase, LifecyclePhase::Seed);
}

#[test]
fn is_invariant_without_mapping_holds() {
    let a = AgentState::new("a", LifecyclePhase::Work)
        .with_knowledge(KnowledgeSet::from_items(vec![item("k1", "x", "d1"), item("k2", "y", "d2")]));
    let b = AgentState::new("b", LifecyclePhase::Work);
    let mut cf = ConservationFunctor::new();
    assert!(cf.is_invariant(&a, &b));
    cf.map_state(&a);
    cf.map_state(&b);
    assert!(!cf.is_invariant(&a, &b));
}

// ─── Generations ────────────────────────────────────────────────────

#[test]
fn lineage_depth_first_order() {
    let mut tr = GenerationTracker::new();
    tr.register(&AgentState::new("a", LifecyclePhase::Birth).with_parents(vec!["root".to_string()]));
    tr.register(&AgentState::new("b", LifecyclePhase::Birth));
    tr.register(&AgentState::new("c", LifecyclePhase::Birth).with_parents(vec!["a".to_string(), "b".to_string()]));
    assert_eq!(tr.lineage_of("c"), vec!["c", "b", "a", "root"]);
    assert!(tr.is_descendant_of("c", "root"));
    assert!(!tr.is_descendant_of("a", "b"));
    assert_eq!(tr.lineage_of("nobody"), vec!["nobody"]);
}

#[test]
fn lineage_with_cycle_terminates() {
    let mut tr = GenerationTracker::new();
    tr.register(&AgentState::new("a", LifecyclePhase::Birth).with_parents(vec!["b".to_string()]));
    tr.register(&AgentState::new("b", LifecyclePhase::Birth).with_parents(vec!["a".to_string()]));
    assert_eq!(tr.lineage_of("a"), vec!["a", "b"]);
    assert!(tr.is_descendant_of("b", "a"));
}

#[test]
fn register_replaces_entry_and_keeps_max_generation() {
    let mut tr = GenerationTracker::new();
    tr.register(&AgentState::new("a", LifecyclePhase::Birth).with_generation(5));
    tr.register(&AgentState::new("a", LifecyclePhase::Birth).with_generation(1));
    assert_eq!(tr.lineage_size(), 1);
    assert_eq!(tr.max_generation, 5);
    assert_eq!(tr.lineage.get("a").unwrap().generation, 1);
    tr.record_mutation("a");
    tr.record_mutation("ghost");
    assert_eq!(tr.lineage.get("a").unwrap().mutation_count, 1);
}

#[test]
fn diversity_skips_states_without_knowledge() {
    let tr = GenerationTracker::new();
    let s0 = AgentState::new("a", LifecyclePhase::Work).with_generation(0);
    let s1 = AgentState::new("b", LifecyclePhase::Work)
        .with_generation(1)
        .with_knowledge(KnowledgeSet::from_items(vec![item("k1", "x", "m"), item("k2", "y", "m")]));
    let d = tr.diversity(&[s0, s1]);
    assert_eq!(d.len(), 1);
    assert_eq!(d.get(&1), Some(&1));
}

// ─── PLATO ──────────────────────────────────────────────────────────

#[test]
fn plato_ids_follow_ticks() {
    let ks = KnowledgeSet::from_items(vec![item("k1", "a", "d")]);
    let mut p = PlatoLifecycle::birth("x", ks, 2);
    p.work(vec![item("k2", "b", "d")], "w1");
    p.work(vec![item("k1", "changed", "d")], "w2");
    assert_eq!(p.current().id, "x:t2");
    assert_eq!(p.current().tick, 2);
    assert_eq!(p.current().knowledge.get_item("k1").unwrap().content, "a");
    let seed = p.seed();
    assert_eq!(seed.id, "x:seed:g3");
    assert_eq!(seed.generation, 3);
    assert_eq!(seed.phase, LifecyclePhase::Seed);
    assert_eq!(seed.parent_ids, vec!["x".to_string()]);
    assert_eq!(ids_of(&seed.knowledge), vec!["k1", "k2"]);
}

#[test]
fn plato_work_keeps_chain_monotone() {
    let mut p = PlatoLifecycle::birth("m", KnowledgeSet::new(), 0);
    p.work(vec![item("k1", "a", "d")], "w");
    p.work(vec![], "idle");
    assert!(p.diagram.verify_monotonicity());
    let r = p.sunset();
    assert!(r.unique_knowledge_preserved);
    assert_eq!(r.sunset_state.id, "m:t2:sunset");
}
