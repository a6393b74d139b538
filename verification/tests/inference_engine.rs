use phonograph::inference_engine::{InferenceCache, InferenceEngine};
use phonograph::types::{NodeId, TypeId};

/// A stand-in for an inference result: the rule's name and the type
/// assignments it found.
#[derive(Clone, Debug, PartialEq)]
struct SampleResult {
    facts: Vec<(NodeId, TypeId)>,
    rule_name: String,
}

fn sample_result(rule: &str) -> SampleResult {
    SampleResult { facts: vec![(NodeId(1), TypeId(1))], rule_name: rule.to_string() }
}

#[derive(Debug)]
struct DummyRule {
    rule_name: String,
}

#[test]
fn cache_disabled_always_misses() {
    let mut cache = InferenceCache::new(0);
    cache.insert("r".into(), 1, sample_result("r"));
    assert!(cache.get("r", 1).is_none());
}

#[test]
fn cache_hit_on_exact_key() {
    let mut cache = InferenceCache::new(2);
    cache.insert("r1".into(), 5, sample_result("r1"));
    cache.insert("r2".into(), 5, sample_result("r2"));
    assert!(cache.get("r1", 5).is_some());
    assert!(cache.get("r2", 5).is_some());
}

#[test]
fn cache_miss_on_wrong_generation() {
    let mut cache = InferenceCache::new(2);
    cache.insert("r".into(), 5, sample_result("r"));
    assert!(cache.get("r", 6).is_none());
}

#[test]
fn cache_miss_on_wrong_rule_name() {
    let mut cache = InferenceCache::new(2);
    cache.insert("r".into(), 5, sample_result("r"));
    assert!(cache.get("other", 5).is_none());
}

#[test]
fn cache_lru_eviction() {
    let mut cache = InferenceCache::new(2);
    cache.insert("r1".into(), 1, sample_result("r1"));
    cache.insert("r2".into(), 1, sample_result("r2"));
    cache.insert("r3".into(), 1, sample_result("r3"));
    assert!(cache.get("r1", 1).is_none());
    assert!(cache.get("r2", 1).is_some());
    assert!(cache.get("r3", 1).is_some());
}

#[test]
fn cache_access_updates_lru_priority() {
    let mut cache = InferenceCache::new(2);
    cache.insert("r1".into(), 1, sample_result("r1"));
    cache.insert("r2".into(), 1, sample_result("r2"));
    let _ = cache.get("r1", 1);
    cache.insert("r3".into(), 1, sample_result("r3"));
    assert!(cache.get("r1", 1).is_some());
    assert!(cache.get("r2", 1).is_none());
    assert!(cache.get("r3", 1).is_some());
}

#[test]
fn cache_clear_empties_all() {
    let mut cache = InferenceCache::new(10);
    cache.insert("r1".into(), 1, sample_result("r1"));
    cache.insert("r2".into(), 1, sample_result("r2"));
    cache.clear();
    assert!(cache.get("r1", 1).is_none());
    assert!(cache.get("r2", 1).is_none());
}

#[test]
fn engine_register_and_lookup() {
    let mut engine: InferenceEngine<DummyRule, SampleResult> = InferenceEngine::new(0);
    engine.register_rule("alpha".into(), DummyRule { rule_name: "alpha".into() });
    assert!(engine.get_rule("alpha").is_some());
    assert!(engine.get_rule("beta").is_none());
}

#[test]
fn engine_unregister() {
    let mut engine: InferenceEngine<DummyRule, SampleResult> = InferenceEngine::new(0);
    engine.register_rule("alpha".into(), DummyRule { rule_name: "alpha".into() });
    assert!(engine.unregister_rule("alpha"));
    assert!(!engine.unregister_rule("alpha"));
    assert!(engine.get_rule("alpha").is_none());
}

#[test]
fn engine_rule_names_in_insertion_order() {
    let mut engine: InferenceEngine<DummyRule, SampleResult> = InferenceEngine::new(0);
    engine.register_rule("beta".into(), DummyRule { rule_name: "beta".into() });
    engine.register_rule("alpha".into(), DummyRule { rule_name: "alpha".into() });
    let names = engine.rule_names();
    assert_eq!(names, vec!["beta", "alpha"]);
}

#[test]
fn engine_replace_rule_preserves_order() {
    let mut engine: InferenceEngine<DummyRule, SampleResult> = InferenceEngine::new(0);
    engine.register_rule("a".into(), DummyRule { rule_name: "a".into() });
    engine.register_rule("b".into(), DummyRule { rule_name: "b".into() });
    engine.register_rule("a".into(), DummyRule { rule_name: "a".into() });
    let names = engine.rule_names();
    assert_eq!(names, vec!["a", "b"]);
}

// --- further cases ---

#[test]
fn cache_hit_returns_the_stored_result() {
    let mut cache = InferenceCache::new(3);
    cache.insert("r".into(), 7, sample_result("r"));
    assert_eq!(cache.get("r", 7), Some(sample_result("r")));
}

#[test]
fn cache_replacing_a_key_does_not_evict() {
    let mut cache = InferenceCache::new(2);
    cache.insert("r1".into(), 1, sample_result("r1"));
    cache.insert("r2".into(), 1, sample_result("r2"));
    cache.insert("r1".into(), 1, sample_result("again"));
    assert_eq!(cache.get("r1", 1), Some(sample_result("again")));
    assert!(cache.get("r2", 1).is_some());
}

#[test]
fn cache_same_rule_different_generations() {
    let mut cache = InferenceCache::new(2);
    cache.insert("r".into(), 1, sample_result("one"));
    cache.insert("r".into(), 2, sample_result("two"));
    assert_eq!(cache.get("r", 1), Some(sample_result("one")));
    assert_eq!(cache.get("r", 2), Some(sample_result("two")));
    // Generation 1 was used first: it makes room for generation 3.
    let _ = cache.get("r", 2);
    cache.insert("r".into(), 3, sample_result("three"));
    assert!(cache.get("r", 1).is_none());
}

#[test]
fn engine_caches_and_keeps_provenance() {
    let mut engine: InferenceEngine<DummyRule, SampleResult> = InferenceEngine::new(1);
    engine.cache_insert("r".into(), 4, sample_result("r"));
    assert_eq!(engine.cache_get("r", 4), Some(sample_result("r")));
    assert!(engine.cache_get("r", 5).is_none());
    engine.provenance_mut().record(phonograph::inference::InferredEntity::Node(NodeId(9)), "r", 4);
    assert!(engine.provenance().is_inferred(&phonograph::inference::InferredEntity::Node(NodeId(9))));
    let rule = engine.get_rule("r");
    assert!(rule.is_none());
    engine.register_rule("r".into(), DummyRule { rule_name: "r".into() });
    assert_eq!(engine.get_rule("r").unwrap().rule_name, "r");
}
