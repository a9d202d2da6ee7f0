use lever_runner_carapace::gate::{GateDecision, IntentIndex};

#[test]
fn test_exact_match() {
    let mut p = IntentIndex::new();
    p.register("greet", &["hello", "hi"]);
    let exact = p.exact_match("hello");
    let r = GateDecision::decide(exact, None);
    assert!(matches!(r, GateDecision::Exact(_)));
    assert_eq!(r.entry().map(|i| p.label(i).as_str()), Some("greet"));
}

#[test]
fn test_gate_numbers() {
    let mut p = IntentIndex::new();
    p.register("test", &["exact_pattern"]);
    let r1 = GateDecision::decide(p.exact_match("exact_pattern"), Some((0, false)));
    assert_eq!(r1.gate_number(), 1);

    let miss = p.exact_match("something else entirely");
    for nearest in [None, Some((0, false)), Some((0, true))] {
        assert!(GateDecision::decide(miss, nearest).gate_number() >= 2);
    }
}

#[test]
fn test_multiple_entries() {
    let mut p = IntentIndex::new();
    p.register("greet", &["hello"]);
    p.register("weather", &["what's the weather"]);
    p.register("time", &["what time is it"]);
    assert_eq!(p.len(), 3);

    assert_eq!(p.exact_match("hello").map(|i| p.label(i).as_str()), Some("greet"));
    assert_eq!(p.exact_match("what's the weather").map(|i| p.label(i).as_str()), Some("weather"));
}

#[test]
fn test_gate1_exact_match() {
    let mut pipeline = IntentIndex::new();
    pipeline.register("greeting", &["hello", "hi there"]);
    let result = GateDecision::decide(pipeline.exact_match("hello"), None);
    assert_eq!(result, GateDecision::Exact(0));
    assert_eq!(pipeline.label(0), "greeting");
}

#[test]
fn test_empty_pipeline() {
    let pipeline = IntentIndex::new();
    let result = GateDecision::decide(pipeline.exact_match("anything"), None);
    assert!(matches!(result, GateDecision::Unresolved { .. }));
}

#[test]
fn register_returns_primary_pattern() {
    let mut p = IntentIndex::new();
    assert_eq!(p.register("a", &["first", "second"]), "first");
    assert_eq!(p.register("b", &[]), "");
    assert!(!p.is_empty());
    assert_eq!(p.len(), 2);
}

#[test]
fn exact_match_prefers_earliest_entry() {
    let mut p = IntentIndex::new();
    p.register("one", &["x", "shared"]);
    p.register("two", &["shared"]);
    assert_eq!(p.exact_match("shared"), Some(0));
    assert_eq!(p.exact_match("x "), None);
}

#[test]
fn register_label_matches_its_label() {
    let mut p = IntentIndex::new();
    p.register_label("ping");
    assert_eq!(p.exact_match("ping"), Some(0));
    assert_eq!(p.label(0), "ping");
}

#[test]
fn decide_follows_the_gates() {
    assert_eq!(GateDecision::decide(Some(2), Some((5, true))), GateDecision::Exact(2));
    assert_eq!(GateDecision::decide(None, Some((5, true))), GateDecision::Vector(5));
    assert_eq!(GateDecision::decide(None, Some((5, false))), GateDecision::Unresolved(Some(5)));
    assert_eq!(GateDecision::decide(None, None), GateDecision::Unresolved(None));
    assert_eq!(GateDecision::Vector(5).gate_number(), 2);
    assert_eq!(GateDecision::Unresolved(None).gate_number(), 3);
    assert_eq!(GateDecision::Unresolved(Some(1)).entry(), Some(1));
}

#[test]
fn registration_keeps_earlier_exact_results() {
    let mut p = IntentIndex::new();
    p.register("one", &["hello"]);
    assert_eq!(p.exact_match("bye"), None);
    p.register("two", &["hello", "bye"]);
    assert_eq!(p.exact_match("hello"), Some(0));
    assert_eq!(p.exact_match("bye"), Some(1));
}
