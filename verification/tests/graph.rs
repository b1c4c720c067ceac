//! The state space and the cycle-safe snapshot serializer.
use sp_runtime::snapshot::Json;
use sp_runtime::state::{SpError, StateSpace};
use sp_runtime::value::Value;

fn entry<'a>(j: &'a Json, key: &str) -> Option<&'a Json> {
    match j {
        Json::Object(es) => es.iter().find(|e| e.0 == key).map(|e| &e.1),
        _ => None,
    }
}

#[test]
fn set_and_get_round_trip() {
    let mut space = StateSpace::new();
    space.set("x", Value::Int(5)).unwrap();
    space.set("a.b.c", Value::Str("deep".to_string())).unwrap();
    assert_eq!(space.get("x").unwrap(), Value::Int(5));
    assert_eq!(space.get("a.b.c").unwrap(), Value::Str("deep".to_string()));
    space.set("x", Value::Bool(false)).unwrap();
    assert_eq!(space.get("x").unwrap(), Value::Bool(false));
}

#[test]
fn missing_paths_are_not_found() {
    let space = StateSpace::new();
    assert_eq!(space.get("nope"), Err(SpError::NotFound));
    assert_eq!(space.get("a.b"), Err(SpError::NotFound));
}

#[test]
fn reading_through_a_leaf_is_a_type_mismatch() {
    let mut space = StateSpace::new();
    space.set("a", Value::Int(1)).unwrap();
    assert_eq!(space.get("a.b"), Err(SpError::TypeMismatch));
}

#[test]
fn reading_an_interior_node_is_a_type_mismatch() {
    let mut space = StateSpace::new();
    space.set("a.b", Value::Int(1)).unwrap();
    assert_eq!(space.get("a"), Err(SpError::TypeMismatch));
}

#[test]
fn writing_through_a_leaf_is_rejected_unchanged() {
    let mut space = StateSpace::new();
    space.set("a", Value::Int(1)).unwrap();
    assert_eq!(space.set("a.b", Value::Int(2)), Err(SpError::TypeMismatch));
    assert_eq!(space.get("a").unwrap(), Value::Int(1));
}

#[test]
fn sibling_entries_survive_a_nested_write() {
    let mut space = StateSpace::new();
    space.set("r.one", Value::Int(1)).unwrap();
    space.set("r.two", Value::Int(2)).unwrap();
    space.set("r.one", Value::Int(10)).unwrap();
    assert_eq!(space.get("r.one").unwrap(), Value::Int(10));
    assert_eq!(space.get("r.two").unwrap(), Value::Int(2));
}

#[test]
fn snapshot_renders_scalars_and_skips_opaque_leaves() {
    let mut space = StateSpace::new();
    space.set("n", Value::Int(3)).unwrap();
    space.set("cb", Value::Opaque).unwrap();
    space.set("inner.flag", Value::Bool(true)).unwrap();
    let snap = space.snapshot();
    assert_eq!(entry(&snap, "n"), Some(&Json::Int(3)));
    assert_eq!(entry(&snap, "cb"), None);
    let inner = entry(&snap, "inner").unwrap();
    assert_eq!(entry(inner, "flag"), Some(&Json::Bool(true)));
}

#[test]
fn shared_substructure_appears_under_both_paths() {
    let mut space = StateSpace::new();
    space.set("shared.v", Value::Int(7)).unwrap();
    space.set("a.x", Value::Int(1)).unwrap();
    space.link("a.s1", "shared").unwrap();
    space.link("a.s2", "shared").unwrap();
    let snap = space.snapshot();
    let a = entry(&snap, "a").unwrap();
    let s1 = entry(a, "s1").unwrap();
    let s2 = entry(a, "s2").unwrap();
    assert_eq!(entry(s1, "v"), Some(&Json::Int(7)));
    assert_eq!(s1, s2);
}

#[test]
fn self_referential_field_is_omitted_and_terminates() {
    let mut space = StateSpace::new();
    space.set("a.x", Value::Int(1)).unwrap();
    space.link("a.me", "a").unwrap();
    let snap = space.snapshot();
    let a = entry(&snap, "a").unwrap();
    assert_eq!(entry(a, "x"), Some(&Json::Int(1)));
    assert_eq!(entry(a, "me"), None);
}

#[test]
fn longer_cycle_terminates_with_the_back_edge_cut() {
    let mut space = StateSpace::new();
    space.set("a.x", Value::Int(1)).unwrap();
    space.set("b.y", Value::Int(2)).unwrap();
    space.link("a.to_b", "b").unwrap();
    space.link("b.to_a", "a").unwrap();
    let snap = space.snapshot();
    let a = entry(&snap, "a").unwrap();
    let b_via_a = entry(a, "to_b").unwrap();
    assert_eq!(entry(b_via_a, "y"), Some(&Json::Int(2)));
    // The edge closing the cycle is omitted where it is met in progress.
    assert_eq!(entry(b_via_a, "to_a"), None);
}

#[test]
fn linking_to_a_leaf_is_rejected() {
    let mut space = StateSpace::new();
    space.set("a", Value::Int(1)).unwrap();
    assert_eq!(space.link("b", "a"), Err(SpError::TypeMismatch));
    assert_eq!(space.link("b", "missing"), Err(SpError::NotFound));
}
