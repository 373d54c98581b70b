use bimap::Bimap;
use std::collections::hash_map::RandomState;
use std::collections::HashMap;

#[test]
fn new_map_is_empty() {
    let m: Bimap<u32, String> = Bimap::new();
    assert_eq!(m.len(), 0);
    assert!(m.is_empty());
    assert_eq!(m.get_fwd(&1), None);
    assert_eq!(m.get_rev("a"), None);
}

#[test]
fn with_hasher_starts_empty_and_works() {
    let mut m: Bimap<u32, String, RandomState> = Bimap::with_hasher(RandomState::new());
    assert!(m.is_empty());
    m.insert(7, "seven".to_string());
    assert_eq!(m.len(), 1);
    assert_eq!(m.get_fwd(&7), Some(&"seven".to_string()));
    assert_eq!(m.get_rev("seven"), Some(&7));
}

#[test]
fn default_map_is_empty() {
    let m: Bimap<u32, u32, RandomState> = Default::default();
    assert!(m.is_empty());
    assert_eq!(m.len(), 0);
}

#[test]
fn insert_then_lookup_round_trips() {
    let mut m: Bimap<u32, String> = Bimap::new();
    m.insert(1, "a".to_string());
    assert_eq!(m.get_fwd(&1), Some(&"a".to_string()));
    assert_eq!(m.get_rev("a"), Some(&1));
    m.insert(2, "b".to_string());
    assert_eq!(m.get_fwd(&2), Some(&"b".to_string()));
    assert_eq!(m.get_rev("b"), Some(&2));
}

#[test]
fn bijection_holds_after_a_sequence_of_operations() {
    let mut m: Bimap<u32, String> = Bimap::new();
    m.insert(1, "one".to_string());
    m.insert(2, "two".to_string());
    m.insert(3, "three".to_string());
    m.remove_fwd(&2);
    m.insert(2, "deux".to_string());
    for (k, v) in m.iter() {
        assert_eq!(m.get_fwd(k), Some(v));
        assert_eq!(m.get_rev(v), Some(k));
    }
    for (k, v) in [(1, "one"), (2, "deux"), (3, "three")] {
        assert_eq!(m.get_fwd(&k), Some(&v.to_string()));
        assert_eq!(m.get_rev(v), Some(&k));
    }
}

#[test]
fn len_matches_pairs_visible_via_iteration() {
    let mut m: Bimap<u32, u32> = Bimap::new();
    for i in 0..10 {
        m.insert(i, 100 + i);
    }
    m.remove_fwd(&3);
    m.remove_rev(&107);
    assert_eq!(m.len(), m.iter().count());
    assert_eq!(m.len(), 8);
}

#[test]
fn removal_is_symmetric() {
    let mut m: Bimap<u32, String> = Bimap::new();
    m.insert(1, "a".to_string());
    m.insert(2, "b".to_string());
    let v = m.remove_fwd(&1);
    assert_eq!(v, "a".to_string());
    assert!(!m.contains_fwd(&1));
    assert!(!m.contains_rev("a"));
    assert_eq!(m.len(), 1);
    let k = m.remove_rev(&"b".to_string());
    assert_eq!(k, 2);
    assert!(!m.contains_fwd(&2));
    assert!(!m.contains_rev("b"));
    assert_eq!(m.len(), 0);
}

#[test]
fn duplicate_key_or_value_is_rejected() {
    let mut m: Bimap<u32, String> = Bimap::new();
    assert!(m.try_insert(1, "a".to_string()));
    assert!(!m.try_insert(1, "other".to_string()));
    assert!(!m.try_insert(9, "a".to_string()));
    assert_eq!(m.len(), 1);
    assert_eq!(m.get_fwd(&1), Some(&"a".to_string()));
    assert_eq!(m.get_rev("a"), Some(&1));
    assert_eq!(m.get_fwd(&9), None);
}

#[test]
fn try_remove_reports_absence() {
    let mut m: Bimap<u32, String> = Bimap::new();
    m.insert(1, "a".to_string());
    assert_eq!(m.try_remove_fwd(&2), None);
    assert_eq!(m.try_remove_rev(&"b".to_string()), None);
    assert_eq!(m.len(), 1);
    assert_eq!(m.try_remove_fwd(&1), Some("a".to_string()));
    assert_eq!(m.len(), 0);
    m.insert(3, "c".to_string());
    assert_eq!(m.try_remove_rev(&"c".to_string()), Some(3));
    assert!(m.is_empty());
}

#[test]
fn clear_empties_fully() {
    let mut m: Bimap<u32, String> = Bimap::new();
    m.insert(1, "a".to_string());
    m.insert(2, "b".to_string());
    m.clear();
    assert_eq!(m.len(), 0);
    assert!(m.is_empty());
    assert_eq!(m.get_fwd(&1), None);
    assert_eq!(m.get_fwd(&2), None);
    assert_eq!(m.get_rev("a"), None);
    assert_eq!(m.get_rev("b"), None);
    assert!(!m.contains_fwd(&1));
    assert!(!m.contains_rev("b"));
}

#[test]
fn construction_from_hash_map_inverts_every_pair() {
    let mut fwd: HashMap<u32, String> = HashMap::new();
    fwd.insert(1, "a".to_string());
    fwd.insert(2, "b".to_string());
    let m = Bimap::from_hash_map(fwd);
    assert_eq!(m.len(), 2);
    assert_eq!(m.get_rev("a"), Some(&1));
    assert_eq!(m.get_rev("b"), Some(&2));
    assert_eq!(m.get_fwd(&1), Some(&"a".to_string()));
    assert_eq!(m.get_fwd(&2), Some(&"b".to_string()));
}

#[test]
fn scenario_insert_lookup_remove() {
    let mut m: Bimap<u32, String> = Bimap::new();
    m.insert(1, "a".to_string());
    m.insert(2, "b".to_string());
    assert_eq!(m.len(), 2);
    assert_eq!(m.get_fwd(&1), Some(&"a".to_string()));
    assert_eq!(m.get_rev("b"), Some(&2));
    let removed = m.remove_fwd(&1);
    assert_eq!(removed, "a".to_string());
    assert_eq!(m.len(), 1);
    assert!(!m.contains_rev("a"));
}

#[test]
fn borrowed_lookup_by_str_on_string_keys() {
    let mut m: Bimap<String, u32> = Bimap::new();
    m.insert("left".to_string(), 1);
    m.insert("right".to_string(), 2);
    assert!(m.contains_fwd("left"));
    assert_eq!(m.get_fwd("right"), Some(&2));
    assert_eq!(m.get_fwd("middle"), None);
    assert_eq!(m.get_rev(&1), Some(&"left".to_string()));
}

#[test]
fn iteration_yields_each_pair_once() {
    let mut m: Bimap<u32, u32> = Bimap::new();
    m.insert(1, 10);
    m.insert(2, 20);
    m.insert(3, 30);
    let mut pairs: Vec<(u32, u32)> = m.iter().map(|(k, v)| (*k, *v)).collect();
    pairs.sort();
    assert_eq!(pairs, vec![(1, 10), (2, 20), (3, 30)]);
    let mut again: Vec<(u32, u32)> = m.iter().map(|(k, v)| (*k, *v)).collect();
    again.sort();
    assert_eq!(again, pairs);
}

#[test]
fn clone_gives_an_equal_independent_map() {
    let mut m: Bimap<u32, String> = Bimap::new();
    m.insert(1, "a".to_string());
    let c = m.clone();
    m.remove_fwd(&1);
    assert_eq!(c.get_fwd(&1), Some(&"a".to_string()));
    assert_eq!(c.get_rev("a"), Some(&1));
    assert_eq!(m.get_fwd(&1), None);
}
