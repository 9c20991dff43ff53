use accumulator_ads::keyset::KeySet;
use accumulator_ads::response::keyset_equal;

fn set_of(items: &[&str]) -> KeySet {
    KeySet::from_vec(items.iter().map(|s| s.to_string()).collect())
}

#[test]
fn test_is_intersected_with() {
    let s1 = set_of(&["1", "2", "3"]);
    let s2 = set_of(&["2", "2", "5"]);
    let s3 = set_of(&["5", "6"]);
    assert!(s1.is_intersected_with(&s2));
    assert!(!s1.is_intersected_with(&s3));
}

#[test]
fn test_set_union() {
    let s1 = set_of(&["1", "1", "2"]);
    let s2 = set_of(&["2", "2", "3"]);
    let s3 = set_of(&["1", "2", "3"]);
    assert!(keyset_equal(&s1.union(&s2), &s3));
}

#[test]
fn test_set_intersection() {
    let s1 = set_of(&["1", "1", "2"]);
    let s2 = set_of(&["2", "2", "3"]);
    let s3 = set_of(&["2"]);
    assert!(keyset_equal(&s1.intersection(&s2), &s3));
}

#[test]
fn test_set_difference_and_membership() {
    let s1 = set_of(&["a", "b", "c"]);
    let s2 = set_of(&["b"]);
    let d = s1.difference(&s2);
    assert!(keyset_equal(&d, &set_of(&["a", "c"])));
    assert!(d.contains("a"));
    assert!(!d.contains("b"));
    assert_eq!(d.len(), 2);
}

#[test]
fn test_set_insert_delete() {
    let mut s = KeySet::new();
    assert!(s.is_empty());
    assert!(s.insert("x".to_string()));
    assert!(!s.insert("x".to_string()));
    assert_eq!(s.len(), 1);
    assert!(s.delete("x"));
    assert!(!s.delete("x"));
    assert!(s.is_empty());
}

#[test]
fn test_set_canonical_order() {
    let s = set_of(&["pear", "apple", "fig"]);
    let names: Vec<String> = s.elems().clone();
    assert_eq!(names, vec!["apple".to_string(), "fig".to_string(), "pear".to_string()]);
}
