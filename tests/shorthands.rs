use algo_examples::shorthands::{at_idx, new_h_map};

#[test]
fn at_idx_holds_one_index() {
    let r = at_idx(3);
    assert_eq!(*r.start(), 3);
    assert_eq!(*r.end(), 3);
    assert_eq!(r.clone().count(), 1);
    assert!(r.contains(&3));
    assert!(!r.contains(&4));
    let v = vec![10, 20, 30, 40];
    assert_eq!(&v[at_idx(2)], &[30]);
}

#[test]
fn new_h_map_keeps_pairs() {
    let m = new_h_map([("a", 6), ("b", 2)]);
    assert_eq!(m.len(), 2);
    assert_eq!(m.get("a"), Some(&6));
    assert_eq!(m.get("b"), Some(&2));
    assert_eq!(m.get("c"), None);
}

#[test]
fn new_h_map_later_pair_wins() {
    let m = new_h_map([("a", 1), ("a", 7)]);
    assert_eq!(m.len(), 1);
    assert_eq!(m.get("a"), Some(&7));
    let empty = new_h_map::<str, 0>([]);
    assert!(empty.is_empty());
}
