use rbc::quorum::Params;
use rbc::votes::{same_bytes, Votes};

#[test]
fn thresholds_for_four_and_seven() {
    let p = Params::new(4, 1).unwrap();
    assert_eq!((p.quorum(), p.weak()), (3, 2));
    let p = Params::new(7, 2).unwrap();
    assert_eq!((p.quorum(), p.weak()), (5, 3));
    let p = Params::new(10, 2).unwrap();
    assert_eq!((p.quorum(), p.weak()), (8, 3));
}

#[test]
fn votes_are_counted_per_value_and_deduplicated() {
    let mut v = Votes::new();
    let a = b"a".to_vec();
    let b = b"b".to_vec();
    assert!(v.add(1, &a));
    assert!(!v.add(1, &a));
    assert!(v.add(1, &b));
    assert!(v.add(2, &a));
    assert_eq!(v.count(&a), 2);
    assert_eq!(v.count(&b), 1);
    assert_eq!(v.count(&b"c".to_vec()), 0);
    assert_eq!(v.find(&b), Some(1));
}

#[test]
fn byte_equality() {
    assert!(same_bytes(&vec![1, 2], &vec![1, 2]));
    assert!(!same_bytes(&vec![1, 2], &vec![1, 3]));
    assert!(!same_bytes(&vec![1], &vec![1, 2]));
}
