use ouisync_core::hash::Order;
use ouisync_core::version_vector::VersionVector;

const A: [u8; 32] = [1u8; 32];
const B: [u8; 32] = [2u8; 32];

#[test]
fn first_counts_one_version_of_its_writer() {
    let vv = VersionVector::first(A);
    assert_eq!(vv.get(&A), 1);
    assert_eq!(vv.get(&B), 0);
    assert_eq!(VersionVector::new().get(&A), 0);
}

#[test]
fn increment_counts_one_more() {
    let mut vv = VersionVector::first(A);
    vv.increment(A);
    vv.increment(B);
    assert_eq!(vv.get(&A), 2);
    assert_eq!(vv.get(&B), 1);
    assert_eq!(vv.entries().len(), 2);
}

#[test]
fn compare_orders_pointwise() {
    let a = VersionVector::first(A);
    let mut ab = VersionVector::first(A);
    ab.increment(B);
    let b = VersionVector::first(B);

    assert_eq!(a.compare(&ab), Some(Order::Less));
    assert_eq!(ab.compare(&a), Some(Order::Greater));
    assert_eq!(a.compare(&a.clone()), Some(Order::Equal));
    assert_eq!(a.compare(&b), None);
    assert_eq!(b.compare(&a), None);

    assert!(a.less_than(&ab));
    assert!(!ab.less_than(&a));
    assert!(!a.less_than(&a));
    assert!(!a.less_than(&b));
    assert!(a.is_le(&a));
}

#[test]
fn a_writer_at_zero_is_the_same_as_no_entry() {
    let empty = VersionVector::new();
    let mut zero = VersionVector::new();
    zero.set(A, 0);
    assert_eq!(empty.compare(&zero), Some(Order::Equal));
    assert_eq!(zero.compare(&empty), Some(Order::Equal));
    assert!(!empty.less_than(&zero));
}

#[test]
fn clone_keeps_the_counts() {
    let mut vv = VersionVector::first(A);
    vv.set(B, 7);
    let copy = vv.clone();
    assert_eq!(copy.get(&A), 1);
    assert_eq!(copy.get(&B), 7);
}
