use gaussian_binomial::bignum::clone_nats;
use gaussian_binomial::frontier::Frontier;
use num_bigint::BigUint;

#[test]
fn clone_keeps_every_number() {
    let v = vec![BigUint::from(3u64), BigUint::from(u64::MAX) + BigUint::from(1u64)];
    assert_eq!(clone_nats(&v), v);
}

#[test]
fn frontier_insert_replaces_and_remove_drops() {
    let mut f = Frontier::new();
    f.insert(1, 2, vec![BigUint::from(1u64)]);
    f.insert(1, 2, vec![BigUint::from(2u64)]);
    assert_eq!(f.get(1, 2).unwrap(), &vec![BigUint::from(2u64)]);
    assert_eq!(f.to_triples().len(), 1);
    f.remove(1, 2);
    assert!(f.get(1, 2).is_none());
    f.remove(1, 2);
    assert!(f.to_triples().is_empty());
}

#[test]
fn later_triple_wins() {
    let t = vec![
        (1usize, 1usize, vec![BigUint::from(1u64)]),
        (1usize, 1usize, vec![BigUint::from(5u64)]),
    ];
    let f = Frontier::from_triples(&t);
    assert_eq!(f.get(1, 1).unwrap(), &vec![BigUint::from(5u64)]);
}
