use gaussian_binomial::engine::{coef, holds_diagonal, EngineError, GaussianBinomial};
use gaussian_binomial::flags::FlagIndex;
use gaussian_binomial::frontier::Frontier;
use gaussian_binomial::key::Key;
use num_bigint::BigUint;

fn big(v: &[u64]) -> Vec<BigUint> {
    v.iter().map(|&x| BigUint::from(x)).collect()
}

fn fresh() -> GaussianBinomial {
    GaussianBinomial::from(FlagIndex::new())
}

fn binomial(a: u64, b: u64) -> BigUint {
    let mut r = BigUint::from(1u64);
    for i in 0..b {
        r = r * BigUint::from(a - i) / BigUint::from(i + 1);
    }
    r
}

#[test]
fn key_new_holds_coordinates() {
    let k = Key::new(3, 5);
    assert_eq!(k.m, 3);
    assert_eq!(k.n, 5);
    assert_eq!(k, Key { m: 3, n: 5 });
}

#[test]
fn base_case_is_one() {
    let mut gb = fresh();
    let r = gb.compute(0, 0, None).unwrap();
    assert_eq!(r, big(&[1]));
    assert!(gb.is_cached(0, 0));
}

#[test]
fn compute_to_one() {
    let mut gb = fresh();
    let r = gb.compute(0, 1, None).unwrap();
    assert_eq!(r, big(&[1, 1]));
    assert_eq!(r.iter().sum::<BigUint>(), BigUint::from(2u64));
}

#[test]
fn compute_to_two() {
    let mut gb = fresh();
    let r = gb.compute(0, 2, None).unwrap();
    assert_eq!(r, big(&[1, 1, 2, 1, 1]));
    assert_eq!(r.iter().sum::<BigUint>(), BigUint::from(6u64));
}

#[test]
fn compute_to_three() {
    let mut gb = fresh();
    let r = gb.compute(0, 3, None).unwrap();
    assert_eq!(r.len(), 10);
    assert_eq!(r.iter().sum::<BigUint>(), BigUint::from(20u64));
    assert_eq!(r, big(&[1, 1, 2, 3, 3, 3, 3, 2, 1, 1]));
}

#[test]
fn boundary_rows_are_ones() {
    let map = Frontier::new();
    for n in 1..12usize {
        let ones = vec![BigUint::from(1u64); n + 1];
        assert_eq!(coef(1, n, &map), ones);
        assert_eq!(coef(n, 1, &map), ones);
    }
    let mut gb = fresh();
    gb.compute(0, 7, None).unwrap();
    let ones = vec![BigUint::from(1u64); 8];
    assert_eq!(gb.frontier.get(1, 7).unwrap(), &ones);
    assert_eq!(gb.frontier.get(7, 1).unwrap(), &ones);
}

#[test]
fn symmetry_on_a_diagonal() {
    for t in 1..9usize {
        let mut gb = fresh();
        gb.compute(0, t, None).unwrap();
        for a in 1..=t {
            assert_eq!(gb.frontier.get(a, t).unwrap(), gb.frontier.get(t, a).unwrap());
        }
    }
}

#[test]
fn recurrence_between_diagonals() {
    let mut prev = fresh();
    prev.compute(0, 5, None).unwrap();
    let mut next = fresh();
    next.compute(0, 6, None).unwrap();
    let n = 6usize;
    for m in 2..=6usize {
        let v = next.frontier.get(m, n).unwrap();
        let lower = next.frontier.get(m - 1, n).unwrap();
        let left = if m == 6 {
            next.frontier.get(6, 5).unwrap()
        } else {
            prev.frontier.get(m, 5).unwrap()
        };
        assert_eq!(v.len(), m * n + 1);
        for l in 0..=m * n {
            let mut e = BigUint::from(0u64);
            if l >= n && l - n < lower.len() {
                e += &lower[l - n];
            }
            if l < left.len() {
                e += &left[l];
            }
            assert_eq!(v[l], e);
        }
    }
}

#[test]
fn coef_combines_two_vectors() {
    let mut map = Frontier::new();
    map.insert(1, 2, big(&[1, 1, 1]));
    map.insert(2, 1, big(&[1, 1, 1]));
    assert_eq!(coef(2, 2, &map), big(&[1, 1, 2, 1, 1]));
}

#[test]
fn sums_are_binomials() {
    for t in 0..10usize {
        let mut gb = fresh();
        let r = gb.compute(0, t, None).unwrap();
        assert_eq!(r.iter().sum::<BigUint>(), binomial(2 * t as u64, t as u64));
        for a in 1..=t {
            let v = gb.frontier.get(a, t).unwrap();
            assert_eq!(v.iter().sum::<BigUint>(), binomial((a + t) as u64, a as u64));
        }
    }
}

#[test]
fn frontier_keeps_only_the_last_diagonal() {
    let mut gb = fresh();
    gb.compute(0, 4, None).unwrap();
    assert!(gb.frontier.get(0, 0).is_some());
    for a in 1..=4usize {
        assert!(gb.frontier.get(a, 4).is_some());
        assert!(gb.frontier.get(4, a).is_some());
    }
    for a in 1..=3usize {
        assert!(gb.frontier.get(a, 3).is_none());
        assert!(gb.frontier.get(3, a).is_none());
    }
    assert!(holds_diagonal(&gb.frontier, 4));
    assert!(!holds_diagonal(&gb.frontier, 3));
}

#[test]
fn flags_grow_with_every_diagonal() {
    let mut gb = fresh();
    gb.compute(0, 3, None).unwrap();
    for t in 1..=3usize {
        assert!(gb.flags.diagonal_complete(t));
        for a in 1..=t {
            assert!(gb.is_cached(a, t));
            assert!(gb.is_cached(t, a));
        }
    }
    assert!(gb.is_cached(0, 0));
    assert!(!gb.is_cached(0, 1));
    assert!(!gb.flags.diagonal_complete(4));
    assert!(gb.flags.diagonal_complete(0));
    assert!(!FlagIndex::new().diagonal_complete(0));
}

#[test]
fn resumed_run_matches_fresh_run() {
    let mut first = fresh();
    first.compute(0, 3, None).unwrap();
    let snapshot = Frontier::from_triples(&first.frontier.to_triples());
    let mut resumed = GaussianBinomial::from(FlagIndex::from_triples(&first.flags.to_triples()).unwrap());
    let a = resumed.compute(3, 7, Some(snapshot)).unwrap();
    let mut whole = fresh();
    let b = whole.compute(0, 7, None).unwrap();
    assert_eq!(a, b);
}

#[test]
fn resume_at_the_same_diagonal_returns_its_vector() {
    let mut first = fresh();
    let r = first.compute(0, 2, None).unwrap();
    let snapshot = Frontier::from_triples(&first.frontier.to_triples());
    let again = first.compute(2, 2, Some(snapshot)).unwrap();
    assert_eq!(again, r);
}

#[test]
fn ordering_violation_is_reported() {
    let mut gb = fresh();
    assert_eq!(gb.compute(2, 4, Some(Frontier::new())), Err(EngineError::OrderingViolation));
    gb.compute(0, 2, None).unwrap();
    assert_eq!(gb.compute(3, 5, None), Err(EngineError::OrderingViolation));
}

#[test]
fn missing_checkpoint_is_reported() {
    let mut gb = fresh();
    gb.compute(0, 2, None).unwrap();
    assert_eq!(gb.compute(2, 3, None), Err(EngineError::MissingCheckpoint));
}

#[test]
fn corrupt_checkpoint_is_reported() {
    let mut gb = fresh();
    gb.compute(0, 3, None).unwrap();
    let mut short = Frontier::from_triples(&gb.frontier.to_triples());
    short.insert(2, 3, big(&[1, 2]));
    assert_eq!(gb.compute(3, 4, Some(short)), Err(EngineError::CorruptCheckpoint));
    let mut lacking = Frontier::from_triples(&gb.frontier.to_triples());
    lacking.remove(3, 1);
    assert_eq!(gb.compute(3, 4, Some(lacking)), Err(EngineError::CorruptCheckpoint));
    assert_eq!(gb.compute(3, 4, Some(Frontier::new())), Err(EngineError::CorruptCheckpoint));
}
