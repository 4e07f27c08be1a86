use gaussian_binomial::engine::{EngineError, GaussianBinomial};
use gaussian_binomial::flags::FlagIndex;
use gaussian_binomial::frontier::Frontier;
use gaussian_binomial::store::{
    load_flags, load_frontier, reload_flags, reload_frontier, save_flags, save_frontier,
    StoreError,
};
use num_bigint::BigUint;

fn big(v: &[u64]) -> Vec<BigUint> {
    v.iter().map(|&x| BigUint::from(x)).collect()
}

#[test]
fn frontier_round_trips_through_bytes() {
    let mut f = Frontier::new();
    f.insert(0, 0, big(&[1]));
    f.insert(2, 2, big(&[1, 1, 2, 1, 1]));
    let huge = BigUint::from(u64::MAX) * BigUint::from(u64::MAX);
    f.insert(1, 1, vec![huge.clone(), BigUint::from(7u64)]);
    let bytes = save_frontier(&f);
    assert!(!bytes.is_empty());
    let g = load_frontier(&bytes);
    assert_eq!(g.to_triples(), f.to_triples());
    assert_eq!(g.get(1, 1).unwrap()[0], huge);
    assert!(g.get(1, 2).is_none());
}

#[test]
fn reload_frontier_gives_it_back() {
    let mut gb = GaussianBinomial::from(FlagIndex::new());
    gb.compute(0, 5, None).unwrap();
    let g = reload_frontier(&gb.frontier);
    assert_eq!(g.to_triples(), gb.frontier.to_triples());
}

#[test]
fn empty_frontier_round_trips() {
    let bytes = save_frontier(&Frontier::new());
    let g = load_frontier(&bytes);
    assert!(g.to_triples().is_empty());
}

#[test]
fn flags_round_trip_through_bytes() {
    let mut f = FlagIndex::new();
    f.mark(0, 0);
    f.mark(3, 1);
    f.mark(1, 3);
    f.mark(5, 9);
    let bytes = save_flags(&f);
    let g = load_flags(&bytes).unwrap();
    assert_eq!(g.to_triples(), f.to_triples());
    assert!(g.contains(5, 9));
    assert!(!g.contains(9, 5));
    assert_eq!(g.to_triples(), vec![(0, 0, true), (1, 3, true), (3, 1, true), (5, 9, true)]);
    assert_eq!(reload_flags(&f).to_triples(), f.to_triples());
}

#[test]
fn saved_flags_list_each_key_once() {
    let mut f = FlagIndex::new();
    f.mark(2, 2);
    f.mark(2, 2);
    f.mark(0, 1);
    let bytes = save_flags(&f);
    let t: Vec<(usize, usize, bool)> = flexbuffers::from_slice(&bytes).unwrap();
    assert_eq!(t, vec![(0, 1, true), (2, 2, true)]);
}

#[test]
fn out_of_range_flag_does_not_load() {
    let bytes = flexbuffers::to_vec(vec![(0usize, usize::MAX, true)]).unwrap();
    assert_eq!(load_flags(&bytes).err(), Some(StoreError::KeyOutOfRange));
}

#[test]
fn later_triple_wins_on_load() {
    let bytes = flexbuffers::to_vec(vec![
        (1usize, 1usize, big(&[1, 1])),
        (1usize, 1usize, big(&[4, 4])),
    ])
    .unwrap();
    let g = load_frontier(&bytes);
    assert_eq!(g.get(1, 1).unwrap(), &big(&[4, 4]));
}

#[test]
fn resume_from_saved_bytes_matches_fresh_run() {
    let mut first = GaussianBinomial::from(FlagIndex::new());
    first.compute(0, 4, None).unwrap();
    let snapshot = save_frontier(&first.frontier);
    let flags = save_flags(&first.flags);

    let mut resumed = GaussianBinomial::from(load_flags(&flags).unwrap());
    let a = resumed.compute(4, 8, Some(load_frontier(&snapshot))).unwrap();
    let mut whole = GaussianBinomial::from(FlagIndex::new());
    let b = whole.compute(0, 8, None).unwrap();
    assert_eq!(a, b);
    assert_eq!(a.len(), 65);
}

#[test]
fn snapshot_of_another_diagonal_is_corrupt() {
    let mut gb = GaussianBinomial::from(FlagIndex::new());
    gb.compute(0, 2, None).unwrap();
    let old = load_frontier(&save_frontier(&gb.frontier));
    gb.compute(0, 3, None).unwrap();
    assert_eq!(gb.compute(3, 4, Some(old)), Err(EngineError::CorruptCheckpoint));
}
