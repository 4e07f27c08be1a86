//! The frontier cache: coefficient vectors keyed by table coordinates,
//! held as a list of entries with distinct keys.
use crate::bignum::{clone_nats, nats};
use crate::key::Key;
use num_bigint::BigUint;
use vstd::prelude::*;

verus! {

/// A list of keyed values read as a map; a later entry wins over an earlier one.
pub open spec fn assoc_map(s: Seq<((int, int), Seq<nat>)>) -> Map<(int, int), Seq<nat>>
    decreases s.len(),
{
    if s.len() == 0 {
        Map::empty()
    } else {
        assoc_map(s.drop_last()).insert(s.last().0, s.last().1)
    }
}

pub open spec fn distinct_keys(s: Seq<((int, int), Seq<nat>)>) -> bool {
    forall|i: int, j: int| 0 <= i < j < s.len() ==> s[i].0 != s[j].0
}

/// Persisted (m, n, vector) triples, with each vector read as its numbers.
pub open spec fn triple_seq(s: Seq<(usize, usize, Vec<BigUint>)>) -> Seq<(usize, usize, Seq<nat>)> {
    s.map_values(|t: (usize, usize, Vec<BigUint>)| (t.0, t.1, nats(t.2@)))
}

/// Triples as keyed values.
pub open spec fn keyed(s: Seq<(usize, usize, Seq<nat>)>) -> Seq<((int, int), Seq<nat>)> {
    s.map_values(|t: (usize, usize, Seq<nat>)| ((t.0 as int, t.1 as int), t.2))
}

spec fn entry_seq(s: Seq<(Key, Vec<BigUint>)>) -> Seq<((int, int), Seq<nat>)> {
    s.map_values(|e: (Key, Vec<BigUint>)| (e.0.pair(), nats(e.1@)))
}

proof fn lemma_assoc_map(s: Seq<((int, int), Seq<nat>)>)
    requires
        distinct_keys(s),
    ensures
        forall|i: int|
            0 <= i < s.len() ==> assoc_map(s).contains_key(#[trigger] s[i].0) && assoc_map(s)[s[i].0]
                == s[i].1,
        forall|k: (int, int)|
            #[trigger] assoc_map(s).contains_key(k) ==> exists|i: int| 0 <= i < s.len() && s[i].0 == k,
    decreases s.len(),
{
    if s.len() > 0 {
        let p = s.drop_last();
        lemma_assoc_map(p);
        assert(assoc_map(s) == assoc_map(p).insert(s.last().0, s.last().1));
        assert forall|i: int| 0 <= i < s.len() implies assoc_map(s).contains_key(#[trigger] s[i].0)
            && assoc_map(s)[s[i].0] == s[i].1 by {
            if i < s.len() - 1 {
                assert(p[i] == s[i]);
            }
        }
        assert forall|k: (int, int)| #[trigger] assoc_map(s).contains_key(k) implies exists|i: int|
            0 <= i < s.len() && s[i].0 == k by {
            if k != s.last().0 {
                let i = choose|i: int| 0 <= i < p.len() && p[i].0 == k;
                assert(s[i] == p[i]);
            }
        }
    }
}

/// Coefficient vectors keyed by (m, n).
pub struct Frontier {
    entries: Vec<(Key, Vec<BigUint>)>,
}

impl View for Frontier {
    type V = Map<(int, int), Seq<nat>>;

    closed spec fn view(&self) -> Map<(int, int), Seq<nat>> {
        assoc_map(entry_seq(self.entries@))
    }
}

impl Frontier {
    /// Well-formed: no key occurs twice.
    pub closed spec fn wf(&self) -> bool {
        forall|i: int, j: int|
            0 <= i < j < self.entries@.len() ==> self.entries@[i].0.pair()
                != self.entries@[j].0.pair()
    }

    /// The entries in the order they are held.
    pub closed spec fn listing(&self) -> Seq<(usize, usize, Seq<nat>)> {
        self.entries@.map_values(|e: (Key, Vec<BigUint>)| (e.0.m, e.0.n, nats(e.1@)))
    }

    /// The entries, listed in order with distinct keys, make up the map.
    pub proof fn lemma_listing(&self)
        requires
            self.wf(),
        ensures
            distinct_keys(keyed(self.listing())),
            assoc_map(keyed(self.listing())) == self@,
    {
        let s = entry_seq(self.entries@);
        assert(keyed(self.listing()) =~= s);
        assert forall|i: int, j: int| 0 <= i < j < s.len() implies s[i].0 != s[j].0 by {
            assert(s[i].0 == self.entries@[i].0.pair());
            assert(s[j].0 == self.entries@[j].0.pair());
        }
    }

    /// The empty cache.
    pub fn new() -> (r: Frontier)
        ensures
            r.wf(),
            r@ == Map::<(int, int), Seq<nat>>::empty(),
    {
        let r = Frontier { entries: Vec::new() };
        assert(entry_seq(r.entries@) =~= Seq::empty());
        assert(assoc_map(Seq::<((int, int), Seq<nat>)>::empty()) == Map::<(int, int), Seq<nat>>::empty());
        r
    }

    proof fn lemma_view(&self)
        requires
            self.wf(),
        ensures
            forall|i: int|
                0 <= i < self.entries@.len() ==> self@.contains_key(
                    (#[trigger] self.entries@[i]).0.pair(),
                ) && self@[self.entries@[i].0.pair()] == nats(self.entries@[i].1@),
            forall|k: (int, int)|
                #[trigger] self@.contains_key(k) ==> exists|i: int|
                    0 <= i < self.entries@.len() && self.entries@[i].0.pair() == k,
    {
        let s = entry_seq(self.entries@);
        assert forall|i: int, j: int| 0 <= i < j < s.len() implies s[i].0 != s[j].0 by {
            assert(s[i].0 == self.entries@[i].0.pair());
            assert(s[j].0 == self.entries@[j].0.pair());
        }
        lemma_assoc_map(s);
        assert forall|i: int| 0 <= i < self.entries@.len() implies self@.contains_key(
            (#[trigger] self.entries@[i]).0.pair(),
        ) && self@[self.entries@[i].0.pair()] == nats(self.entries@[i].1@) by {
            assert(s[i].0 == self.entries@[i].0.pair());
        }
        assert forall|k: (int, int)| #[trigger] self@.contains_key(k) implies exists|i: int|
            0 <= i < self.entries@.len() && self.entries@[i].0.pair() == k by {
            let i = choose|i: int| 0 <= i < s.len() && s[i].0 == k;
            assert(s[i].0 == self.entries@[i].0.pair());
        }
    }

    fn find(&self, m: usize, n: usize) -> (r: Option<usize>)
        requires
            self.wf(),
        ensures
            match r {
                Some(i) => i < self.entries@.len() && self.entries@[i as int].0.pair() == (
                    m as int,
                    n as int,
                ),
                None => !self@.contains_key((m as int, n as int)),
            },
    {
        proof {
            self.lemma_view();
        }
        let mut i: usize = 0;
        while i < self.entries.len()
            invariant
                i <= self.entries@.len(),
                forall|j: int| 0 <= j < i ==> self.entries@[j].0.pair() != (m as int, n as int),
            decreases self.entries@.len() - i,
        {
            if self.entries[i].0.m == m && self.entries[i].0.n == n {
                return Some(i);
            }
            i = i + 1;
        }
        None
    }

    /// The vector held for (m, n), if any.
    pub fn get(&self, m: usize, n: usize) -> (r: Option<&Vec<BigUint>>)
        requires
            self.wf(),
        ensures
            r is Some <==> self@.contains_key((m as int, n as int)),
            r is Some ==> nats(r->0@) == self@[(m as int, n as int)],
    {
        proof {
            self.lemma_view();
        }
        match self.find(m, n) {
            Some(i) => Some(&self.entries[i].1),
            None => None,
        }
    }
    /// Sets the vector for (m, n), replacing any held before.
    pub fn insert(&mut self, m: usize, n: usize, v: Vec<BigUint>)
        requires
            old(self).wf(),
        ensures
            final(self).wf(),
            final(self)@ == old(self)@.insert((m as int, n as int), nats(v@)),
    {
        let ghost k = (m as int, n as int);
        let ghost val = nats(v@);
        let ghost old_view = self@;
        let ghost old_entries = self.entries@;
        proof {
            self.lemma_view();
        }
        let found = self.find(m, n);
        match found {
            Some(i) => {
                self.entries.set(i, (Key::new(m, n), v));
            },
            None => {
                self.entries.push((Key::new(m, n), v));
            },
        }
        proof {
            let idx: int = match found {
                Some(i) => i as int,
                None => old_entries.len() as int,
            };
            assert(self.entries@[idx].0.pair() == k);
            assert(forall|j: int|
                0 <= j < self.entries@.len() && j != idx ==> self.entries@[j] == old_entries[j]);
            assert(self.wf());
            self.lemma_view();
            assert forall|x: (int, int)| #[trigger] self@.contains_key(x) implies old_view.insert(
                k,
                val,
            ).contains_key(x) && self@[x] == old_view.insert(k, val)[x] by {
                let j = choose|j: int| 0 <= j < self.entries@.len() && self.entries@[j].0.pair() == x;
                if j != idx {
                    assert(old_view.contains_key(old_entries[j].0.pair()));
                }
            }
            assert forall|x: (int, int)| #[trigger] old_view.insert(k, val).contains_key(x)
                implies self@.contains_key(x) by {
                if x != k {
                    let j = choose|j: int| 0 <= j < old_entries.len() && old_entries[j].0.pair() == x;
                    assert(self.entries@[j] == old_entries[j]);
                }
            }
            assert(self@ =~= old_view.insert(k, val));
        }
    }

    /// Drops the vector for (m, n), if one is held.
    pub fn remove(&mut self, m: usize, n: usize)
        requires
            old(self).wf(),
        ensures
            final(self).wf(),
            final(self)@ == old(self)@.remove((m as int, n as int)),
    {
        let ghost k = (m as int, n as int);
        let ghost old_view = self@;
        let ghost old_entries = self.entries@;
        proof {
            self.lemma_view();
        }
        match self.find(m, n) {
            Some(i) => {
                self.entries.remove(i);
                proof {
                    let ii = i as int;
                    assert(forall|j: int|
                        0 <= j < ii ==> self.entries@[j] == old_entries[j]);
                    assert(forall|j: int|
                        ii <= j < self.entries@.len() ==> self.entries@[j] == old_entries[j + 1]);
                    assert(self.wf());
                    self.lemma_view();
                    assert forall|x: (int, int)| #[trigger] self@.contains_key(x) implies old_view.remove(
                        k,
                    ).contains_key(x) && self@[x] == old_view[x] by {
                        let j = choose|j: int|
                            0 <= j < self.entries@.len() && self.entries@[j].0.pair() == x;
                        let jj = if j < ii {
                            j
                        } else {
                            j + 1
                        };
                        assert(self.entries@[j] == old_entries[jj]);
                    }
                    assert forall|x: (int, int)| #[trigger] old_view.remove(k).contains_key(x)
                        implies self@.contains_key(x) by {
                        let j = choose|j: int|
                            0 <= j < old_entries.len() && old_entries[j].0.pair() == x;
                        if j < ii {
                            assert(self.entries@[j] == old_entries[j]);
                        } else {
                            assert(self.entries@[j - 1] == old_entries[j]);
                        }
                    }
                    assert(self@ =~= old_view.remove(k));
                }
            },
            None => {
                assert(self@ =~= old_view.remove(k));
            },
        }
    }

    /// The entries as (m, n, vector) triples, in the order they are held.
    pub fn to_triples(&self) -> (r: Vec<(usize, usize, Vec<BigUint>)>)
        requires
            self.wf(),
        ensures
            triple_seq(r@) == self.listing(),
            distinct_keys(keyed(triple_seq(r@))),
            assoc_map(keyed(triple_seq(r@))) == self@,
    {
        let mut r: Vec<(usize, usize, Vec<BigUint>)> = Vec::new();
        for i in 0..self.entries.len()
            invariant
                r@.len() == i,
                forall|j: int|
                    0 <= j < i ==> (#[trigger] r@[j]).0 == self.entries@[j].0.m && r@[j].1
                        == self.entries@[j].0.n && nats(r@[j].2@) == nats(self.entries@[j].1@),
        {
            let e = &self.entries[i];
            r.push((e.0.m, e.0.n, clone_nats(&e.1)));
        }
        assert(triple_seq(r@) =~= self.listing());
        proof {
            self.lemma_listing();
        }
        r
    }

    /// The cache read back from triples; a later triple wins over an earlier
    /// one with the same key.
    pub fn from_triples(v: &Vec<(usize, usize, Vec<BigUint>)>) -> (r: Frontier)
        ensures
            r.wf(),
            r@ == assoc_map(keyed(triple_seq(v@))),
    {
        let mut r = Frontier::new();
        for i in 0..v.len()
            invariant
                r.wf(),
                r@ == assoc_map(keyed(triple_seq(v@)).take(i as int)),
        {
            let t = &v[i];
            r.insert(t.0, t.1, clone_nats(&t.2));
            assert(keyed(triple_seq(v@)).take(i + 1).drop_last() =~= keyed(triple_seq(v@)).take(
                i as int,
            ));
        }
        assert(keyed(triple_seq(v@)).take(v@.len() as int) =~= keyed(triple_seq(v@)));
        r
    }

}

} // verus!
