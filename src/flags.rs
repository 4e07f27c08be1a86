//! The flag index: the permanent record of every entry ever computed.
use crate::key::ring;
use vstd::prelude::*;

verus! {

/// The keys named by persisted (m, n, flag) triples.
pub open spec fn triple_keys(s: Seq<(usize, usize, bool)>) -> Set<(int, int)> {
    Set::new(|k: (int, int)| exists|j: int| 0 <= j < s.len() && s[j].0 == k.0 && s[j].1 == k.1)
}

/// Diagonal t is complete in `flags`: (a, t) and (t, a) are recorded for
/// every 1 <= a <= t, and (0, 0) is recorded when t = 0.
pub open spec fn complete(flags: Set<(int, int)>, t: int) -> bool {
    ring(t).subset_of(flags) && (t == 0 ==> flags.contains((0, 0)))
}

/// Triple a comes before triple b in row order.
pub open spec fn row_before(a: (usize, usize, bool), b: (usize, usize, bool)) -> bool {
    a.0 < b.0 || (a.0 == b.0 && a.1 < b.1)
}

/// A set of table coordinates, kept as one row of flags per m.
pub struct FlagIndex {
    rows: Vec<Vec<bool>>,
}

impl View for FlagIndex {
    type V = Set<(int, int)>;

    closed spec fn view(&self) -> Set<(int, int)> {
        Set::new(
            |k: (int, int)|
                0 <= k.0 < self.rows@.len() && 0 <= k.1 < self.rows@[k.0]@.len()
                    && self.rows@[k.0]@[k.1],
        )
    }
}

impl FlagIndex {
    /// The empty index.
    pub fn new() -> (r: FlagIndex)
        ensures
            r@ == Set::<(int, int)>::empty(),
    {
        let r = FlagIndex { rows: Vec::new() };
        assert(r@ =~= Set::<(int, int)>::empty());
        r
    }

    /// Whether (m, n) has been recorded.
    pub fn contains(&self, m: usize, n: usize) -> (r: bool)
        ensures
            r == self@.contains((m as int, n as int)),
    {
        m < self.rows.len() && n < self.rows[m].len() && self.rows[m][n]
    }

    /// Records (m, n).
    pub fn mark(&mut self, m: usize, n: usize)
        requires
            n < usize::MAX,
        ensures
            final(self)@ == old(self)@.insert((m as int, n as int)),
    {
        let ghost before = self@;
        while self.rows.len() <= m
            invariant
                self@ == before,
            decreases m + 1 - self.rows.len(),
        {
            self.rows.push(Vec::new());
            assert(self@ =~= before);
        }
        let ghost mid = self.rows@;
        while self.rows[m].len() <= n
            invariant
                m < self.rows@.len(),
                self.rows@.len() == mid.len(),
                forall|i: int| 0 <= i < mid.len() && i != m ==> self.rows@[i] == mid[i],
                self.rows@[m as int]@.len() >= mid[m as int]@.len(),
                forall|j: int|
                    0 <= j < self.rows@[m as int]@.len() ==> #[trigger] self.rows@[m as int]@[j]
                        == (j < mid[m as int]@.len() && mid[m as int]@[j]),
                self@ == before,
                n < usize::MAX,
            decreases n + 1 - self.rows@[m as int]@.len(),
        {
            self.rows[m].push(false);
            assert(self@ =~= before);
        }
        self.rows[m].set(n, true);
        assert(self@ =~= before.insert((m as int, n as int)));
    }

    /// Whether diagonal t is complete.
    pub fn diagonal_complete(&self, t: usize) -> (r: bool)
        ensures
            r == complete(self@, t as int),
    {
        if t == 0 {
            assert(ring(0) =~= Set::empty());
            return self.contains(0, 0);
        }
        let mut i: usize = 0;
        while i < t
            invariant
                i <= t,
                forall|b: int|
                    1 <= b <= i ==> self@.contains((b, t as int)) && self@.contains((t as int, b)),
            decreases t - i,
        {
            let a = i + 1;
            if !self.contains(a, t) || !self.contains(t, a) {
                assert(ring(t as int).contains((a as int, t as int)));
                return false;
            }
            i = a;
        }
        assert forall|k: (int, int)| ring(t as int).contains(k) implies self@.contains(k) by {
            if k.0 >= k.1 {
                assert(k.0 == t);
            } else {
                assert(k.1 == t);
            }
        }
        true
    }
    /// The recorded keys as (m, n, true) triples, in row order.
    pub fn to_triples(&self) -> (r: Vec<(usize, usize, bool)>)
        ensures
            triple_keys(r@) == self@,
            forall|j: int| 0 <= j < r@.len() ==> (#[trigger] r@[j]).2 && r@[j].1 < usize::MAX,
            forall|i: int, j: int|
                0 <= i < j < r@.len() ==> (r@[i].0, r@[i].1) != (r@[j].0, r@[j].1),
    {
        let mut r: Vec<(usize, usize, bool)> = Vec::new();
        for m in 0..self.rows.len()
            invariant
                forall|j: int| 0 <= j < r@.len() ==> (#[trigger] r@[j]).2 && r@[j].1 < usize::MAX,
                forall|j: int| 0 <= j < r@.len() ==> (#[trigger] r@[j]).0 < m,
                forall|i: int, j: int| 0 <= i < j < r@.len() ==> row_before(r@[i], r@[j]),
                forall|k: (int, int)|
                    #[trigger] triple_keys(r@).contains(k) <==> self@.contains(k) && k.0 < m,
        {
            let row = &self.rows[m];
            for n in 0..row.len()
                invariant
                    row == self.rows@[m as int],
                    m < self.rows@.len(),
                    forall|j: int| 0 <= j < r@.len() ==> (#[trigger] r@[j]).2 && r@[j].1 < usize::MAX,
                    forall|j: int|
                        0 <= j < r@.len() ==> (#[trigger] r@[j]).0 < m || (r@[j].0 == m && r@[j].1
                            < n),
                    forall|i: int, j: int| 0 <= i < j < r@.len() ==> row_before(r@[i], r@[j]),
                    forall|k: (int, int)|
                        #[trigger] triple_keys(r@).contains(k) <==> self@.contains(k) && (k.0 < m || (
                        k.0 == m && k.1 < n)),
            {
                if row[n] {
                    let ghost before = r@;
                    r.push((m, n, true));
                    proof {
                        assert forall|k: (int, int)| #[trigger] triple_keys(r@).contains(k) <==> self@.contains(
                            k,
                        ) && (k.0 < m || (k.0 == m && k.1 < n + 1)) by {
                            if triple_keys(r@).contains(k) {
                                let j = choose|j: int|
                                    0 <= j < r@.len() && r@[j].0 == k.0 && r@[j].1 == k.1;
                                if j < before.len() {
                                    assert(triple_keys(before).contains(k));
                                }
                            }
                            if self@.contains(k) && (k.0 < m || (k.0 == m && k.1 < n + 1)) {
                                if k.0 == m && k.1 == n {
                                    assert(r@[before.len() as int] == (m, n, true));
                                } else {
                                    assert(triple_keys(before).contains(k));
                                    let j = choose|j: int|
                                        0 <= j < before.len() && before[j].0 == k.0 && before[j].1
                                            == k.1;
                                    assert(r@[j] == before[j]);
                                }
                            }
                        }
                    }
                }
            }
        }
        assert(triple_keys(r@) =~= self@);
        assert forall|i: int, j: int| 0 <= i < j < r@.len() implies (r@[i].0, r@[i].1) != (
            r@[j].0,
            r@[j].1,
        ) by {
            assert(row_before(r@[i], r@[j]));
        }
        r
    }

    /// The index read back from triples; every triple names a recorded key.
    /// None when a triple's n is usize::MAX, which no computed entry has.
    pub fn from_triples(v: &Vec<(usize, usize, bool)>) -> (r: Option<FlagIndex>)
        ensures
            r is None <==> exists|j: int| 0 <= j < v@.len() && (#[trigger] v@[j]).1 == usize::MAX,
            r matches Some(f) ==> f@ == triple_keys(v@),
    {
        let mut f = FlagIndex::new();
        for i in 0..v.len()
            invariant
                forall|j: int| 0 <= j < i ==> (#[trigger] v@[j]).1 < usize::MAX,
                f@ == triple_keys(v@.take(i as int)),
        {
            let t = v[i];
            if t.1 == usize::MAX {
                return None;
            }
            f.mark(t.0, t.1);
            proof {
                let p = v@.take(i as int);
                let q = v@.take(i + 1);
                assert forall|k: (int, int)| #[trigger] triple_keys(q).contains(k) <==> f@.contains(k) by {
                    if triple_keys(q).contains(k) {
                        let j = choose|j: int| 0 <= j < q.len() && q[j].0 == k.0 && q[j].1 == k.1;
                        if j < i {
                            assert(p[j] == q[j]);
                        }
                    }
                    if triple_keys(p).contains(k) {
                        let j = choose|j: int| 0 <= j < p.len() && p[j].0 == k.0 && p[j].1 == k.1;
                        assert(q[j] == p[j]);
                    }
                    if k == (t.0 as int, t.1 as int) {
                        assert(q[i as int] == t);
                    }
                }
                assert(triple_keys(q) =~= f@);
            }
        }
        assert(v@.take(v@.len() as int) =~= v@);
        Some(f)
    }
}

} // verus!
