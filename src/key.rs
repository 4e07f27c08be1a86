//! Table coordinates and the diagonals they fall on.
use vstd::prelude::*;

verus! {

/// The coordinates (m, n) of one table entry.
#[derive(Clone, Copy, Debug, PartialEq, Eq, Hash, Structural)]
pub struct Key {
    pub m: usize,
    pub n: usize,
}

impl Key {
    pub fn new(m: usize, n: usize) -> (r: Key)
        ensures
            r.m == m,
            r.n == n,
    {
        Key { m, n }
    }

    pub open spec fn pair(self) -> (int, int) {
        (self.m as int, self.n as int)
    }
}

/// The entries (a, b) with a, b >= 1 whose diagonal max(a, b) lies in (lo, hi].
pub open spec fn rings_between(lo: int, hi: int) -> Set<(int, int)> {
    Set::new(
        |k: (int, int)|
            k.0 >= 1 && k.1 >= 1 && lo < (if k.0 >= k.1 {
                k.0
            } else {
                k.1
            }) <= hi,
    )
}

/// The entries (a, t) and (t, a) for 1 <= a <= t: what diagonal t adds
/// beyond the base entry (0, 0). Empty for t = 0.
pub open spec fn ring(t: int) -> Set<(int, int)> {
    rings_between(t - 1, t)
}

} // verus!
