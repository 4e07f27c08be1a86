//! The incremental engine: the recurrence, the diagonal step and the
//! resumable computation up to a target diagonal.
use crate::bignum::{big_add, big_clone, big_one, clone_nats, nat_of, nats};
use crate::flags::{complete, FlagIndex};
use crate::frontier::Frontier;
use crate::gauss::{combine, gb_vec, lemma_mul_facts, lemma_recurrence};
use crate::key::{ring, rings_between};
use num_bigint::BigUint;
use vstd::prelude::*;

verus! {

/// Every key of s is held in f, with a vector of its full length.
pub open spec fn shaped(f: Map<(int, int), Seq<nat>>, s: Set<(int, int)>) -> bool {
    forall|k: (int, int)|
        #[trigger] s.contains(k) ==> f.contains_key(k) && f[k].len() == k.0 * k.1 + 1
}

/// Every key of s is held in f, with its true coefficient vector.
pub open spec fn faithful(f: Map<(int, int), Seq<nat>>, s: Set<(int, int)>) -> bool {
    forall|k: (int, int)|
        #[trigger] s.contains(k) ==> f.contains_key(k) && f[k] == gb_vec(k.0 as nat, k.1 as nat)
}

/// The entries of diagonal t that the next step reads: (a, t) and (t, a)
/// for 2 <= a <= t.
pub open spec fn read_by_next(t: int) -> Set<(int, int)> {
    Set::new(|k: (int, int)| ring(t).contains(k) && k.0 >= 2 && k.1 >= 2)
}

/// The entries (a, t) and (t, a) for 1 <= a <= m.
spec fn upto(t: int, m: int) -> Set<(int, int)> {
    Set::new(|k: (int, int)| (1 <= k.0 <= m && k.1 == t) || (k.0 == t && 1 <= k.1 <= m))
}

/// The coefficient vector of (m, n) for m, n >= 1, from the vectors of
/// (m - 1, n) and (m, n - 1) held in `map`; on the boundary (m = 1 or
/// n = 1) it is all ones and `map` is not read.
pub fn coef(m: usize, n: usize, map: &Frontier) -> (r: Vec<BigUint>)
    requires
        map.wf(),
        1 <= m,
        1 <= n,
        m * n + 1 <= usize::MAX,
        m >= 2 && n >= 2 ==> shaped(
            map@,
            set![((m - 1) as int, n as int), (m as int, (n - 1) as int)],
        ),
    ensures
        nats(r@) == combine(
            m as nat,
            n as nat,
            map@[((m - 1) as int, n as int)],
            map@[(m as int, (n - 1) as int)],
        ),
{
    let ghost lower = map@[((m - 1) as int, n as int)];
    let ghost left = map@[(m as int, (n - 1) as int)];
    let ghost target = combine(m as nat, n as nat, lower, left);
    let len = m * n + 1;
    let mut res: Vec<BigUint> = Vec::with_capacity(len);
    if m == 1 || n == 1 {
        for l in 0..len
            invariant
                len == m * n + 1,
                target.len() == len,
                target == combine(m as nat, n as nat, lower, left),
                m == 1 || n == 1,
                res@.len() == l,
                forall|j: int| 0 <= j < l ==> nat_of(#[trigger] res@[j]) == target[j],
        {
            res.push(big_one());
        }
        assert(nats(res@) =~= target);
        return res;
    }
    assert(set![((m - 1) as int, n as int), (m as int, (n - 1) as int)].contains(
        ((m - 1) as int, n as int),
    ));
    assert(set![((m - 1) as int, n as int), (m as int, (n - 1) as int)].contains(
        (m as int, (n - 1) as int),
    ));
    let first = match map.get(m - 1, n) {
        Some(v) => v,
        None => return res,
    };
    let second = match map.get(m, n - 1) {
        Some(v) => v,
        None => return res,
    };
    proof {
        lemma_mul_facts(m as nat, n as nat);
        assert((m - 1) * (n - 1) >= 1) by (nonlinear_arith)
            requires
                m >= 2,
                n >= 2,
        ;
        assert((m - 1) * (n - 1) == m * n - m - n + 1) by (nonlinear_arith);
    }
    let mid_end = m * n - m + 1;
    for l in 0..n
        invariant
            nats(first@) == lower,
            nats(second@) == left,
            lower.len() == m * n - n + 1,
            left.len() == m * n - m + 1,
            n <= m * n - m,
            target == combine(m as nat, n as nat, lower, left),
            m >= 2,
            n >= 2,
            res@.len() == l,
            forall|j: int| 0 <= j < l ==> nat_of(#[trigger] res@[j]) == target[j],
    {
        assert(nat_of(second@[l as int]) == left[l as int]);
        res.push(big_clone(&second[l]));
    }
    for l in n..mid_end
        invariant
            nats(first@) == lower,
            nats(second@) == left,
            lower.len() == m * n - n + 1,
            left.len() == m * n - m + 1,
            mid_end == m * n - m + 1,
            n <= m * n - m,
            target == combine(m as nat, n as nat, lower, left),
            m >= 2,
            n >= 2,
            res@.len() == l,
            forall|j: int| 0 <= j < l ==> nat_of(#[trigger] res@[j]) == target[j],
    {
        assert(nat_of(first@[l - n]) == lower[l - n]);
        assert(nat_of(second@[l as int]) == left[l as int]);
        res.push(big_add(&first[l - n], &second[l]));
    }
    for l in mid_end..len
        invariant
            nats(first@) == lower,
            nats(second@) == left,
            lower.len() == m * n - n + 1,
            left.len() == m * n - m + 1,
            mid_end == m * n - m + 1,
            len == m * n + 1,
            n <= m * n - m,
            target == combine(m as nat, n as nat, lower, left),
            m >= 2,
            n >= 2,
            res@.len() == l,
            forall|j: int| 0 <= j < l ==> nat_of(#[trigger] res@[j]) == target[j],
    {
        assert(nat_of(first@[l - n]) == lower[l - n]);
        res.push(big_clone(&first[l - n]));
    }
    assert(nats(res@) =~= target);
    res
}

/// Why a computation could not proceed.
#[derive(Clone, Copy, Debug, PartialEq, Eq, Structural)]
pub enum EngineError {
    /// The starting diagonal is not recorded as complete in the flag index.
    OrderingViolation,
    /// No checkpoint is available for the starting diagonal.
    MissingCheckpoint,
    /// The checkpoint lacks an entry of the starting diagonal, or holds one
    /// of the wrong length, or could not be decoded.
    CorruptCheckpoint,
}

/// The frontier that diagonal 0 seeds: (0, 0) with the vector [1].
pub open spec fn seed() -> Map<(int, int), Seq<nat>> {
    map![(0int, 0int) => seq![1nat]]
}

/// The frontier a computation from diagonal `from` starts with.
pub open spec fn start_of(from: int, checkpoint: Option<Frontier>) -> Map<(int, int), Seq<nat>> {
    if from == 0 {
        seed()
    } else {
        checkpoint->0@
    }
}

/// Whether the values a computation from `from` starts with are the true ones.
pub open spec fn trusted_start(from: int, checkpoint: Option<Frontier>) -> bool {
    from == 0 || faithful(checkpoint->0@, ring(from))
}

/// Whether `f` holds every entry of diagonal t with a vector of the right length.
pub fn holds_diagonal(f: &Frontier, t: usize) -> (r: bool)
    requires
        f.wf(),
        t * t + 1 <= usize::MAX,
    ensures
        r == shaped(f@, ring(t as int)),
{
    let mut i: usize = 0;
    while i < t
        invariant
            f.wf(),
            i <= t,
            t * t + 1 <= usize::MAX,
            forall|b: int|
                1 <= b <= i ==> f@.contains_key((b, t as int)) && f@[(b, t as int)].len() == b * t
                    + 1 && f@.contains_key((t as int, b)) && f@[(t as int, b)].len() == t * b + 1,
        decreases t - i,
    {
        let a = i + 1;
        proof {
            assert(a * t <= t * t) by (nonlinear_arith)
                requires
                    a <= t,
            ;
            assert(t * a == a * t) by (nonlinear_arith);
            assert(ring(t as int).contains((a as int, t as int)));
            assert(ring(t as int).contains((t as int, a as int)));
        }
        let len = a * t + 1;
        match f.get(a, t) {
            Some(v) => {
                assert(nats(v@).len() == v@.len());
                if v.len() != len {
                    return false;
                }
            },
            None => {
                return false;
            },
        }
        match f.get(t, a) {
            Some(v) => {
                assert(nats(v@).len() == v@.len());
                if v.len() != len {
                    return false;
                }
            },
            None => {
                return false;
            },
        }
        assert(f@[(a as int, t as int)].len() == a * t + 1);
        assert(f@[(t as int, a as int)].len() == t * a + 1);
        i = a;
    }
    assert forall|k: (int, int)| #[trigger] ring(t as int).contains(k) implies f@.contains_key(k)
        && f@[k].len() == k.0 * k.1 + 1 by {
        if k.0 >= k.1 {
            assert(k.0 == t);
        } else {
            assert(k.1 == t);
        }
    }
    true
}

/// The engine: the permanent flag index and the transient frontier cache.
pub struct GaussianBinomial {
    pub flags: FlagIndex,
    pub frontier: Frontier,
}

impl GaussianBinomial {
    /// An engine over a flag index loaded from storage, or a fresh one;
    /// the frontier cache starts empty.
    pub fn from(flags: FlagIndex) -> (r: GaussianBinomial)
        ensures
            r.flags@ == flags@,
            r.frontier.wf(),
            r.frontier@ == Map::<(int, int), Seq<nat>>::empty(),
    {
        GaussianBinomial { flags, frontier: Frontier::new() }
    }

    /// Whether (m, n) has ever been computed.
    pub fn is_cached(&self, m: usize, n: usize) -> (r: bool)
        ensures
            r == self.flags@.contains((m as int, n as int)),
    {
        self.flags.contains(m, n)
    }

    /// Diagonal t. For t = 0, sets (0, 0) to [1] and records it. For t >= 1,
    /// computes (a, t) and (t, a) for 1 <= a <= t from the frontier of
    /// diagonal t - 1, evicting each entry of diagonal t - 1 as soon as no
    /// later entry needs it, and records the new keys.
    fn compute_helper(&mut self, t: usize)
        requires
            old(self).frontier.wf(),
            t * t + 1 <= usize::MAX,
            t >= 1 ==> complete(old(self).flags@, t - 1),
            t >= 1 ==> shaped(old(self).frontier@, read_by_next(t - 1)),
        ensures
            final(self).frontier.wf(),
            t == 0 ==> final(self).frontier@ == old(self).frontier@.insert((0, 0), seq![1nat])
                && final(self).flags@ == old(self).flags@.insert((0, 0)),
            t >= 1 ==> final(self).frontier@.dom() == old(self).frontier@.dom().difference(
                ring(t - 1),
            ).union(ring(t as int)),
            t >= 1 ==> forall|k: (int, int)|
                #[trigger] old(self).frontier@.contains_key(k) && !ring(t - 1).contains(k)
                    && !ring(t as int).contains(k) ==> final(self).frontier@[k] == old(
                    self,
                ).frontier@[k],
            t >= 1 ==> shaped(final(self).frontier@, ring(t as int)),
            t >= 1 && faithful(old(self).frontier@, read_by_next(t - 1)) ==> faithful(
                final(self).frontier@,
                ring(t as int),
            ),
            t >= 1 ==> final(self).flags@ == old(self).flags@.union(ring(t as int)),
    {
        if t == 0 {
            let one: Vec<BigUint> = vec![big_one()];
            assert(nats(one@) =~= seq![1nat]);
            self.frontier.insert(0, 0, one);
            self.flags.mark(0, 0);
            return;
        }
        let ghost f0 = self.frontier@;
        let ghost g0 = self.flags@;
        let ghost good = faithful(f0, read_by_next(t - 1));
        let ghost ti = t as int;
        proof {
            assert(upto(ti - 1, 0) =~= Set::empty());
            assert(upto(ti, 0) =~= Set::empty());
            assert(f0.dom().difference(upto(ti - 1, 0)).union(upto(ti, 0)) =~= f0.dom());
            assert(g0.union(upto(ti, 0)) =~= g0);
            assert(t <= t * t) by (nonlinear_arith)
                requires
                    t >= 1,
            ;
        }
        let mut m: usize = 1;
        while m < t
            invariant
                1 <= m <= t,
                ti == t,
                t < usize::MAX,
                t * t + 1 <= usize::MAX,
                self.frontier.wf(),
                self.frontier@.dom() == f0.dom().difference(upto(ti - 1, m - 1)).union(
                    upto(ti, m - 1),
                ),
                forall|k: (int, int)|
                    #[trigger] f0.contains_key(k) && !upto(ti - 1, m - 1).contains(k) && !upto(
                        ti,
                        m - 1,
                    ).contains(k) ==> self.frontier@[k] == f0[k],
                shaped(self.frontier@, upto(ti, m - 1)),
                good ==> faithful(self.frontier@, upto(ti, m - 1)),
                self.flags@ == g0.union(upto(ti, m - 1)),
                shaped(f0, read_by_next(ti - 1)),
                good == faithful(f0, read_by_next(ti - 1)),
            decreases t - m,
        {
            proof {
                lemma_step_keys(ti, m as int);
                assert(m * t <= t * t) by (nonlinear_arith)
                    requires
                        m <= t,
                ;
                assert(t * m == m * t) by (nonlinear_arith);
            }
            let ghost fa = self.frontier@;
            let a = coef(m, t, &self.frontier);
            proof {
                if good {
                    lemma_recurrence(m as nat, t as nat);
                }
            }
            self.frontier.insert(m, t, a);
            let ghost fb = self.frontier@;
            let b = coef(t, m, &self.frontier);
            proof {
                if good {
                    lemma_recurrence(t as nat, m as nat);
                }
            }
            self.frontier.insert(t, m, b);
            self.frontier.remove(m, t - 1);
            self.frontier.remove(t - 1, m);
            self.flags.mark(m, t);
            self.flags.mark(t, m);
            proof {
                let f = self.frontier@;
                let mi = m as int;
                assert forall|k: (int, int)| #[trigger] upto(ti, mi).contains(k) implies f.contains_key(k)
                    && f[k].len() == k.0 * k.1 + 1 && (good ==> f[k] == gb_vec(k.0 as nat, k.1 as nat)) by {
                    if k != (mi, ti) && k != (ti, mi) {
                        assert(upto(ti, mi - 1).contains(k));
                    }
                }
                assert(f.dom() =~= f0.dom().difference(upto(ti - 1, mi)).union(upto(ti, mi)));
                assert(self.flags@ =~= g0.union(upto(ti, mi)));
            }
            m = m + 1;
        }
        proof {
            lemma_step_keys(ti, ti);
        }
        let d = coef(t, t, &self.frontier);
        proof {
            if good {
                lemma_recurrence(t as nat, t as nat);
            }
        }
        self.frontier.insert(t, t, d);
        self.flags.mark(t, t);
        proof {
            assert(upto(ti - 1, ti - 1) =~= ring(ti - 1));
            assert(upto(ti, ti - 1).insert((ti, ti)) =~= ring(ti));
            assert(self.frontier@.dom() =~= f0.dom().difference(ring(ti - 1)).union(ring(ti)));
            assert(self.flags@ =~= g0.union(ring(ti)));
        }
    }
    /// Computes diagonals from + 1 ..= to and returns the vector of
    /// (to, to). From diagonal 0 the frontier is seeded afresh; from a later
    /// diagonal, which must be complete in the flag index, it is replaced by
    /// the checkpoint saved for that diagonal.
    pub fn compute(&mut self, from: usize, to: usize, checkpoint: Option<Frontier>) -> (r: Result<
        Vec<BigUint>,
        EngineError,
    >)
        requires
            from <= to,
            to * to + 1 <= usize::MAX,
            checkpoint matches Some(c) ==> c.wf(),
        ensures
            r == Err::<Vec<BigUint>, EngineError>(EngineError::OrderingViolation) <==> from > 0
                && !complete(old(self).flags@, from as int),
            r == Err::<Vec<BigUint>, EngineError>(EngineError::MissingCheckpoint) <==> from > 0
                && complete(old(self).flags@, from as int) && checkpoint is None,
            r == Err::<Vec<BigUint>, EngineError>(EngineError::CorruptCheckpoint) <==> from > 0
                && complete(old(self).flags@, from as int) && checkpoint is Some && !shaped(
                checkpoint->0@,
                ring(from as int),
            ),
            r is Ok <==> from == 0 || (complete(old(self).flags@, from as int) && checkpoint is Some
                && shaped(checkpoint->0@, ring(from as int))),
            r is Err ==> final(self).flags@ == old(self).flags@ && final(self).frontier@ == old(
                self,
            ).frontier@,
            r is Ok ==> {
                let f = final(self).frontier@;
                &&& final(self).frontier.wf()
                &&& final(self).flags@ == old(self).flags@.union(
                    rings_between(from as int, to as int),
                ).union(
                    if from == 0 {
                        set![(0int, 0int)]
                    } else {
                        Set::empty()
                    },
                )
                &&& f.dom() == start_of(from as int, checkpoint).dom().difference(
                    rings_between(from - 1, to as int),
                ).union(ring(to as int))
                &&& shaped(f, ring(to as int))
                &&& f.contains_key((to as int, to as int))
                &&& nats(r->Ok_0@) == f[(to as int, to as int)]
                &&& trusted_start(from as int, checkpoint) ==> faithful(f, ring(to as int))
                    && nats(r->Ok_0@) == gb_vec(to as nat, to as nat) && trusted_start(
                    to as int,
                    Some(final(self).frontier),
                )
            },
    {
        let ghost g0 = self.flags@;
        let ghost fi = from as int;
        proof {
            assert(from * from <= to * to) by (nonlinear_arith)
                requires
                    from <= to,
            ;
        }
        if from == 0 {
            self.frontier = Frontier::new();
            self.compute_helper(0);
            proof {
                assert(self.frontier@ =~= seed());
                assert(ring(0) =~= Set::empty());
            }
        } else {
            if !self.flags.diagonal_complete(from) {
                return Err(EngineError::OrderingViolation);
            }
            match checkpoint {
                None => {
                    return Err(EngineError::MissingCheckpoint);
                },
                Some(c) => {
                    if !holds_diagonal(&c, from) {
                        return Err(EngineError::CorruptCheckpoint);
                    }
                    self.frontier = c;
                },
            }
        }
        let ghost base = start_of(fi, checkpoint);
        let ghost good = trusted_start(fi, checkpoint);
        let ghost g1 = self.flags@;
        proof {
            assert(self.frontier@ == base);
            assert(shaped(base, ring(fi)));
            assert(good ==> faithful(base, ring(fi)));
            assert(base.dom().difference(rings_between(fi - 1, fi)).union(ring(fi)) =~= base.dom());
            assert(rings_between(fi, fi) =~= Set::empty());
            assert(g1 =~= g1.union(rings_between(fi, fi)));
        }
        let mut t: usize = from;
        while t < to
            invariant
                from <= t <= to,
                fi == from,
                to * to + 1 <= usize::MAX,
                self.frontier.wf(),
                self.frontier@.dom() == base.dom().difference(rings_between(fi - 1, t as int)).union(
                    ring(t as int),
                ),
                forall|k: (int, int)|
                    #[trigger] base.contains_key(k) && !rings_between(fi - 1, t as int).contains(k)
                        ==> self.frontier@[k] == base[k],
                shaped(self.frontier@, ring(t as int)),
                good ==> faithful(self.frontier@, ring(t as int)),
                self.flags@ == g1.union(rings_between(fi, t as int)),
                complete(self.flags@, t as int),
            decreases to - t,
        {
            let ghost fpre = self.frontier@;
            let ghost ti = (t + 1) as int;
            proof {
                assert((t + 1) * (t + 1) <= to * to) by (nonlinear_arith)
                    requires
                        t + 1 <= to,
                ;
            }
            self.compute_helper(t + 1);
            t = t + 1;
            proof {
                assert(self.frontier@.dom() =~= base.dom().difference(rings_between(fi - 1, ti)).union(
                    ring(ti),
                ));
                assert(self.flags@ =~= g1.union(rings_between(fi, ti)));
                assert forall|k: (int, int)|
                    #[trigger] base.contains_key(k) && !rings_between(fi - 1, ti).contains(k) implies self.frontier@[k]
                    == base[k] by {
                    assert(!rings_between(fi - 1, ti - 1).contains(k));
                    assert(fpre.contains_key(k));
                }
            }
        }
        proof {
            if to == 0 {
                assert(base.contains_key((0, 0)));
                assert(!rings_between(-1, 0).contains((0int, 0int)));
                crate::gauss::lemma_base_case();
            } else {
                assert(ring(to as int).contains((to as int, to as int)));
            }
            assert(self.flags@ =~= old(self).flags@.union(rings_between(fi, to as int)).union(
                if from == 0 {
                    set![(0int, 0int)]
                } else {
                    Set::empty()
                },
            ));
        }
        match self.frontier.get(to, to) {
            Some(v) => Ok(clone_nats(v)),
            None => Err(EngineError::CorruptCheckpoint),
        }
    }
}

/// Resumability: the frontier that a trusted run up to diagonal k leaves
/// (see `compute`), once saved and loaded back (see `reload_frontier`), is a
/// checkpoint that `compute` accepts when resuming from k, for it has the
/// shape of that diagonal, and trusts, so the resumed run returns
/// `gb_vec(to, to)` just as a fresh run from diagonal 0 does.
pub proof fn lemma_resume_from_reloaded(k: nat, left: Frontier, loaded: Frontier)
    requires
        k >= 1,
        trusted_start(k as int, Some(left)),
        loaded@ == left@,
    ensures
        shaped(loaded@, ring(k as int)),
        trusted_start(k as int, Some(loaded)),
{
    assert forall|key: (int, int)| #[trigger] ring(k as int).contains(key) implies loaded@.contains_key(key)
        && loaded@[key].len() == key.0 * key.1 + 1 by {
        assert((key.0 as nat) * (key.1 as nat) == key.0 * key.1);
    }
}

/// Which keys of diagonals t - 1 and t the m-th round of a step reads.
proof fn lemma_step_keys(t: int, m: int)
    requires
        1 <= m <= t,
    ensures
        m >= 2 ==> upto(t, m - 1).contains((m - 1, t)) && upto(t, m - 1).contains((t, m - 1)),
        2 <= m < t ==> read_by_next(t - 1).contains((m, t - 1)) && read_by_next(t - 1).contains(
            (t - 1, m),
        ),
        !upto(t - 1, m - 1).contains((m, t - 1)) && !upto(t - 1, m - 1).contains((t - 1, m)),
        m < t ==> !upto(t, m - 1).contains((m, t - 1)) && !upto(t, m - 1).contains((t - 1, m)),
        m == t ==> upto(t, m - 1).contains((m - 1, t)) || m == 1,
{
}

} // verus!
