//! The mathematics of Gaussian binomial coefficients: the coefficient of
//! q^l in the polynomial for (m, n), and the facts the engine relies on.
use vstd::prelude::*;

verus! {

/// Coefficient of q^l in the Gaussian binomial for (m, n), by the q-Pascal
/// identity with a degree shift of n.
pub open spec fn gb(m: nat, n: nat, l: int) -> nat
    decreases m + n,
{
    if m == 0 || n == 0 {
        if l == 0 {
            1
        } else {
            0
        }
    } else {
        gb((m - 1) as nat, n, l - n) + gb(m, (n - 1) as nat, l)
    }
}

/// The coefficient vector of (m, n): entries 0 ..= m * n.
pub open spec fn gb_vec(m: nat, n: nat) -> Seq<nat> {
    Seq::new(m * n + 1, |l: int| gb(m, n, l))
}

/// Entry l of a vector, read as 0 outside its range.
pub open spec fn at(v: Seq<nat>, l: int) -> nat {
    if 0 <= l < v.len() {
        v[l]
    } else {
        0
    }
}

/// One step of the recurrence: the vector of (m, n) from `lower`, the vector
/// of (m - 1, n), and `left`, the vector of (m, n - 1). On the boundary
/// (m = 1 or n = 1) the result is all ones and the inputs are not read.
pub open spec fn combine(m: nat, n: nat, lower: Seq<nat>, left: Seq<nat>) -> Seq<nat> {
    if m == 1 || n == 1 {
        Seq::new(m * n + 1, |l: int| 1nat)
    } else {
        Seq::new(m * n + 1, |l: int| at(lower, l - n) + at(left, l))
    }
}

/// The ordinary binomial coefficient C(a, b).
pub open spec fn binom(a: nat, b: nat) -> nat
    decreases a,
{
    if b == 0 {
        1
    } else if a == 0 {
        0
    } else {
        binom((a - 1) as nat, (b - 1) as nat) + binom((a - 1) as nat, b)
    }
}

/// The sum of the first k entries of v.
pub open spec fn sum_upto(v: Seq<nat>, k: nat) -> int
    decreases k,
{
    if k == 0 {
        0
    } else {
        sum_upto(v, (k - 1) as nat) + at(v, k - 1)
    }
}

/// The sum of all entries of v.
pub open spec fn total(v: Seq<nat>) -> int {
    sum_upto(v, v.len())
}

pub proof fn lemma_mul_facts(m: nat, n: nat)
    requires
        m >= 1,
        n >= 1,
    ensures
        (m - 1) * n == m * n - n,
        m * (n - 1) == m * n - m,
        m * n >= m,
        m * n >= n,
{
    assert((m - 1) * n == m * n - n) by (nonlinear_arith);
    assert(m * (n - 1) == m * n - m) by (nonlinear_arith);
    assert(m * n >= m) by (nonlinear_arith)
        requires
            n >= 1,
    ;
    assert(m * n >= n) by (nonlinear_arith)
        requires
            m >= 1,
    ;
}

/// Coefficients vanish outside 0 ..= m * n.
pub proof fn lemma_gb_zero_outside(m: nat, n: nat, l: int)
    requires
        l < 0 || l > m * n,
    ensures
        gb(m, n, l) == 0,
    decreases m + n,
{
    if m == 0 || n == 0 {
        assert(m * n == 0) by (nonlinear_arith)
            requires
                m == 0 || n == 0,
        ;
    } else {
        lemma_mul_facts(m, n);
        lemma_gb_zero_outside((m - 1) as nat, n, l - n);
        lemma_gb_zero_outside(m, (n - 1) as nat, l);
    }
}

/// The row m = 1 is all ones on 0 ..= n.
pub proof fn lemma_gb_row_one(n: nat, l: int)
    ensures
        gb(1, n, l) == (if 0 <= l <= n {
            1nat
        } else {
            0nat
        }),
    decreases n,
{
    if n > 0 {
        lemma_gb_row_one((n - 1) as nat, l);
        assert(gb(1, n, l) == gb(0, n, l - n) + gb(1, (n - 1) as nat, l));
    }
}

/// The column n = 1 is all ones on 0 ..= m.
pub proof fn lemma_gb_col_one(m: nat, l: int)
    ensures
        gb(m, 1, l) == (if 0 <= l <= m {
            1nat
        } else {
            0nat
        }),
    decreases m,
{
    if m > 0 {
        lemma_gb_col_one((m - 1) as nat, l - 1);
        assert(gb(m, 1, l) == gb((m - 1) as nat, 1, l - 1) + gb(m, 0, l));
    }
}

/// The q-Pascal identity in its second form, with the shift on the other term.
proof fn lemma_gb_other_rec(m: nat, n: nat, l: int)
    requires
        m >= 1,
        n >= 1,
    ensures
        gb(m, n, l) == gb((m - 1) as nat, n, l) + gb(m, (n - 1) as nat, l - m),
    decreases m + n,
{
    if m == 1 {
        lemma_gb_row_one(n, l);
        lemma_gb_row_one((n - 1) as nat, l - 1);
    } else if n == 1 {
        lemma_gb_col_one(m, l);
        lemma_gb_col_one((m - 1) as nat, l);
    } else {
        lemma_gb_other_rec((m - 1) as nat, n, l - n);
        lemma_gb_other_rec(m, (n - 1) as nat, l);
        assert(gb((m - 1) as nat, n, l) == gb((m - 2) as nat, n, l - n) + gb(
            (m - 1) as nat,
            (n - 1) as nat,
            l,
        ));
        assert(gb(m, (n - 1) as nat, l - m) == gb((m - 1) as nat, (n - 1) as nat, l - m - (n - 1))
            + gb(m, (n - 2) as nat, l - m));
    }
}

/// Symmetry: the vectors of (m, n) and (n, m) agree at every index.
pub proof fn lemma_gb_symmetric(m: nat, n: nat, l: int)
    ensures
        gb(m, n, l) == gb(n, m, l),
    decreases m + n,
{
    if m != 0 && n != 0 {
        lemma_gb_symmetric((m - 1) as nat, n, l - n);
        lemma_gb_symmetric(m, (n - 1) as nat, l);
        lemma_gb_symmetric((n - 1) as nat, m, l - m);
        lemma_gb_symmetric(n, (m - 1) as nat, l);
        lemma_gb_other_rec(m, n, l);
        assert(gb(n, m, l) == gb((n - 1) as nat, m, l - m) + gb(n, (m - 1) as nat, l));
    }
}

/// Sum of the first k coefficients of (m, n), with indices shifted down by s.
spec fn psum(m: nat, n: nat, s: int, k: nat) -> int
    decreases k,
{
    if k == 0 {
        0
    } else {
        psum(m, n, s, (k - 1) as nat) + gb(m, n, k - 1 - s)
    }
}

proof fn lemma_psum_shift(m: nat, n: nat, s: nat, k: nat)
    requires
        s <= k,
    ensures
        psum(m, n, s as int, k) == psum(m, n, 0, (k - s) as nat),
    decreases k,
{
    if k > s {
        lemma_psum_shift(m, n, s, (k - 1) as nat);
    } else {
        lemma_psum_negative(m, n, s, k);
    }
}

proof fn lemma_psum_negative(m: nat, n: nat, s: nat, k: nat)
    requires
        k <= s,
    ensures
        psum(m, n, s as int, k) == 0,
    decreases k,
{
    if k > 0 {
        lemma_psum_negative(m, n, s, (k - 1) as nat);
        lemma_gb_zero_outside(m, n, k - 1 - s);
    }
}

proof fn lemma_psum_tail(m: nat, n: nat, k: nat)
    requires
        k >= m * n + 1,
    ensures
        psum(m, n, 0, k) == psum(m, n, 0, m * n + 1),
    decreases k,
{
    if k > m * n + 1 {
        lemma_psum_tail(m, n, (k - 1) as nat);
        lemma_gb_zero_outside(m, n, k - 1);
    }
}

proof fn lemma_psum_rec(m: nat, n: nat, k: nat)
    requires
        m >= 1,
        n >= 1,
    ensures
        psum(m, n, 0, k) == psum((m - 1) as nat, n, n as int, k) + psum(m, (n - 1) as nat, 0, k),
    decreases k,
{
    if k > 0 {
        lemma_psum_rec(m, n, (k - 1) as nat);
    }
}

proof fn lemma_psum_total(m: nat, n: nat)
    ensures
        psum(m, n, 0, m * n + 1) == binom(m + n, m),
    decreases m + n,
{
    if m == 0 || n == 0 {
        assert(m * n == 0) by (nonlinear_arith)
            requires
                m == 0 || n == 0,
        ;
        lemma_binom_diag(m + n);
        assert(psum(m, n, 0, 1) == psum(m, n, 0, 0) + gb(m, n, 0));
    } else {
        lemma_mul_facts(m, n);
        lemma_psum_rec(m, n, m * n + 1);
        lemma_psum_shift((m - 1) as nat, n, n, m * n + 1);
        lemma_psum_tail(m, (n - 1) as nat, m * n + 1);
        lemma_psum_total((m - 1) as nat, n);
        lemma_psum_total(m, (n - 1) as nat);
    }
}

proof fn lemma_binom_above(a: nat, b: nat)
    requires
        b > a,
    ensures
        binom(a, b) == 0,
    decreases a,
{
    if a > 0 {
        lemma_binom_above((a - 1) as nat, (b - 1) as nat);
        lemma_binom_above((a - 1) as nat, b);
    }
}

proof fn lemma_binom_diag(a: nat)
    ensures
        binom(a, a) == 1,
        binom(a, 0) == 1,
    decreases a,
{
    if a > 0 {
        lemma_binom_diag((a - 1) as nat);
        lemma_binom_above((a - 1) as nat, a);
    }
}

proof fn lemma_sum_upto_gb(m: nat, n: nat, k: nat)
    requires
        k <= m * n + 1,
    ensures
        sum_upto(gb_vec(m, n), k) == psum(m, n, 0, k),
    decreases k,
{
    if k > 0 {
        lemma_sum_upto_gb(m, n, (k - 1) as nat);
    }
}

/// The vector of (0, 0) is the single coefficient 1.
pub proof fn lemma_base_case()
    ensures
        gb_vec(0, 0) == seq![1nat],
{
    assert(gb_vec(0, 0) =~= seq![1nat]);
}

/// The vectors of (1, n) and (n, 1) are n + 1 ones.
pub proof fn lemma_boundary(n: nat)
    ensures
        gb_vec(1, n) == Seq::new(n + 1, |l: int| 1nat),
        gb_vec(n, 1) == Seq::new(n + 1, |l: int| 1nat),
{
    assert forall|l: int| 0 <= l <= n implies gb(1, n, l) == 1 && gb(n, 1, l) == 1 by {
        lemma_gb_row_one(n, l);
        lemma_gb_col_one(n, l);
    }
    assert(gb_vec(1, n) =~= Seq::new(n + 1, |l: int| 1nat));
    assert(gb_vec(n, 1) =~= Seq::new(n + 1, |l: int| 1nat));
}

/// The vectors of (m, n) and (n, m) are equal.
pub proof fn lemma_vec_symmetric(m: nat, n: nat)
    ensures
        gb_vec(m, n) == gb_vec(n, m),
{
    assert(m * n == n * m) by (nonlinear_arith);
    assert forall|l: int| 0 <= l < m * n + 1 implies gb(m, n, l) == gb(n, m, l) by {
        lemma_gb_symmetric(m, n, l);
    }
    assert(gb_vec(m, n) =~= gb_vec(n, m));
}

/// For m, n >= 1 the vector of (m, n) is the recurrence step applied to the
/// vectors of (m - 1, n) and (m, n - 1): for m, n >= 2, entry l is
/// entry l - n of the first plus entry l of the second, each 0 out of range.
pub proof fn lemma_recurrence(m: nat, n: nat)
    requires
        m >= 1,
        n >= 1,
    ensures
        gb_vec(m, n) == combine(m, n, gb_vec((m - 1) as nat, n), gb_vec(m, (n - 1) as nat)),
{
    lemma_mul_facts(m, n);
    if m == 1 || n == 1 {
        if m == 1 {
            lemma_boundary(n);
        } else {
            lemma_boundary(m);
        }
    } else {
        assert forall|l: int| 0 <= l < m * n + 1 implies gb(m, n, l) == at(
            gb_vec((m - 1) as nat, n),
            l - n,
        ) + at(gb_vec(m, (n - 1) as nat), l) by {
            if l - n < 0 || l - n > (m - 1) * n {
                lemma_gb_zero_outside((m - 1) as nat, n, l - n);
            }
            if l > m * (n - 1) {
                lemma_gb_zero_outside(m, (n - 1) as nat, l);
            }
        }
    }
    assert(gb_vec(m, n) =~= combine(m, n, gb_vec((m - 1) as nat, n), gb_vec(m, (n - 1) as nat)));
}

/// The coefficients of (m, n) sum to the binomial coefficient C(m + n, m).
pub proof fn lemma_sum_identity(m: nat, n: nat)
    ensures
        total(gb_vec(m, n)) == binom(m + n, m),
{
    lemma_sum_upto_gb(m, n, m * n + 1);
    lemma_psum_total(m, n);
}

} // verus!
