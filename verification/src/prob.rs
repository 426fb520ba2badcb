//! Exact combinatorics: binomial coefficients and hypergeometric tail
//! probabilities, kept as integer numerators and denominators so that every
//! result is exact.

use vstd::prelude::*;

verus! {

use crate::NN;

/// The binomial coefficient `n choose k`, defined by Pascal's rule.
pub open spec fn spec_binomial(n: nat, k: nat) -> nat
    decreases n,
{
    if k == 0 {
        1
    } else if n == 0 {
        0
    } else {
        spec_binomial((n - 1) as nat, (k - 1) as nat) + spec_binomial((n - 1) as nat, k)
    }
}

/// The tail of the hypergeometric count: the number of ways of drawing `k`
/// items from `r` red and `m` black ones such that at least `x` reds are
/// drawn, as the sum over `i` in `x..=k` of `C(r,i)·C(m,k-i)`.
pub open spec fn hyper_sum_from(r: nat, m: nat, k: nat, x: nat) -> nat
    decreases k + 1 - x,
{
    if x > k {
        0
    } else {
        spec_binomial(r, x) * spec_binomial(m, (k - x) as nat) + hyper_sum_from(
            r,
            m,
            k,
            (x + 1) as nat,
        )
    }
}

/// Choosing more items than there are is impossible.
pub proof fn lemma_binomial_k_gt_n(n: nat, k: nat)
    requires
        k > n,
    ensures
        spec_binomial(n, k) == 0,
    decreases n,
{
    if n > 0 {
        lemma_binomial_k_gt_n((n - 1) as nat, (k - 1) as nat);
        lemma_binomial_k_gt_n((n - 1) as nat, k);
    }
}

/// There is exactly one way of choosing everything.
pub proof fn lemma_binomial_n_n(n: nat)
    ensures
        spec_binomial(n, n) == 1,
    decreases n,
{
    if n > 0 {
        lemma_binomial_n_n((n - 1) as nat);
        lemma_binomial_k_gt_n((n - 1) as nat, n);
    }
}

/// A possible choice can be made in at least one way.
pub proof fn lemma_binomial_pos(n: nat, k: nat)
    requires
        k <= n,
    ensures
        spec_binomial(n, k) >= 1,
    decreases n,
{
    if k > 0 {
        lemma_binomial_pos((n - 1) as nat, (k - 1) as nat);
    }
}

/// Symmetry of the binomial coefficient: `C(n,k) == C(n,n-k)` for `k <= n`.
pub proof fn lemma_binomial_symmetry(n: nat, k: nat)
    requires
        k <= n,
    ensures
        spec_binomial(n, k) == spec_binomial(n, (n - k) as nat),
    decreases n,
{
    if k == 0 {
        lemma_binomial_n_n(n);
    } else if k == n {
        lemma_binomial_n_n(n);
    } else {
        lemma_binomial_symmetry((n - 1) as nat, (k - 1) as nat);
        lemma_binomial_symmetry((n - 1) as nat, k);
    }
}

/// The binomial coefficient grows with the number of items to choose from.
proof fn lemma_binomial_mono_n(n1: nat, n2: nat, k: nat)
    requires
        n1 <= n2,
    ensures
        spec_binomial(n1, k) <= spec_binomial(n2, k),
    decreases n2 - n1,
{
    if n1 < n2 {
        lemma_binomial_mono_n(n1, (n2 - 1) as nat, k);
    }
}

/// Below the middle, the binomial coefficient grows with `k`.
proof fn lemma_binomial_step_up(n: nat, j: nat)
    requires
        2 * j + 1 <= n,
    ensures
        spec_binomial(n, j) <= spec_binomial(n, (j + 1) as nat),
    decreases n,
{
    if j == 0 {
        lemma_binomial_pos(n, 1);
    } else {
        if 2 * j + 1 <= n - 1 {
            lemma_binomial_step_up((n - 1) as nat, (j - 1) as nat);
            lemma_binomial_step_up((n - 1) as nat, j);
        } else {
            lemma_binomial_symmetry((n - 1) as nat, (j - 1) as nat);
        }
    }
}

/// Any column at or below the middle column is bounded by it.
proof fn lemma_binomial_le_mid(n: nat, j: nat, h: nat)
    requires
        j <= h,
        2 * h <= n,
    ensures
        spec_binomial(n, j) <= spec_binomial(n, h),
    decreases h - j,
{
    if j < h {
        lemma_binomial_step_up(n, j);
        lemma_binomial_le_mid(n, (j + 1) as nat, h);
    }
}

/// Dropping leading terms cannot increase the tail sum.
proof fn lemma_hyper_tail_le(r: nat, m: nat, k: nat, x1: nat, x2: nat)
    requires
        x1 <= x2,
    ensures
        hyper_sum_from(r, m, k, x2) <= hyper_sum_from(r, m, k, x1),
    decreases x2 - x1,
{
    if x1 < x2 {
        lemma_hyper_tail_le(r, m, k, (x1 + 1) as nat, x2);
    }
}

/// With no red items at all, no draw contains one or more reds.
pub proof fn lemma_hyper_no_reds(m: nat, k: nat, x: nat)
    requires
        x >= 1,
    ensures
        hyper_sum_from(0, m, k, x) == 0,
    decreases k + 1 - x,
{
    if x <= k {
        lemma_binomial_k_gt_n(0, x);
        lemma_hyper_no_reds(m, k, (x + 1) as nat);
    }
}

/// With only red items, every draw of `k` contains at least `q <= k` reds:
/// the tail sum is the full count of draws.
pub proof fn lemma_hyper_all_reds(n: nat, k: nat, q: nat)
    requires
        q <= k,
    ensures
        hyper_sum_from(n, 0, k, q) == spec_binomial(n, k),
    decreases k - q,
{
    let c = spec_binomial(n, q);
    if q == k {
        assert(hyper_sum_from(n, 0, k, (k + 1) as nat) == 0);
        assert(c * spec_binomial(0, (k - q) as nat) == c) by (nonlinear_arith)
            requires
                spec_binomial(0, (k - q) as nat) == 1,
        ;
    } else {
        lemma_binomial_k_gt_n(0, (k - q) as nat);
        lemma_hyper_all_reds(n, k, (q + 1) as nat);
        assert(c * spec_binomial(0, (k - q) as nat) == 0) by (nonlinear_arith)
            requires
                spec_binomial(0, (k - q) as nat) == 0,
        ;
    }
}

/// Pascal's rule lifted to the tail sum, splitting on whether the first red
/// item is drawn.
proof fn lemma_hyper_pascal(r: nat, m: nat, k: nat, x: nat)
    requires
        r >= 1,
        k >= 1,
        x >= 1,
    ensures
        hyper_sum_from(r, m, k, x) == hyper_sum_from((r - 1) as nat, m, (k - 1) as nat, (x - 1) as nat)
            + hyper_sum_from((r - 1) as nat, m, k, x),
    decreases k + 1 - x,
{
    if x > k {
        assert(hyper_sum_from((r - 1) as nat, m, (k - 1) as nat, (x - 1) as nat) == 0);
    } else {
        lemma_hyper_pascal(r, m, k, (x + 1) as nat);
        let a = spec_binomial((r - 1) as nat, (x - 1) as nat);
        let b = spec_binomial((r - 1) as nat, x);
        let c = spec_binomial(m, (k - x) as nat);
        assert(spec_binomial(r, x) == a + b);
        assert((a + b) * c == a * c + b * c) by (nonlinear_arith);
        assert((k - 1) - (x - 1) == k - x);
    }
}

/// Vandermonde's identity: summing the hypergeometric count over every
/// possible number of reds gives the total number of `k`-draws.
pub proof fn lemma_vandermonde(r: nat, m: nat, k: nat)
    ensures
        hyper_sum_from(r, m, k, 0) == spec_binomial((r + m) as nat, k),
    decreases r,
{
    if r == 0 {
        lemma_hyper_no_reds(m, k, 1);
    } else if k == 0 {
        assert(hyper_sum_from(r, m, 0, 1) == 0);
    } else {
        lemma_vandermonde((r - 1) as nat, m, (k - 1) as nat);
        lemma_vandermonde((r - 1) as nat, m, k);
        lemma_hyper_pascal(r, m, k, 1);
        assert(hyper_sum_from(r, m, k, 0) == spec_binomial(r, 0) * spec_binomial(m, k)
            + hyper_sum_from(r, m, k, 1));
        assert(hyper_sum_from((r - 1) as nat, m, k, 0) == spec_binomial((r - 1) as nat, 0)
            * spec_binomial(m, k) + hyper_sum_from((r - 1) as nat, m, k, 1));
    }
}

/// The tail sum never exceeds the total number of `k`-draws.
pub proof fn lemma_hyper_le_total(r: nat, m: nat, k: nat, q: nat)
    ensures
        hyper_sum_from(r, m, k, q) <= spec_binomial((r + m) as nat, k),
{
    lemma_hyper_tail_le(r, m, k, 0, q);
    lemma_vandermonde(r, m, k);
}

/// Calculate `n choose k` exactly, or `None` where the value does not fit
/// the result type: `Some` is returned if and only if it fits.
pub fn binomial(n: NN, k: NN) -> (res: Option<u128>)
    requires
        n >= k,
    ensures
        match res {
            Some(v) => v == spec_binomial(n as nat, k as nat),
            None => spec_binomial(n as nat, k as nat) > u128::MAX,
        },
{
    let kk = if k <= n - k {
        k
    } else {
        n - k
    };
    proof {
        if kk != k {
            lemma_binomial_symmetry(n as nat, k as nat);
        }
    }
    // Pascal's triangle, one row at a time, columns 0..=kk.
    let mut row: Vec<u128> = Vec::new();
    row.push(1);
    let mut j: u64 = 0;
    while j < kk
        invariant
            j <= kk,
            row.len() == j + 1,
            forall|t: int| 0 <= t <= j ==> row[t] == spec_binomial(0, t as nat),
        decreases kk - j,
    {
        row.push(0);
        proof {
            lemma_binomial_k_gt_n(0, (j + 1) as nat);
        }
        j += 1;
    }
    let mut i: u64 = 0;
    while i < n
        invariant
            i <= n,
            kk <= n / 2 || (kk <= k && kk <= n - k),
            2 * kk <= n,
            kk <= n,
            row.len() == kk + 1,
            spec_binomial(n as nat, kk as nat) == spec_binomial(n as nat, k as nat),
            forall|t: int| 0 <= t <= kk ==> row[t] == spec_binomial(i as nat, t as nat),
        decreases n - i,
    {
        let mut new_row: Vec<u128> = Vec::new();
        new_row.push(1);
        let mut j: u64 = 1;
        while j <= kk
            invariant
                1 <= j <= kk + 1,
                i < n,
                2 * kk <= n,
                row.len() == kk + 1,
                new_row.len() == j,
                spec_binomial(n as nat, kk as nat) == spec_binomial(n as nat, k as nat),
                forall|t: int| 0 <= t <= kk ==> row[t] == spec_binomial(i as nat, t as nat),
                forall|t: int| 0 <= t < j ==> new_row[t] == spec_binomial((i + 1) as nat, t as nat),
            decreases kk + 1 - j,
        {
            let lo = row[(j - 1) as usize];
            let hi = row[j as usize];
            if lo > u128::MAX - hi {
                proof {
                    // The overflowing entry C(i+1, j) is itself bounded by
                    // the result C(n, kk), so the result does not fit.
                    lemma_binomial_mono_n((i + 1) as nat, n as nat, j as nat);
                    lemma_binomial_le_mid(n as nat, j as nat, kk as nat);
                }
                return None;
            }
            new_row.push(lo + hi);
            j += 1;
        }
        row = new_row;
        i += 1;
    }
    Some(row[kk as usize])
}

/// A probability as an exact rational number `num / den`.
#[derive(Clone, Copy, PartialEq, Eq, Structural, Debug)]
pub struct Ratio {
    /// Numerator; at most `den`.
    pub num: u128,
    /// Denominator; at least 1.
    pub den: u128,
}

impl Ratio {
    /// A value in the closed unit interval: `0 <= num/den <= 1`.
    pub open spec fn wf(self) -> bool {
        1 <= self.den && self.num <= self.den
    }

    /// The probability 0.
    pub fn zero() -> (r: Ratio)
        ensures
            r.num == 0,
            r.den == 1,
            r.wf(),
    {
        Ratio { num: 0, den: 1 }
    }

    /// The probability 1.
    pub fn one() -> (r: Ratio)
        ensures
            r.num == r.den == 1,
            r.wf(),
    {
        Ratio { num: 1, den: 1 }
    }
}

/// Calculate the probability of choosing at least `q` "red" nodes, where
/// there are `n` total nodes, `r` of them red, and we choose `k`, as the
/// exact rational with numerator `hyper_sum_from(r, n-r, k, q)` and
/// denominator `C(n, k)`. Returns `None` exactly when the denominator does
/// not fit the result type.
pub fn prob_compromise(n: NN, r: NN, k: NN, q: NN) -> (res: Option<Ratio>)
    requires
        n >= r,
        n >= k,
        k >= q,
        n - r >= k - q,
    ensures
        match res {
            Some(p) => {
                &&& p.num == hyper_sum_from(r as nat, (n - r) as nat, k as nat, q as nat)
                &&& p.den == spec_binomial(n as nat, k as nat)
                &&& p.wf()
            },
            None => spec_binomial(n as nat, k as nat) > u128::MAX,
        },
{
    let den = match binomial(n, k) {
        Some(d) => d,
        None => {
            return None;
        },
    };
    proof {
        lemma_binomial_pos(n as nat, k as nat);
    }
    let m = n - r;
    let ghost rn = r as nat;
    let ghost mn = m as nat;
    let ghost kn = k as nat;
    let ghost qn = q as nat;
    let mut acc: u128 = 0;
    let mut x: u128 = q as u128;
    while x <= k as u128
        invariant
            q as u128 <= x <= k as u128 + 1,
            n >= r,
            k >= q,
            m == n - r,
            n - r >= k - q,
            den == spec_binomial(n as nat, k as nat),
            den >= 1,
            acc + hyper_sum_from(rn, mn, kn, x as nat) == hyper_sum_from(rn, mn, kn, qn),
            rn == r as nat && mn == m as nat && kn == k as nat && qn == q as nat,
            acc <= den,
        decreases k as u128 + 1 - x,
    {
        proof {
            lemma_hyper_le_total(rn, mn, kn, qn);
            lemma_hyper_tail_le(rn, mn, kn, qn, x as nat);
        }
        if x > r as u128 {
            proof {
                lemma_binomial_k_gt_n(rn, x as nat);
            }
        } else {
            let ghost term = spec_binomial(rn, x as nat) * spec_binomial(
                mn,
                (kn - x as nat) as nat,
            );
            proof {
                // The term is one summand of a tail that is bounded by the
                // denominator, and each factor divides the term.
                assert(hyper_sum_from(rn, mn, kn, x as nat) == term + hyper_sum_from(
                    rn,
                    mn,
                    kn,
                    (x as nat + 1) as nat,
                ));
                lemma_binomial_pos(rn, x as nat);
                lemma_binomial_pos(mn, (kn - x as nat) as nat);
                let t1s = spec_binomial(rn, x as nat) as int;
                let t2s = spec_binomial(mn, (kn - x as nat) as nat) as int;
                vstd::arithmetic::mul::lemma_mul_inequality(1, t2s, t1s);
                vstd::arithmetic::mul::lemma_mul_inequality(1, t1s, t2s);
                vstd::arithmetic::mul::lemma_mul_is_commutative(t1s, t2s);
            }
            let t1 = match binomial(r, x as u64) {
                Some(v) => v,
                None => {
                    proof {
                        assert(false);
                    }
                    0
                },
            };
            let t2 = match binomial(m, k - x as u64) {
                Some(v) => v,
                None => {
                    proof {
                        assert(false);
                    }
                    0
                },
            };
            let t = t1 * t2;
            acc = acc + t;
        }
        x = x + 1;
    }
    proof {
        assert(hyper_sum_from(rn, mn, kn, (kn + 1) as nat) == 0);
    }
    Some(Ratio { num: acc, den })
}

/// Calculate the probability that fewer than `q` of the `k` chosen nodes
/// are "black", where `r` of the `n` nodes are red and the rest black: the
/// complement `1 - prob_compromise(n, n-r, k, q)`. Returns `None` exactly
/// when the denominator does not fit the result type.
pub fn prob_disruption(n: NN, r: NN, k: NN, q: NN) -> (res: Option<Ratio>)
    requires
        n >= r,
        n >= k,
        k >= q,
        r >= k - q,
    ensures
        match res {
            Some(p) => {
                &&& p.num == spec_binomial(n as nat, k as nat) - hyper_sum_from(
                    (n - r) as nat,
                    r as nat,
                    k as nat,
                    q as nat,
                )
                &&& p.den == spec_binomial(n as nat, k as nat)
                &&& p.wf()
            },
            None => spec_binomial(n as nat, k as nat) > u128::MAX,
        },
{
    match prob_compromise(n, n - r, k, q) {
        Some(p) => {
            proof {
                lemma_hyper_le_total((n - r) as nat, r as nat, k as nat, q as nat);
            }
            Some(Ratio { num: p.den - p.num, den: p.den })
        },
        None => None,
    }
}

} // verus!
