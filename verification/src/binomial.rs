use vstd::prelude::*;

verus! {

use vstd::arithmetic::power::pow;

/// The binomial coefficient `n` choose `k`, by Pascal's rule.
pub open spec fn binom(n: nat, k: nat) -> nat
    decreases n,
{
    if k == 0 {
        1
    } else if n == 0 {
        0
    } else {
        binom((n - 1) as nat, (k - 1) as nat) + binom((n - 1) as nat, k)
    }
}

/// Relative likelihood, under the continuous model, that exactly `k` of the
/// `m` other numbers destined for the gap fall below the drawn one:
/// `C(m, k) · a^k · b^(m-k)`, where `a` and `b` are the widths of the range
/// below and above the drawn number (the mass scaled by `(a + b)^m`).
pub open spec fn binomial_mass(m: int, k: int, a: int, b: int) -> int {
    (binom(m as nat, k as nat) as int) * pow(a, k as nat) * pow(b, (m - k) as nat)
}

/// Relative likelihood, under the discrete model, that exactly `k` of the
/// `m` other numbers destined for the gap fall below the drawn one, when `l`
/// integers remain below it and `u` above it: `C(l, k) · C(u, m-k)`.
pub open spec fn hyper_mass(l: int, u: int, m: int, k: int) -> int {
    (binom(l as nat, k as nat) as int) * (binom(u as nat, (m - k) as nat) as int)
}

/// The first peak of the binomial mass: the smallest `k'` at or after `k`
/// where the mass stops growing, found by comparing adjacent masses through
/// the exact ratio test `mass(k+1) > mass(k) <=> (m-k)·a > (k+1)·b`.
pub open spec fn bin_peak(m: int, a: int, b: int, k: int) -> int
    decreases m - k,
{
    if k >= m {
        m
    } else if (m - k) * a > (k + 1) * b {
        bin_peak(m, a, b, k + 1)
    } else {
        k
    }
}

/// The first peak of the hypergeometric mass on `[k, hi]`, by the exact
/// adjacent-ratio test `mass(k+1) > mass(k) <=> (l-k)·(m-k) > (k+1)·(u+k+1-m)`.
pub open spec fn hyp_peak(l: int, u: int, m: int, k: int, hi: int) -> int
    decreases hi - k,
{
    if k >= hi {
        hi
    } else if (l - k) * (m - k) > (k + 1) * (u + k + 1 - m) {
        hyp_peak(l, u, m, k + 1, hi)
    } else {
        k
    }
}

proof fn lemma_binom_zero(n: nat, k: nat)
    requires
        k > n,
    ensures
        binom(n, k) == 0,
    decreases n,
{
    if n > 0 {
        lemma_binom_zero((n - 1) as nat, (k - 1) as nat);
        lemma_binom_zero((n - 1) as nat, k);
    }
}

proof fn lemma_binom_pos(n: nat, k: nat)
    requires
        k <= n,
    ensures
        binom(n, k) >= 1,
    decreases n,
{
    if k > 0 && n > 0 {
        lemma_binom_pos((n - 1) as nat, (k - 1) as nat);
    }
}

/// The adjacent-entry identity of Pascal's triangle:
/// `C(n, k+1) · (k+1) == C(n, k) · (n - k)`.
proof fn lemma_binom_ratio(n: nat, k: nat)
    ensures
        (binom(n, (k + 1) as nat) as int) * (k + 1) == (binom(n, k) as int) * (n as int - k as int),
    decreases n,
{
    if k >= n {
        lemma_binom_zero(n, (k + 1) as nat);
        if k > n {
            lemma_binom_zero(n, k);
        }
        assert((binom(n, (k + 1) as nat) as int) * (k + 1) == (binom(n, k) as int) * (n as int
            - k as int)) by (nonlinear_arith)
            requires
                binom(n, (k + 1) as nat) == 0,
                k >= n,
                k > n ==> binom(n, k) == 0,
        ;
    } else if n > 0 {
        let n1 = (n - 1) as nat;
        if k == 0 {
            lemma_binom_ratio(n1, 0);
            assert(binom(n, 1) == binom(n1, 0) + binom(n1, 1));
            assert(binom(n1, 1) == n1) by {
                assert((binom(n1, 1) as int) * 1 == (binom(n1, 0) as int) * (n1 as int - 0))
                    by (nonlinear_arith)
                    requires
                        (binom(n1, (0 + 1) as nat) as int) * (0 + 1) == (binom(n1, 0 as nat)
                            as int) * (n1 as int - 0 as int),
                ;
            }
            assert(binom(n, 1) == n);
            assert((binom(n, (k + 1) as nat) as int) * (k + 1) == (binom(n, k) as int) * (n as int
                - k as int)) by (nonlinear_arith)
                requires
                    k == 0,
                    binom(n, (k + 1) as nat) == n,
                    binom(n, k) == 1,
            ;
        } else {
            lemma_binom_ratio(n1, k);
            lemma_binom_ratio(n1, (k - 1) as nat);
            let ck = binom(n1, k) as int;
            let ck1 = binom(n1, (k - 1) as nat) as int;
            let cm = binom(n1, (k + 1) as nat) as int;
            assert(binom(n, (k + 1) as nat) == binom(n1, k) + binom(n1, (k + 1) as nat));
            assert(binom(n, k) == binom(n1, (k - 1) as nat) + binom(n1, k));
            assert((ck + cm) * (k + 1) == ck * (k + 1) + cm * (k + 1)) by (nonlinear_arith);
            assert(cm * (k + 1) == ck * (n1 as int - k as int));
            assert(ck * (k + 1) + ck * (n1 as int - k as int) == ck * (n as int)) by (nonlinear_arith)
                requires
                    n == n1 + 1,
            ;
            assert((ck1 + ck) * (n as int - k as int) == ck1 * (n as int - k as int) + ck * (
            n as int - k as int)) by (nonlinear_arith);
            assert(ck * (k as int) == ck1 * (n1 as int - (k - 1) as int));
            assert(ck1 * (n as int - k as int) + ck * (n as int - k as int) == ck * (n as int))
                by (nonlinear_arith)
                requires
                    ck1 * (n as int - k as int) == ck * (k as int),
            ;
        }
    }
}

proof fn lemma_mass_ratio(m: int, k: int, a: int, b: int)
    requires
        0 <= k < m,
        a >= 1,
        b >= 1,
    ensures
        binomial_mass(m, k + 1, a, b) * ((k + 1) * b) == binomial_mass(m, k, a, b) * ((m - k) * a),
{
    let c1 = binom(m as nat, (k + 1) as nat) as int;
    let c0 = binom(m as nat, k as nat) as int;
    let pa = pow(a, k as nat);
    let pb = pow(b, (m - (k + 1)) as nat);
    lemma_binom_ratio(m as nat, k as nat);
    assert(c1 * (k + 1) == c0 * (m - k));
    assert(pow(a, (k + 1) as nat) == a * pa) by {
        vstd::arithmetic::power::lemma_pow_adds(a, 1, k as nat);
        vstd::arithmetic::power::lemma_pow1(a);
        assert((1 + k as nat) == (k + 1) as nat);
    }
    assert(pow(b, (m - k) as nat) == b * pb) by {
        vstd::arithmetic::power::lemma_pow_adds(b, 1, (m - (k + 1)) as nat);
        vstd::arithmetic::power::lemma_pow1(b);
        assert((1 + (m - (k + 1)) as nat) == (m - k) as nat);
    }
    assert(binomial_mass(m, k + 1, a, b) == c1 * (a * pa) * pb);
    assert(binomial_mass(m, k, a, b) == c0 * pa * (b * pb));
    assert((c1 * (a * pa) * pb) * ((k + 1) * b) == (c1 * (k + 1)) * (pa * pb * a * b))
        by (nonlinear_arith);
    assert((c0 * pa * (b * pb)) * ((m - k) * a) == (c0 * (m - k)) * (pa * pb * a * b))
        by (nonlinear_arith);
    assert((c1 * (k + 1)) * (pa * pb * a * b) == (c0 * (m - k)) * (pa * pb * a * b))
        by (nonlinear_arith)
        requires
            c1 * (k + 1) == c0 * (m - k),
    ;
}

proof fn lemma_mass_pos(m: int, k: int, a: int, b: int)
    requires
        0 <= k <= m,
        a >= 1,
        b >= 1,
    ensures
        binomial_mass(m, k, a, b) >= 1,
{
    lemma_binom_pos(m as nat, k as nat);
    vstd::arithmetic::power::lemma_pow_positive(a, k as nat);
    vstd::arithmetic::power::lemma_pow_positive(b, (m - k) as nat);
    let c = binom(m as nat, k as nat) as int;
    let pa = pow(a, k as nat);
    let pb = pow(b, (m - k) as nat);
    assert(c * pa * pb >= 1) by (nonlinear_arith)
        requires
            c >= 1,
            pa >= 1,
            pb >= 1,
    ;
}

proof fn lemma_mass_step(m: int, k: int, a: int, b: int)
    requires
        0 <= k < m,
        a >= 1,
        b >= 1,
    ensures
        (m - k) * a > (k + 1) * b ==> binomial_mass(m, k + 1, a, b) > binomial_mass(m, k, a, b),
        (m - k) * a <= (k + 1) * b ==> binomial_mass(m, k + 1, a, b) <= binomial_mass(m, k, a, b),
{
    lemma_mass_ratio(m, k, a, b);
    lemma_mass_pos(m, k, a, b);
    lemma_mass_pos(m, k + 1, a, b);
    let x = binomial_mass(m, k + 1, a, b);
    let y = binomial_mass(m, k, a, b);
    assert(((m - k) * a > (k + 1) * b ==> x > y) && ((m - k) * a <= (k + 1) * b ==> x <= y))
        by (nonlinear_arith)
        requires
            x * ((k + 1) * b) == y * ((m - k) * a),
            x >= 1,
            y >= 1,
            k + 1 >= 1,
            m - k >= 1,
            a >= 1,
            b >= 1,
    ;
}

proof fn lemma_mass_up_chain(m: int, a: int, b: int, j: int, p: int)
    requires
        0 <= j <= p <= m,
        a >= 1,
        b >= 1,
        forall|t: int| j <= t < p ==> #[trigger] ((m - t) * a) > (t + 1) * b,
    ensures
        j < p ==> binomial_mass(m, j, a, b) < binomial_mass(m, p, a, b),
    decreases p - j,
{
    if j < p {
        lemma_mass_step(m, j, a, b);
        lemma_mass_up_chain(m, a, b, j + 1, p);
    }
}

proof fn lemma_mass_down_chain(m: int, a: int, b: int, p: int, j: int)
    requires
        0 <= p <= j <= m,
        a >= 1,
        b >= 1,
        p < m ==> (m - p) * a <= (p + 1) * b,
    ensures
        binomial_mass(m, j, a, b) <= binomial_mass(m, p, a, b),
    decreases j - p,
{
    if p < j {
        assert((m - (j - 1)) * a <= (m - p) * a) by (nonlinear_arith)
            requires
                a >= 1,
                p <= j - 1,
        ;
        assert((p + 1) * b <= ((j - 1) + 1) * b) by (nonlinear_arith)
            requires
                b >= 1,
                p <= j - 1,
        ;
        lemma_mass_step(m, j - 1, a, b);
        lemma_mass_down_chain(m, a, b, p, j - 1);
    }
}

proof fn lemma_bin_peak_props(m: int, a: int, b: int, k: int)
    requires
        0 <= k <= m,
    ensures
        k <= bin_peak(m, a, b, k) <= m,
        forall|t: int| k <= t < bin_peak(m, a, b, k) ==> #[trigger] ((m - t) * a) > (t + 1) * b,
        bin_peak(m, a, b, k) < m ==> (m - bin_peak(m, a, b, k)) * a <= (bin_peak(m, a, b, k) + 1)
            * b,
    decreases m - k,
{
    if k < m && (m - k) * a > (k + 1) * b {
        lemma_bin_peak_props(m, a, b, k + 1);
    }
}

/// The adjacent-ratio peak really is the maximum-likelihood rank: no rank's
/// binomial mass exceeds the peak's, and every earlier rank's mass is
/// strictly smaller, so equally likely ranks resolve to the earliest.
pub proof fn lemma_binomial_choice_maximizes(m: int, a: int, b: int)
    requires
        0 <= m,
        a >= 1,
        b >= 1,
    ensures
        forall|j: int|
            0 <= j <= m ==> #[trigger] binomial_mass(m, j, a, b) <= binomial_mass(
                m,
                bin_peak(m, a, b, 0),
                a,
                b,
            ),
        forall|j: int|
            0 <= j < bin_peak(m, a, b, 0) ==> #[trigger] binomial_mass(m, j, a, b)
                < binomial_mass(m, bin_peak(m, a, b, 0), a, b),
{
    let p = bin_peak(m, a, b, 0);
    lemma_bin_peak_props(m, a, b, 0);
    assert forall|j: int|
        0 <= j < p implies binomial_mass(m, j, a, b) < binomial_mass(m, p, a, b) by {
        lemma_mass_up_chain(m, a, b, j, p);
    }
    assert forall|j: int|
        0 <= j <= m implies binomial_mass(m, j, a, b) <= binomial_mass(m, p, a, b) by {
        if j < p {
            lemma_mass_up_chain(m, a, b, j, p);
        } else if j > p {
            lemma_mass_down_chain(m, a, b, p, j);
        }
    }
}

pub proof fn lemma_hyp_peak_range(l: int, u: int, m: int, k: int, hi: int)
    requires
        0 <= k <= hi,
    ensures
        k <= hyp_peak(l, u, m, k, hi) <= hi,
    decreases hi - k,
{
    if k < hi && (l - k) * (m - k) > (k + 1) * (u + k + 1 - m) {
        lemma_hyp_peak_range(l, u, m, k + 1, hi);
    }
}


/// The rank `BinomialQuantizedStrategy` picks, before the gap's first slot is
/// added: the first peak of the hypergeometric mass over its support, or rank
/// 0 when fewer than `m` integers remain and the mass is zero everywhere.
pub open spec fn quantized_rank(l: int, u: int, m: int) -> int {
    if l + u < m {
        0
    } else {
        hyp_peak(l, u, m, if m > u { m - u } else { 0 }, if l < m { l } else { m })
    }
}

proof fn lemma_hyper_ratio(l: int, u: int, m: int, k: int)
    requires
        0 <= k < m,
        0 <= l,
        0 <= u,
    ensures
        hyper_mass(l, u, m, k + 1) * ((k + 1) * (u + k + 1 - m)) == hyper_mass(l, u, m, k) * ((l
            - k) * (m - k)),
{
    let cl0 = binom(l as nat, k as nat) as int;
    let cl1 = binom(l as nat, (k + 1) as nat) as int;
    let cu1 = binom(u as nat, (m - (k + 1)) as nat) as int;
    let cu0 = binom(u as nat, (m - k) as nat) as int;
    lemma_binom_ratio(l as nat, k as nat);
    assert(cl1 * (k + 1) == cl0 * (l - k));
    lemma_binom_ratio(u as nat, (m - k - 1) as nat);
    assert(((m - k - 1) as nat + 1) == (m - k) as nat);
    assert(cu0 * (m - k) == cu1 * (u - (m - k - 1)));
    assert(hyper_mass(l, u, m, k + 1) == cl1 * cu1);
    assert(hyper_mass(l, u, m, k) == cl0 * cu0);
    assert((cl1 * cu1) * ((k + 1) * (u + k + 1 - m)) == (cl1 * (k + 1)) * (cu1 * (u + k + 1 - m)))
        by (nonlinear_arith);
    assert((cl0 * cu0) * ((l - k) * (m - k)) == (cl0 * (l - k)) * (cu0 * (m - k)))
        by (nonlinear_arith);
    assert((cl1 * (k + 1)) * (cu1 * (u + k + 1 - m)) == (cl0 * (l - k)) * (cu0 * (m - k)))
        by (nonlinear_arith)
        requires
            cl1 * (k + 1) == cl0 * (l - k),
            cu0 * (m - k) == cu1 * (u + k + 1 - m),
    ;
}

proof fn lemma_hyper_pos(l: int, u: int, m: int, k: int)
    requires
        0 <= k <= l,
        0 <= m - k <= u,
    ensures
        hyper_mass(l, u, m, k) >= 1,
{
    lemma_binom_pos(l as nat, k as nat);
    lemma_binom_pos(u as nat, (m - k) as nat);
    let x = binom(l as nat, k as nat) as int;
    let y = binom(u as nat, (m - k) as nat) as int;
    assert(x * y >= 1) by (nonlinear_arith)
        requires
            x >= 1,
            y >= 1,
    ;
}

proof fn lemma_hyper_zero(l: int, u: int, m: int, k: int)
    requires
        0 <= l,
        0 <= u,
        k > l || (k <= m && m - k > u),
    ensures
        hyper_mass(l, u, m, k) == 0,
{
    let x = binom(l as nat, k as nat) as int;
    let y = binom(u as nat, (m - k) as nat) as int;
    if k > l {
        lemma_binom_zero(l as nat, k as nat);
        assert(x * y == 0) by (nonlinear_arith)
            requires
                x == 0,
        ;
    } else {
        lemma_binom_zero(u as nat, (m - k) as nat);
        assert(x * y == 0) by (nonlinear_arith)
            requires
                y == 0,
        ;
    }
}

proof fn lemma_hyper_step(l: int, u: int, m: int, k: int)
    requires
        0 <= k < m,
        k < l || k < m && l >= k + 1,
        k + 1 <= l,
        m - k <= u,
        u + k + 1 - m >= 1,
    ensures
        (l - k) * (m - k) > (k + 1) * (u + k + 1 - m) ==> hyper_mass(l, u, m, k + 1) > hyper_mass(
            l,
            u,
            m,
            k,
        ),
        (l - k) * (m - k) <= (k + 1) * (u + k + 1 - m) ==> hyper_mass(l, u, m, k + 1)
            <= hyper_mass(l, u, m, k),
{
    lemma_hyper_ratio(l, u, m, k);
    lemma_hyper_pos(l, u, m, k);
    lemma_hyper_pos(l, u, m, k + 1);
    let x = hyper_mass(l, u, m, k + 1);
    let y = hyper_mass(l, u, m, k);
    assert(((l - k) * (m - k) > (k + 1) * (u + k + 1 - m) ==> x > y) && ((l - k) * (m - k) <= (k
        + 1) * (u + k + 1 - m) ==> x <= y)) by (nonlinear_arith)
        requires
            x * ((k + 1) * (u + k + 1 - m)) == y * ((l - k) * (m - k)),
            x >= 1,
            y >= 1,
            k + 1 >= 1,
            u + k + 1 - m >= 1,
            m - k >= 1,
            l - k >= 1,
    ;
}

proof fn lemma_hyper_up_chain(l: int, u: int, m: int, j: int, p: int)
    requires
        0 <= j <= p,
        p <= l,
        p <= m,
        m - j <= u,
        forall|t: int| j <= t < p ==> #[trigger] ((l - t) * (m - t)) > (t + 1) * (u + t + 1 - m),
    ensures
        j < p ==> hyper_mass(l, u, m, j) < hyper_mass(l, u, m, p),
    decreases p - j,
{
    if j < p {
        lemma_hyper_step(l, u, m, j);
        lemma_hyper_up_chain(l, u, m, j + 1, p);
    }
}

proof fn lemma_hyper_down_chain(l: int, u: int, m: int, p: int, j: int)
    requires
        0 <= p <= j,
        j <= l,
        j <= m,
        m - p <= u,
        u + p + 1 - m >= 1,
        p < m ==> (l - p) * (m - p) <= (p + 1) * (u + p + 1 - m),
    ensures
        hyper_mass(l, u, m, j) <= hyper_mass(l, u, m, p),
    decreases j - p,
{
    if p < j {
        assert((l - (j - 1)) * (m - (j - 1)) <= (l - p) * (m - p)) by (nonlinear_arith)
            requires
                p <= j - 1,
                j <= l,
                j <= m,
        ;
        assert((p + 1) * (u + p + 1 - m) <= ((j - 1) + 1) * (u + (j - 1) + 1 - m))
            by (nonlinear_arith)
            requires
                0 <= p <= j - 1,
                u + p + 1 - m >= 1,
        ;
        lemma_hyper_step(l, u, m, j - 1);
        lemma_hyper_down_chain(l, u, m, p, j - 1);
    }
}

proof fn lemma_hyp_peak_props(l: int, u: int, m: int, k: int, hi: int)
    requires
        0 <= k <= hi,
    ensures
        k <= hyp_peak(l, u, m, k, hi) <= hi,
        forall|t: int|
            k <= t < hyp_peak(l, u, m, k, hi) ==> #[trigger] ((l - t) * (m - t)) > (t + 1) * (u + t
                + 1 - m),
        hyp_peak(l, u, m, k, hi) < hi ==> (l - hyp_peak(l, u, m, k, hi)) * (m - hyp_peak(
            l,
            u,
            m,
            k,
            hi,
        )) <= (hyp_peak(l, u, m, k, hi) + 1) * (u + hyp_peak(l, u, m, k, hi) + 1 - m),
    decreases hi - k,
{
    if k < hi && (l - k) * (m - k) > (k + 1) * (u + k + 1 - m) {
        lemma_hyp_peak_props(l, u, m, k + 1, hi);
    }
}

/// The adjacent-ratio peak really is the maximum-likelihood rank of the
/// discrete model: no rank's hypergeometric mass exceeds the picked rank's,
/// and every earlier rank's mass is strictly smaller, so equally likely
/// ranks resolve to the earliest. When fewer than `m` integers remain the
/// mass is zero everywhere and rank 0 is as likely as any.
pub proof fn lemma_quantized_choice_maximizes(l: int, u: int, m: int)
    requires
        0 <= m,
        0 <= l,
        0 <= u,
    ensures
        forall|j: int|
            0 <= j <= m ==> #[trigger] hyper_mass(l, u, m, j) <= hyper_mass(
                l,
                u,
                m,
                quantized_rank(l, u, m),
            ),
        forall|j: int|
            0 <= j < quantized_rank(l, u, m) ==> #[trigger] hyper_mass(l, u, m, j) < hyper_mass(
                l,
                u,
                m,
                quantized_rank(l, u, m),
            ),
{
    if l + u < m {
        assert forall|j: int| 0 <= j <= m implies #[trigger] hyper_mass(l, u, m, j)
            <= hyper_mass(l, u, m, quantized_rank(l, u, m)) by {
            lemma_hyper_all_zero(l, u, m, j);
            lemma_hyper_all_zero(l, u, m, quantized_rank(l, u, m));
        }
    } else {
        let lo = if m > u { m - u } else { 0 };
        let hi = if l < m { l } else { m };
        let p = hyp_peak(l, u, m, lo, hi);
        lemma_hyp_peak_props(l, u, m, lo, hi);
        lemma_hyper_pos(l, u, m, p);
        assert forall|j: int| 0 <= j < p implies #[trigger] hyper_mass(l, u, m, j) < hyper_mass(
            l,
            u,
            m,
            p,
        ) by {
            if j < lo {
                lemma_hyper_zero(l, u, m, j);
            } else {
                lemma_hyper_up_chain(l, u, m, j, p);
            }
        }
        assert forall|j: int| 0 <= j <= m implies #[trigger] hyper_mass(l, u, m, j)
            <= hyper_mass(l, u, m, p) by {
            if j < lo {
                lemma_hyper_zero(l, u, m, j);
            } else if j < p {
                lemma_hyper_up_chain(l, u, m, j, p);
            } else if j <= hi {
                if p == hi && p < m {
                    // the scan ran to the end of the support: there the mass
                    // ratio cannot rise, the lower side being exhausted
                    assert(l == hi);
                    assert((l - p) * (m - p) <= (p + 1) * (u + p + 1 - m)) by (nonlinear_arith)
                        requires
                            l == p,
                            0 <= p,
                            m - p >= 1,
                            u + p + 1 - m >= 1,
                    ;
                }
                lemma_hyper_down_chain(l, u, m, p, j);
            } else {
                lemma_hyper_zero(l, u, m, j);
            }
        }
    }
}

proof fn lemma_hyper_all_zero(l: int, u: int, m: int, j: int)
    requires
        0 <= l,
        0 <= u,
        l + u < m,
        0 <= j <= m,
    ensures
        hyper_mass(l, u, m, j) == 0,
{
    if j > l {
        lemma_hyper_zero(l, u, m, j);
    } else {
        assert(m - j >= m - l > u);
        lemma_hyper_zero(l, u, m, j);
    }
}

} // verus!
