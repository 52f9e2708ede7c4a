//! Finite sums of integer sequences and the facts about them that the
//! polynomial evaluators rely on.
use vstd::prelude::*;
use vstd::arithmetic::power::pow;

verus! {

/// `f(0) + f(1) + ... + f(n - 1)`.
pub open spec fn sum(f: spec_fn(nat) -> int, n: nat) -> int
    decreases n,
{
    if n == 0 {
        0
    } else {
        sum(f, (n - 1) as nat) + f((n - 1) as nat)
    }
}

/// `f(0) + f(1) x + ... + f(n - 1) x^(n - 1)`, the value of a polynomial
/// with coefficient function `f` below degree `n`.
pub open spec fn monomial_sum(f: spec_fn(nat) -> int, x: int, n: nat) -> int {
    sum(|i: nat| f(i) * pow(x, i), n)
}

/// `f(lo) + x (f(lo + 1) + x (... + x f(n - 1)))`, the nested form.
pub open spec fn horner(f: spec_fn(nat) -> int, x: int, lo: nat, n: nat) -> int
    decreases n - lo,
{
    if lo >= n {
        0
    } else {
        f(lo) + x * horner(f, x, lo + 1, n)
    }
}

/// Sums agree where their terms agree.
pub proof fn lemma_sum_ext(f: spec_fn(nat) -> int, g: spec_fn(nat) -> int, n: nat)
    requires
        forall|i: nat| i < n ==> #[trigger] f(i) == g(i),
    ensures
        sum(f, n) == sum(g, n),
    decreases n,
{
    if n > 0 {
        lemma_sum_ext(f, g, (n - 1) as nat);
    }
}

/// The sum of termwise sums is the sum of the two sums.
pub proof fn lemma_sum_add(f: spec_fn(nat) -> int, g: spec_fn(nat) -> int, h: spec_fn(nat) -> int, n: nat)
    requires
        forall|i: nat| i < n ==> #[trigger] h(i) == f(i) + g(i),
    ensures
        sum(h, n) == sum(f, n) + sum(g, n),
    decreases n,
{
    if n > 0 {
        lemma_sum_add(f, g, h, (n - 1) as nat);
    }
}

/// A common factor comes out of a sum.
pub proof fn lemma_sum_scale(f: spec_fn(nat) -> int, h: spec_fn(nat) -> int, k: int, n: nat)
    requires
        forall|i: nat| i < n ==> #[trigger] h(i) == f(i) * k,
    ensures
        sum(h, n) == sum(f, n) * k,
    decreases n,
{
    if n > 0 {
        lemma_sum_scale(f, h, k, (n - 1) as nat);
        let n1 = (n - 1) as nat;
        assert((sum(f, n1) + f(n1)) * k == sum(f, n1) * k + f(n1) * k) by (nonlinear_arith);
    }
}

/// Summing row by row equals summing column by column.
pub proof fn lemma_sum_swap(g: spec_fn(nat, nat) -> int, m: nat, n: nat)
    ensures
        sum(|i: nat| sum(|j: nat| g(i, j), n), m) == sum(|j: nat| sum(|i: nat| g(i, j), m), n),
    decreases m,
{
    let rows = |i: nat| sum(|j: nat| g(i, j), n);
    let cols = |j: nat| sum(|i: nat| g(i, j), m);
    if m > 0 {
        let m1 = (m - 1) as nat;
        lemma_sum_swap(g, m1, n);
        let rows_m1 = |i: nat| sum(|j: nat| g(i, j), n);
        let cols_m1 = |j: nat| sum(|i: nat| g(i, j), m1);
        let last = |j: nat| g(m1, j);
        assert(sum(rows, m) == sum(rows, m1) + rows(m1));
        lemma_sum_ext(|j: nat| g(m1, j), last, n);
        lemma_sum_ext(rows, rows_m1, m1);
        assert forall|j: nat| j < n implies #[trigger] cols(j) == cols_m1(j) + last(j) by {
            assert(sum(|i: nat| g(i, j), m) == sum(|i: nat| g(i, j), m1) + g(m1, j));
            lemma_sum_ext(|i: nat| g(i, j), |i: nat| g(i, j), m1);
        }
        lemma_sum_add(cols_m1, last, cols, n);
    } else {
        assert(sum(rows, m) == 0);
        assert forall|j: nat| j < n implies #[trigger] cols(j) == 0 by {}
        lemma_sum_zero(cols, n);
    }
}

proof fn lemma_sum_zero(f: spec_fn(nat) -> int, n: nat)
    requires
        forall|i: nat| i < n ==> #[trigger] f(i) == 0,
    ensures
        sum(f, n) == 0,
    decreases n,
{
    if n > 0 {
        lemma_sum_zero(f, (n - 1) as nat);
    }
}

/// The nested form of a polynomial computes its monomial sum.
pub proof fn lemma_horner(f: spec_fn(nat) -> int, x: int, n: nat)
    ensures
        horner(f, x, 0, n) == monomial_sum(f, x, n),
{
    lemma_horner_from(f, x, 0, n);
    assert(monomial_sum(f, x, 0) == 0);
    assert(pow(x, 0) == 1) by {
        reveal(pow);
    }
}

proof fn lemma_horner_from(f: spec_fn(nat) -> int, x: int, k: nat, n: nat)
    requires
        k <= n,
    ensures
        monomial_sum(f, x, n) == monomial_sum(f, x, k) + pow(x, k) * horner(f, x, k, n),
    decreases n - k,
{
    if k < n {
        lemma_horner_from(f, x, k + 1, n);
        let h = horner(f, x, k + 1, n);
        let pk = pow(x, k);
        assert(pow(x, k + 1) == x * pk) by {
            reveal(pow);
        }
        assert(monomial_sum(f, x, k + 1) == monomial_sum(f, x, k) + f(k) * pk);
        assert(pk * (f(k) + x * h) == f(k) * pk + (x * pk) * h) by (nonlinear_arith);
    } else {
        assert(horner(f, x, k, n) == 0);
    }
}


/// Sums of termwise congruent terms are congruent.
pub proof fn lemma_sum_congruent(f: spec_fn(nat) -> int, g: spec_fn(nat) -> int, n: nat, m: int)
    requires
        m > 0,
        forall|i: nat| i < n ==> #[trigger] f(i) % m == g(i) % m,
    ensures
        sum(f, n) % m == sum(g, n) % m,
    decreases n,
{
    if n > 0 {
        let n1 = (n - 1) as nat;
        lemma_sum_congruent(f, g, n1, m);
        vstd::arithmetic::div_mod::lemma_add_mod_noop(sum(f, n1), f(n1), m);
        vstd::arithmetic::div_mod::lemma_add_mod_noop(sum(g, n1), g(n1), m);
    }
}

/// Polynomials with congruent coefficients take congruent values.
pub proof fn lemma_monomial_congruent(f: spec_fn(nat) -> int, g: spec_fn(nat) -> int, z: int, n: nat, m: int)
    requires
        m > 0,
        forall|k: nat| k < n ==> #[trigger] f(k) % m == g(k) % m,
    ensures
        monomial_sum(f, z, n) % m == monomial_sum(g, z, n) % m,
{
    let tf = |i: nat| f(i) * pow(z, i);
    let tg = |i: nat| g(i) * pow(z, i);
    assert forall|i: nat| i < n implies #[trigger] tf(i) % m == tg(i) % m by {
        vstd::arithmetic::div_mod::lemma_mul_mod_noop_left(f(i), pow(z, i), m);
        vstd::arithmetic::div_mod::lemma_mul_mod_noop_left(g(i), pow(z, i), m);
    }
    lemma_sum_congruent(tf, tg, n, m);
}

/// The value of a termwise sum of polynomials is the sum of their values.
pub proof fn lemma_monomial_add(f: spec_fn(nat) -> int, g: spec_fn(nat) -> int, h: spec_fn(nat) -> int, z: int, n: nat)
    requires
        forall|k: nat| k < n ==> #[trigger] h(k) == f(k) + g(k),
    ensures
        monomial_sum(h, z, n) == monomial_sum(f, z, n) + monomial_sum(g, z, n),
    decreases n,
{
    if n > 0 {
        let n1 = (n - 1) as nat;
        lemma_monomial_add(f, g, h, z, n1);
        assert((f(n1) + g(n1)) * pow(z, n1) == f(n1) * pow(z, n1) + g(n1) * pow(z, n1))
            by (nonlinear_arith);
    }
}

/// Coefficients that vanish from `d` on contribute nothing.
pub proof fn lemma_monomial_trailing_zeros(f: spec_fn(nat) -> int, z: int, d: nat, n: nat)
    requires
        d <= n,
        forall|k: nat| d <= k < n ==> #[trigger] f(k) == 0,
    ensures
        monomial_sum(f, z, d) == monomial_sum(f, z, n),
    decreases n - d,
{
    if d < n {
        let n1 = (n - 1) as nat;
        lemma_monomial_trailing_zeros(f, z, d, n1);
        assert(f(n1) == 0);
        assert(monomial_sum(f, z, n) == monomial_sum(f, z, n1) + f(n1) * pow(z, n1));
    }
}

/// Multiplying by `(X + a)`: the coefficients `a f(k) + f(k - 1)` give the
/// value `(z + a)` times the value of `f`, when the top coefficient of `f`
/// is zero.
pub proof fn lemma_monomial_linear_factor(f: spec_fn(nat) -> int, g: spec_fn(nat) -> int, a: int, z: int, n: nat)
    requires
        n >= 1,
        f((n - 1) as nat) == 0,
        forall|k: nat|
            k < n ==> #[trigger] g(k) == a * f(k) + if k == 0 {
                0
            } else {
                f((k - 1) as nat)
            },
    ensures
        monomial_sum(g, z, n) == (z + a) * monomial_sum(f, z, n),
{
    lemma_linear_factor_prefix(f, g, a, z, n, n);
    let n1 = (n - 1) as nat;
    assert(monomial_sum(f, z, n) == monomial_sum(f, z, n1) + f(n1) * pow(z, n1));
    let s = monomial_sum(f, z, n);
    assert(a * s + z * s == (z + a) * s) by (nonlinear_arith);
}

proof fn lemma_linear_factor_prefix(f: spec_fn(nat) -> int, g: spec_fn(nat) -> int, a: int, z: int, n: nat, m: nat)
    requires
        1 <= m <= n,
        forall|k: nat|
            k < n ==> #[trigger] g(k) == a * f(k) + if k == 0 {
                0
            } else {
                f((k - 1) as nat)
            },
    ensures
        monomial_sum(g, z, m) == a * monomial_sum(f, z, m) + z * monomial_sum(f, z, (m - 1) as nat),
    decreases m,
{
    assert(pow(z, 0) == 1) by {
        reveal(pow);
    }
    if m == 1 {
        assert(monomial_sum(g, z, 0) == 0);
        assert(monomial_sum(g, z, 1) == g(0) * pow(z, 0));
        assert(monomial_sum(f, z, 0) == 0);
        assert(monomial_sum(f, z, 1) == f(0) * pow(z, 0));
        assert(g(0) == a * f(0));
        assert(a * (f(0) * 1) + z * 0 == a * f(0) * 1) by (nonlinear_arith);
    } else {
        let m1 = (m - 1) as nat;
        let m2 = (m - 2) as nat;
        lemma_linear_factor_prefix(f, g, a, z, n, m1);
        assert(pow(z, m1) == z * pow(z, m2)) by {
            reveal(pow);
        }
        let sg = monomial_sum(g, z, m1);
        let sf1 = monomial_sum(f, z, m1);
        let sf2 = monomial_sum(f, z, m2);
        assert(monomial_sum(g, z, m) == sg + g(m1) * pow(z, m1));
        assert(monomial_sum(f, z, m) == sf1 + f(m1) * pow(z, m1));
        assert(sf1 == sf2 + f(m2) * pow(z, m2));
        assert(g(m1) == a * f(m1) + f(m2));
        let pw_low = pow(z, m2);
        let pw_high = pow(z, m1);
        let fm1 = f(m1);
        let fm2 = f(m2);
        assert(fm2 * (z * pw_low) == z * (fm2 * pw_low)) by (nonlinear_arith);
        assert(z * sf1 == z * sf2 + z * (fm2 * pw_low)) by (nonlinear_arith)
            requires
                sf1 == sf2 + fm2 * pw_low,
        ;
        assert(a * (sf1 + fm1 * pw_high) == a * sf1 + a * (fm1 * pw_high)) by (nonlinear_arith);
        assert((a * fm1 + fm2) * pw_high == a * (fm1 * pw_high) + fm2 * pw_high) by (nonlinear_arith);
    }
}

} // verus!
