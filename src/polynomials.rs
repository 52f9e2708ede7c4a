//! Univariate polynomials and symmetric bivariate polynomials over the base
//! field, their evaluation, and interpolation from evaluation points.
use vstd::prelude::*;
use vstd::arithmetic::div_mod::*;
use vstd::arithmetic::power::pow;
use ark_std::rand::rngs::StdRng;
use crate::field::{limb_base, fe_add, fe_mul, fe_pow, fe_sub, fe_inverse, fe_rand, lemma_modulus_large, modulus, Fe};
use crate::sums::{
    horner, lemma_horner, lemma_monomial_add, lemma_monomial_congruent, lemma_monomial_linear_factor,
    lemma_monomial_trailing_zeros, lemma_sum_ext, lemma_sum_scale, lemma_sum_swap, monomial_sum, sum,
};

verus! {

/// The coefficient function of a coefficient sequence: zero past its end.
pub open spec fn coeff_fn(c: Seq<Fe>) -> spec_fn(nat) -> int {
    |i: nat|
        if i < c.len() {
            c[i as int].val()
        } else {
            0
        }
}

/// Every element of `s` is a canonical field element.
pub open spec fn all_wf(s: Seq<Fe>) -> bool {
    forall|i: int| 0 <= i < s.len() ==> #[trigger] s[i].wf()
}

proof fn lemma_mod_horner_step(c: int, x: int, h: int)
    requires
        modulus() > 0,
    ensures
        (c + (x * (h % modulus())) % modulus()) % modulus() == (c + x * h) % modulus(),
{
    lemma_mul_mod_noop_right(x, h, modulus());
    lemma_add_mod_noop_right(c, x * h, modulus());
}

proof fn lemma_mod_accumulate(s: int, c: int, p: int)
    requires
        modulus() > 0,
    ensures
        (s % modulus() + (c * (p % modulus())) % modulus()) % modulus() == (s + c * p)
            % modulus(),
{
    lemma_mul_mod_noop_right(c, p, modulus());
    lemma_add_mod_noop(s, c * p, modulus());
}

/// A univariate polynomial: coefficients from the constant term up, and the
/// degree up to which they are read.
#[derive(Clone, Debug)]
pub struct Poly {
    pub coeffs: Vec<Fe>,
    pub degree: u64,
}

impl Poly {
    pub open spec fn wf(&self) -> bool {
        &&& self.degree < self.coeffs.len()
        &&& all_wf(self.coeffs@)
    }

    /// The value of the polynomial at `x`, as a canonical residue.
    pub open spec fn value_at(&self, x: int) -> int {
        monomial_sum(coeff_fn(self.coeffs@), x, (self.degree + 1) as nat) % modulus()
    }

    /// Evaluation term by term, with one power of `x` per coefficient.
    pub fn eval_std(&self, x: Fe) -> (r: Fe)
        requires
            self.wf(),
            x.wf(),
        ensures
            r.wf(),
            r.val() == self.value_at(x.val()),
    {
        proof {
            lemma_modulus_large();
        }
        let ghost f = coeff_fn(self.coeffs@);
        let mut result = Fe::zero();
        let mut i: u64 = 0;
        assert(monomial_sum(f, x.val(), 0) == 0);
        while i <= self.degree
            invariant
                self.wf(),
                x.wf(),
                f == coeff_fn(self.coeffs@),
                modulus() > 0,
                i <= self.degree + 1,
                result.wf(),
                result.val() == monomial_sum(f, x.val(), i as nat) % modulus(),
            decreases self.degree + 1 - i,
        {
            let pw = fe_pow(&x, i);
            let term = fe_mul(&self.coeffs[i as usize], &pw);
            let next = fe_add(&result, &term);
            proof {
                let s = monomial_sum(f, x.val(), i as nat);
                let p = pow(x.val(), i as nat);
                lemma_mod_accumulate(s, f(i as nat), p);
                assert(monomial_sum(f, x.val(), (i + 1) as nat) == s + f(i as nat) * p);
            }
            result = next;
            i = i + 1;
        }
        result
    }

    /// Evaluation in nested form, from the highest coefficient down.
    pub fn eval(&self, x: Fe) -> (r: Fe)
        requires
            self.wf(),
            x.wf(),
        ensures
            r.wf(),
            r.val() == self.value_at(x.val()),
    {
        proof {
            lemma_modulus_large();
        }
        let ghost f = coeff_fn(self.coeffs@);
        let ghost n = (self.degree + 1) as nat;
        let mut result = Fe::zero();
        let mut k: u64 = self.degree + 1;
        assert(horner(f, x.val(), n, n) == 0);
        while k > 0
            invariant
                self.wf(),
                x.wf(),
                f == coeff_fn(self.coeffs@),
                n == self.degree + 1,
                modulus() > 0,
                k <= n,
                result.wf(),
                result.val() == horner(f, x.val(), k as nat, n) % modulus(),
            decreases k,
        {
            k = k - 1;
            let next = fe_add(&self.coeffs[k as usize], &fe_mul(&x, &result));
            proof {
                lemma_mod_horner_step(f(k as nat), x.val(), horner(f, x.val(), (k + 1) as nat, n));
            }
            result = next;
        }
        proof {
            lemma_horner(f, x.val(), n);
        }
        result
    }
}


/// Why interpolation could not be carried out.
#[derive(Clone, Copy, Debug, PartialEq, Eq, Structural)]
pub enum InterpolationError {
    /// Two of the evaluation points coincide.
    DegenerateInterpolation,
}

/// Two of the first `n` points of `x` coincide.
pub open spec fn has_duplicate(x: Seq<u64>, n: int) -> bool {
    exists|i: int, j: int| 0 <= i < j < n && x[i] == x[j]
}

/// `d` is the highest index of a non-zero coefficient of `c`, or 0 when all
/// of them are zero.
pub open spec fn is_effective_degree(c: Seq<Fe>, d: int) -> bool {
    &&& 0 <= d < c.len()
    &&& forall|k: int| d < k < c.len() ==> (#[trigger] c[k]).val() == 0
    &&& d > 0 ==> c[d].val() != 0
}

proof fn lemma_distinct_points_differ(a: u64, b: u64)
    requires
        a != b,
    ensures
        (a - b) % modulus() != 0,
{
    lemma_modulus_large();
    let d = a - b;
    if d > 0 {
        lemma_small_mod(d as nat, modulus() as nat);
    } else {
        lemma_fundamental_div_mod_converse(d, modulus(), -1, d + modulus());
    }
}

/// The value at `z` of the polynomial whose coefficients are all of `c`.
pub open spec fn seq_value(c: Seq<Fe>, z: int) -> int {
    monomial_sum(coeff_fn(c), z, c.len())
}

/// The product of `z - x[j]` over `j < m`, leaving out `j == i`.
pub open spec fn prod_except(x: Seq<u64>, i: int, z: int, m: nat) -> int
    decreases m,
{
    if m == 0 {
        1
    } else {
        prod_except(x, i, z, (m - 1) as nat) * if m - 1 == i {
            1
        } else {
            z - x[m - 1]
        }
    }
}

proof fn lemma_prod_except_vanishes(x: Seq<u64>, i: int, z: int, m: nat, root: int)
    requires
        0 <= root < m,
        root != i,
        x[root] == z,
    ensures
        prod_except(x, i, z, m) == 0,
    decreases m,
{
    let rest = prod_except(x, i, z, (m - 1) as nat);
    let last = if m - 1 == i {
        1
    } else {
        z - x[m - 1]
    };
    if root < m - 1 {
        lemma_prod_except_vanishes(x, i, z, (m - 1) as nat, root);
        assert(rest == 0);
    } else {
        assert(last == 0);
    }
    assert(rest == 0 || last == 0);
    assert(rest * last == 0) by (nonlinear_arith)
        requires
            rest == 0 || last == 0,
    ;
}

proof fn lemma_mul_congruent(a: int, a2: int, b: int, b2: int)
    requires
        modulus() > 0,
        a % modulus() == a2 % modulus(),
        b % modulus() == b2 % modulus(),
    ensures
        (a * b) % modulus() == (a2 * b2) % modulus(),
{
    lemma_mul_mod_noop(a, b, modulus());
    lemma_mul_mod_noop(a2, b2, modulus());
}

/// Multiplies the polynomial with coefficients `terms` by `X + neg`, in
/// place; the top coefficient must be zero, and the product keeps the
/// length.
fn mul_by_linear(terms: &mut Vec<Fe>, neg: &Fe, Ghost(d): Ghost<nat>)
    requires
        d + 1 < old(terms).len(),
        all_wf(old(terms)@),
        neg.wf(),
        forall|k: int| d < k < old(terms).len() ==> (#[trigger] old(terms)@[k]).val() == 0,
    ensures
        final(terms).len() == old(terms).len(),
        all_wf(final(terms)@),
        forall|k: int| d + 1 < k < final(terms).len() ==> (#[trigger] final(terms)@[k]).val() == 0,
        forall|z: int|
            #![trigger seq_value(final(terms)@, z)]
            seq_value(final(terms)@, z) % modulus() == ((z + neg.val()) * seq_value(
                old(terms)@,
                z,
            )) % modulus(),
{
    proof {
        lemma_modulus_large();
    }
    let ghost o = old(terms)@;
    let ghost a = neg.val();
    let n = terms.len();
    let mut k: usize = n - 1;
    assert(o[n - 1].val() == 0);
    assert(a * 0 == 0);
    assert(0int % modulus() == 0);
    while k > 0
        invariant
            n == terms.len(),
            n == o.len(),
            d + 1 < n,
            modulus() > 0,
            a == neg.val(),
            neg.wf(),
            all_wf(o),
            all_wf(terms@),
            k < n,
            forall|j: int| d < j < n ==> (#[trigger] o[j]).val() == 0,
            forall|j: int| 0 <= j < k ==> #[trigger] terms@[j] == o[j],
            terms@[k as int].val() == (a * o[k as int].val()) % modulus(),
            forall|j: int|
                k < j < n ==> (#[trigger] terms@[j]).val() == (a * o[j].val() + o[j - 1].val())
                    % modulus(),
        decreases k,
    {
        let lower = terms[k - 1];
        let raised = fe_add(&terms[k], &lower);
        proof {
            lemma_add_mod_noop(a * o[k as int].val(), o[k - 1].val(), modulus());
            assert(o[k - 1].wf());
            lemma_small_mod(o[k - 1].val() as nat, modulus() as nat);
            lemma_mod_twice(a * o[k as int].val(), modulus());
        }
        terms.set(k, raised);
        let scaled = fe_mul(&lower, neg);
        terms.set(k - 1, scaled);
        proof {
            assert(o[k - 1].val() * a == a * o[k - 1].val()) by (nonlinear_arith);
        }
        k = k - 1;
    }
    proof {
        let f = coeff_fn(o);
        let g = |j: nat|
            a * f(j) + if j == 0 {
                0
            } else {
                f((j - 1) as nat)
            };
        let h = coeff_fn(terms@);
        assert forall|j: nat| j < n implies #[trigger] h(j) % modulus() == g(j) % modulus() by {
            if j == 0 {
                lemma_mod_twice(a * f(0), modulus());
            } else {
                lemma_mod_twice(a * f(j) + f((j - 1) as nat), modulus());
            }
        }
        assert forall|j: int| d + 1 < j < n implies (#[trigger] terms@[j]).val() == 0 by {
            assert(o[j].val() == 0 && o[j - 1].val() == 0);
            assert(a * 0 + 0 == 0);
        }
        assert forall|z: int|
            #![trigger seq_value(terms@, z)]
            seq_value(terms@, z) % modulus() == ((z + a) * seq_value(o, z)) % modulus() by {
            lemma_monomial_congruent(h, g, z, n as nat, modulus());
            assert(f((n - 1) as nat) == 0);
            lemma_monomial_linear_factor(f, g, a, z, n as nat);
            assert(z + a == a + z);
        }
    }
}

/// The points of `x` as integers.
pub open spec fn points(x: Seq<u64>) -> Seq<int> {
    x.map_values(|v: u64| v as int)
}

/// `d` has a multiplicative inverse modulo the characteristic.
pub open spec fn invertible(d: int) -> bool {
    exists|b: int| #[trigger] (d * b) % modulus() == 1
}

/// Any two of the first `m` points of `xs` differ by an invertible amount.
pub open spec fn separated(xs: Seq<int>, m: int) -> bool {
    forall|i: int, j: int| 0 <= i < j < m ==> #[trigger] invertible(xs[i] - xs[j])
}

proof fn lemma_mod_zero_combination(a: int, c: int, b: int)
    requires
        modulus() > 0,
        a % modulus() == 0,
        b % modulus() == 0,
    ensures
        (a - c * b) % modulus() == 0,
{
    lemma_mul_mod_noop_right(c, b, modulus());
    assert(c * (b % modulus()) == 0);
    lemma_small_mod(0, modulus() as nat);
    lemma_sub_mod_noop(a, c * b, modulus());
}

/// The quotient of the polynomial with `l` coefficients `f` by `X - x0`.
pub open spec fn quotient(f: spec_fn(nat) -> int, x0: int, l: nat) -> spec_fn(nat) -> int {
    |k: nat| horner(f, x0, k + 1, l)
}

/// Division by `X - x0`: `f(z) = (z - x0) q(z) + f(x0)`.
proof fn lemma_division_step(f: spec_fn(nat) -> int, x0: int, l: nat, z: int)
    requires
        l >= 1,
    ensures
        monomial_sum(f, z, l) == (z - x0) * monomial_sum(quotient(f, x0, l), z, (l - 1) as nat)
            + monomial_sum(f, x0, l),
{
    let quot = quotient(f, x0, l);
    let h0 = horner(f, x0, 0, l);
    let g = |k: nat|
        (0 - x0) * quot(k) + if k == 0 {
            0
        } else {
            quot((k - 1) as nat)
        };
    let bump = |k: nat|
        if k == 0 {
            h0
        } else {
            0
        };
    assert(quot((l - 1) as nat) == 0);
    assert forall|k: nat| k < l implies #[trigger] f(k) == g(k) + bump(k) by {
        let hk1 = horner(f, x0, k + 1, l);
        assert(horner(f, x0, k, l) == f(k) + x0 * hk1);
        assert(quot(k) == hk1);
        assert((0 - x0) * hk1 == -(x0 * hk1)) by (nonlinear_arith);
        if k > 0 {
            assert(quot((k - 1) as nat) == horner(f, x0, k, l));
        }
    }
    lemma_monomial_linear_factor(quot, g, 0 - x0, z, l);
    lemma_monomial_add(g, bump, f, z, l);
    assert(pow(z, 0) == 1) by {
        reveal(pow);
    }
    assert forall|j: nat| 1 <= j < l implies #[trigger] bump(j) == 0 by {}
    lemma_monomial_trailing_zeros(bump, z, 1, l);
    assert(monomial_sum(bump, z, 0) == 0);
    assert(monomial_sum(bump, z, 1) == bump(0) * pow(z, 0));
    lemma_monomial_trailing_zeros(quot, z, (l - 1) as nat, l);
    lemma_horner(f, x0, l);
    assert(z + (0 - x0) == z - x0);
}

/// A polynomial with `m` coefficients that vanishes at `m` separated points
/// has only zero coefficients.
pub proof fn lemma_vanishing_polynomial(f: spec_fn(nat) -> int, xs: Seq<int>, m: nat)
    requires
        modulus() > 0,
        m <= xs.len(),
        separated(xs, m as int),
        forall|k: int| 0 <= k < m ==> #[trigger] monomial_sum(f, xs[k], m) % modulus() == 0,
    ensures
        forall|i: nat| i < m ==> #[trigger] f(i) % modulus() == 0,
    decreases m,
{
    if m > 0 {
        let l = m;
        let x0 = xs[l - 1];
        let quot = quotient(f, x0, l);
        let h0 = monomial_sum(f, x0, l);
        assert(h0 % modulus() == 0);
        assert forall|k: int| 0 <= k < l - 1 implies #[trigger] monomial_sum(
            quot,
            xs[k],
            (l - 1) as nat,
        ) % modulus() == 0 by {
            lemma_quotient_vanishes(f, xs, l, k);
        }
        assert(separated(xs, (l - 1) as int));
        lemma_vanishing_polynomial(quot, xs, (l - 1) as nat);
        lemma_horner(f, x0, l);
        assert forall|i: nat| i < m implies #[trigger] f(i) % modulus() == 0 by {
            let qi = if i < l - 1 {
                quot(i)
            } else {
                0
            };
            assert(qi % modulus() == 0) by {
                lemma_small_mod(0, modulus() as nat);
            }
            assert(horner(f, x0, i, l) == f(i) + x0 * horner(f, x0, i + 1, l));
            assert(quot(i) == qi);
            if i == 0 {
                lemma_mod_zero_combination(h0, x0, qi);
            } else {
                lemma_mod_zero_combination(quot((i - 1) as nat), x0, qi);
            }
        }
    }
}

proof fn lemma_quotient_vanishes(f: spec_fn(nat) -> int, xs: Seq<int>, l: nat, k: int)
    requires
        modulus() > 0,
        1 <= l <= xs.len(),
        0 <= k < l - 1,
        separated(xs, l as int),
        monomial_sum(f, xs[k], l) % modulus() == 0,
        monomial_sum(f, xs[l - 1], l) % modulus() == 0,
    ensures
        monomial_sum(quotient(f, xs[l - 1], l), xs[k], (l - 1) as nat) % modulus() == 0,
{
    let x0 = xs[l - 1];
    let z = xs[k];
    let qz = monomial_sum(quotient(f, x0, l), z, (l - 1) as nat);
    let d = z - x0;
    let h0 = monomial_sum(f, x0, l);
    lemma_division_step(f, x0, l, z);
    lemma_sub_mod_noop(monomial_sum(f, z, l), h0, modulus());
    lemma_small_mod(0, modulus() as nat);
    assert((d * qz) % modulus() == 0);
    assert(invertible(xs[k] - xs[l - 1]));
    let b = choose|b: int| #[trigger] (d * b) % modulus() == 1;
    lemma_mul_mod_noop_left(d * qz, b, modulus());
    assert((d * qz) * b == (d * b) * qz) by (nonlinear_arith);
    lemma_mul_mod_noop_left(d * b, qz, modulus());
    assert(0int * b == 0);
    assert(1 * qz == qz);
}

/// The coefficient function of a sequence of integer coefficients.
pub open spec fn int_coeffs(c: Seq<int>) -> spec_fn(nat) -> int {
    |k: nat|
        if k < c.len() {
            c[k as int]
        } else {
            0
        }
}

/// The value at `z`, as a canonical residue, of the polynomial with integer
/// coefficients `c`.
pub open spec fn int_poly_value(c: Seq<int>, z: int) -> int {
    monomial_sum(int_coeffs(c), z, c.len()) % modulus()
}

/// A polynomial's value at 0 is its constant coefficient.
pub proof fn lemma_monomial_at_zero(f: spec_fn(nat) -> int, n: nat)
    requires
        n >= 1,
    ensures
        monomial_sum(f, 0, n) == f(0),
{
    assert forall|k: nat| 1 <= k < n implies #[trigger] (f(k) * pow(0, k)) == 0 by {
        assert(pow(0, k) == 0 * pow(0, (k - 1) as nat)) by {
            reveal(pow);
        }
    }
    let g = |k: nat| if k == 0 { f(0) } else { 0 };
    assert forall|k: nat| k < n implies #[trigger] (f(k) * pow(0, k)) == g(k) * pow(0, k) by {
        assert(pow(0, 0) == 1) by {
            reveal(pow);
        }
    }
    lemma_sum_ext(|k: nat| f(k) * pow(0, k), |k: nat| g(k) * pow(0, k), n);
    assert forall|k: nat| 1 <= k < n implies #[trigger] g(k) == 0 by {}
    lemma_monomial_trailing_zeros(g, 0, 1, n);
    assert(monomial_sum(g, 0, 0) == 0);
    assert(pow(0, 0) == 1) by {
        reveal(pow);
    }
    assert(monomial_sum(g, 0, 1) == g(0) * pow(0, 0));
}

/// If the interpolant `p` of `n` separated points and a polynomial with at
/// most `n` integer coefficients `c` agree at those points, then `p` has
/// fewer coefficients than `c` and the two agree everywhere.
pub proof fn lemma_interpolant_matches(p: Poly, c: Seq<int>, xs: Seq<int>, n: nat)
    requires
        p.wf(),
        p.coeffs.len() == n,
        is_effective_degree(p.coeffs@, p.degree as int),
        1 <= c.len() <= n,
        n <= xs.len(),
        separated(xs, n as int),
        forall|k: int| 0 <= k < n ==> #[trigger] p.value_at(xs[k]) == int_poly_value(c, xs[k]),
    ensures
        p.degree < c.len(),
        forall|z: int| #[trigger] p.value_at(z) == int_poly_value(c, z),
{
    lemma_modulus_large();
    let pf = poly_fn(p);
    let cf = int_coeffs(c);
    let f = |k: nat| pf(k) - cf(k);
    assert forall|k: nat| c.len() <= k < n implies #[trigger] cf(k) == 0 by {}
    assert forall|z: int| #[trigger] monomial_sum(cf, z, n) == monomial_sum(cf, z, c.len()) by {
        lemma_monomial_trailing_zeros(cf, z, c.len(), n);
    }
    assert forall|k: int| 0 <= k < n implies #[trigger] monomial_sum(f, xs[k], n) % modulus() == 0 by {
        let z = xs[k];
        lemma_value_as_poly_fn(p, z, n);
        lemma_monomial_add(f, cf, pf, z, n);
        lemma_sub_mod_noop(monomial_sum(pf, z, n), monomial_sum(cf, z, n), modulus());
        lemma_small_mod(0, modulus() as nat);
    }
    lemma_vanishing_polynomial(f, xs, n);
    assert forall|i: nat| i < n implies #[trigger] pf(i) % modulus() == cf(i) % modulus() by {
        assert(f(i) % modulus() == 0);
        lemma_add_mod_noop(f(i), cf(i), modulus());
        lemma_small_mod(0, modulus() as nat);
        lemma_mod_twice(cf(i), modulus());
    }
    if p.degree >= c.len() {
        let d = p.degree as nat;
        assert(pf(d) % modulus() == 0);
        assert(p.coeffs@[d as int].wf());
        lemma_small_mod(pf(d) as nat, modulus() as nat);
    }
    assert forall|z: int| #[trigger] p.value_at(z) == int_poly_value(c, z) by {
        lemma_value_as_poly_fn(p, z, n);
        lemma_monomial_congruent(pf, cf, z, n, modulus());
    }
}

/// Two polynomials with `l` integer coefficients that agree at `l`
/// separated points agree everywhere.
pub proof fn lemma_fits_agree(c1: Seq<int>, c2: Seq<int>, xs: Seq<int>, l: nat)
    requires
        c1.len() == l,
        c2.len() == l,
        l <= xs.len(),
        separated(xs, l as int),
        forall|k: int| 0 <= k < l ==> #[trigger] int_poly_value(c1, xs[k]) == int_poly_value(c2, xs[k]),
    ensures
        forall|z: int| #[trigger] int_poly_value(c1, z) == int_poly_value(c2, z),
{
    lemma_modulus_large();
    let f1 = int_coeffs(c1);
    let f2 = int_coeffs(c2);
    let f = |k: nat| f1(k) - f2(k);
    assert forall|k: int| 0 <= k < l implies #[trigger] monomial_sum(f, xs[k], l) % modulus() == 0 by {
        let z = xs[k];
        assert(int_poly_value(c1, xs[k]) == int_poly_value(c2, xs[k]));
        lemma_monomial_add(f, f2, f1, z, l);
        lemma_sub_mod_noop(monomial_sum(f1, z, l), monomial_sum(f2, z, l), modulus());
        lemma_small_mod(0, modulus() as nat);
    }
    lemma_vanishing_polynomial(f, xs, l);
    assert forall|i: nat| i < l implies #[trigger] f1(i) % modulus() == f2(i) % modulus() by {
        assert(f(i) % modulus() == 0);
        lemma_add_mod_noop(f(i), f2(i), modulus());
        lemma_small_mod(0, modulus() as nat);
        lemma_mod_twice(f2(i), modulus());
    }
    assert forall|z: int| #[trigger] int_poly_value(c1, z) == int_poly_value(c2, z) by {
        lemma_monomial_congruent(f1, f2, z, l, modulus());
    }
}

/// The coefficient function of `q` cut off above its degree.
pub open spec fn poly_fn(q: Poly) -> spec_fn(nat) -> int {
    |k: nat|
        if k <= q.degree {
            q.coeffs@[k as int].val()
        } else {
            0
        }
}

/// If the interpolant `p` of `n` separated points and a polynomial `q` of
/// degree below `n` agree at those points, then `p` is no higher in degree
/// than `q`, and the two take the same value everywhere.
pub proof fn lemma_interpolant_unique(p: Poly, q: Poly, xs: Seq<int>, n: nat)
    requires
        p.wf(),
        p.coeffs.len() == n,
        is_effective_degree(p.coeffs@, p.degree as int),
        q.wf(),
        q.degree < n,
        n <= xs.len(),
        separated(xs, n as int),
        forall|k: int| 0 <= k < n ==> #[trigger] p.value_at(xs[k]) == q.value_at(xs[k]),
    ensures
        p.degree <= q.degree,
        forall|z: int| #[trigger] p.value_at(z) == q.value_at(z),
{
    lemma_modulus_large();
    let pf = poly_fn(p);
    let qf = poly_fn(q);
    let f = |k: nat| pf(k) - qf(k);
    assert forall|k: int| 0 <= k < n implies #[trigger] monomial_sum(f, xs[k], n) % modulus() == 0 by {
        lemma_values_agree_mod(p, q, f, xs[k], n);
    }
    lemma_vanishing_polynomial(f, xs, n);
    assert forall|i: nat| i < n implies #[trigger] pf(i) == qf(i) by {
        assert(f(i) % modulus() == 0);
        assert(p.coeffs@[i as int].wf());
        if i <= q.degree {
            assert(q.coeffs@[i as int].wf());
        }
        if f(i) != 0 {
            lemma_small_mod_bounds(f(i));
        }
    }
    if p.degree > q.degree {
        assert(pf(p.degree as nat) == p.coeffs@[p.degree as int].val());
        assert(qf(p.degree as nat) == 0);
    }
    assert forall|z: int| #[trigger] p.value_at(z) == q.value_at(z) by {
        lemma_sum_ext(|i: nat| pf(i) * pow(z, i), |i: nat| qf(i) * pow(z, i), n);
        lemma_value_as_poly_fn(p, z, n);
        lemma_value_as_poly_fn(q, z, n);
    }
}

proof fn lemma_small_mod_bounds(d: int)
    requires
        modulus() > 0,
        -modulus() < d < modulus(),
        d != 0,
    ensures
        d % modulus() != 0,
{
    if d > 0 {
        lemma_small_mod(d as nat, modulus() as nat);
    } else {
        lemma_fundamental_div_mod_converse(d, modulus(), -1, d + modulus());
    }
}

proof fn lemma_value_as_poly_fn(q: Poly, z: int, n: nat)
    requires
        q.wf(),
        q.degree < n,
    ensures
        q.value_at(z) == monomial_sum(poly_fn(q), z, n) % modulus(),
{
    let qf = poly_fn(q);
    assert forall|k: nat| q.degree + 1 <= k < n implies #[trigger] qf(k) == 0 by {}
    lemma_monomial_trailing_zeros(qf, z, (q.degree + 1) as nat, n);
    lemma_sum_ext(
        |i: nat| qf(i) * pow(z, i),
        |i: nat| coeff_fn(q.coeffs@)(i) * pow(z, i),
        (q.degree + 1) as nat,
    );
}

proof fn lemma_values_agree_mod(p: Poly, q: Poly, f: spec_fn(nat) -> int, z: int, n: nat)
    requires
        modulus() > 0,
        p.wf(),
        p.coeffs.len() == n,
        q.wf(),
        q.degree < n,
        p.degree < n,
        p.value_at(z) == q.value_at(z),
        forall|k: nat| #[trigger] f(k) == poly_fn(p)(k) - poly_fn(q)(k),
    ensures
        monomial_sum(f, z, n) % modulus() == 0,
{
    lemma_value_as_poly_fn(p, z, n);
    lemma_value_as_poly_fn(q, z, n);
    lemma_monomial_add(f, poly_fn(q), poly_fn(p), z, n);
    lemma_sub_mod_noop(monomial_sum(poly_fn(p), z, n), monomial_sum(poly_fn(q), z, n), modulus());
    lemma_small_mod(0, modulus() as nat);
}

/// The highest index below `n` of a non-zero coefficient, or 0.
fn effective_degree(c: &Vec<Fe>, n: u64) -> (d: u64)
    requires
        1 <= n,
        n == c.len(),
    ensures
        is_effective_degree(c@, d as int),
{
    let mut k: u64 = n - 1;
    while k > 0
        invariant
            k < n,
            n == c.len(),
            forall|j: int| k < j < c.len() ==> (#[trigger] c@[j]).val() == 0,
        decreases k,
    {
        if !c[k as usize].is_zero() {
            return k;
        }
        k = k - 1;
    }
    0
}

impl Poly {
    /// The coefficients of the polynomial of degree below `n` through the
    /// points `(x[i], y[i])`, `i < n`: a sum of Lagrange basis polynomials,
    /// each expanded by multiplying in one linear factor at a time.
    pub fn evals_to_coeffs(x: &Vec<u64>, y: &Vec<Fe>, n: u64) -> (r: Result<Poly, InterpolationError>)
        requires
            1 <= n,
            n <= x.len(),
            n <= y.len(),
            all_wf(y@),
        ensures
            r is Err <==> has_duplicate(x@, n as int),
            r matches Ok(p) ==> p.wf() && p.coeffs.len() == n && is_effective_degree(
                p.coeffs@,
                p.degree as int,
            ),
            r matches Ok(p) ==> forall|m: int|
                0 <= m < n ==> #[trigger] p.value_at(x@[m] as int) == y@[m].val(),
            r is Ok ==> separated(points(x@), n as int),
    {
        let mut i: u64 = 0;
        while i < n
            invariant
                n <= x.len(),
                i <= n,
                forall|a: int, b: int| 0 <= a < i && a < b < n ==> x@[a] != x@[b],
            decreases n - i,
        {
            let mut j: u64 = i + 1;
            while j < n
                invariant
                    n <= x.len(),
                    i < n,
                    i < j <= n,
                    forall|a: int, b: int| 0 <= a < i && a < b < n ==> x@[a] != x@[b],
                    forall|b: int| i < b < j ==> x@[i as int] != x@[b],
                decreases n - j,
            {
                if x[i as usize] == x[j as usize] {
                    return Err(InterpolationError::DegenerateInterpolation);
                }
                j = j + 1;
            }
            i = i + 1;
        }
        proof {
            lemma_modulus_large();
        }
        let mut full: Vec<Fe> = Vec::new();
        let mut k: u64 = 0;
        while k < n
            invariant
                k <= n,
                full.len() == k,
                all_wf(full@),
                forall|a: int| 0 <= a < k ==> (#[trigger] full@[a]).val() == 0,
            decreases n - k,
        {
            full.push(Fe::zero());
            k = k + 1;
        }
        proof {
            assert forall|m: int| 0 <= m < n implies #[trigger] seq_value(full@, x@[m] as int)
                % modulus() == 0 by {
                let f = coeff_fn(full@);
                assert forall|j: nat| 0 <= j < n implies #[trigger] f(j) == 0 by {
                    assert(full@[j as int].val() == 0);
                }
                lemma_monomial_trailing_zeros(f, x@[m] as int, 0, n as nat);
                assert(monomial_sum(f, x@[m] as int, 0) == 0);
                assert(seq_value(full@, x@[m] as int) == 0);
                assert(0int % modulus() == 0);
            }
        }
        let mut i: u64 = 0;
        while i < n
            invariant
                n <= x.len(),
                n <= y.len(),
                all_wf(y@),
                modulus() > limb_base(),
                i <= n,
                full.len() == n,
                all_wf(full@),
                !has_duplicate(x@, n as int),
                forall|a: int, b: int|
                    0 <= a < i && a < b < n ==> #[trigger] invertible(x@[a] - x@[b]),
                forall|m: int|
                    0 <= m < n ==> #[trigger] seq_value(full@, x@[m] as int) % modulus() == if m
                        < i {
                        y@[m].val()
                    } else {
                        0
                    },
            decreases n - i,
        {
            let xi = Fe::from_u64(x[i as usize]);
            let mut prod_inv = Fe::one();
            let mut j: u64 = 0;
            assert(prod_except(x@, i as int, x@[i as int] as int, 0) == 1);
            assert((1int * 1int) % modulus() == 1) by {
                lemma_small_mod(1, modulus() as nat);
            }
            while j < n
                invariant
                    n <= x.len(),
                    i < n,
                    j <= n,
                    modulus() > limb_base(),
                    xi.wf(),
                    xi.val() == x@[i as int],
                    prod_inv.wf(),
                    !has_duplicate(x@, n as int),
                    forall|a: int, b: int|
                        0 <= a < i && a < b < n ==> #[trigger] invertible(x@[a] - x@[b]),
                    forall|b: int| i < b < j ==> #[trigger] invertible(x@[i as int] - x@[b]),
                    (prod_inv.val() * prod_except(x@, i as int, x@[i as int] as int, j as nat))
                        % modulus() == 1,
                decreases n - j,
            {
                let ghost pe = prod_except(x@, i as int, x@[i as int] as int, j as nat);
                if j != i {
                    let xj = Fe::from_u64(x[j as usize]);
                    let diff = fe_sub(&xi, &xj);
                    proof {
                        if i < j {
                            assert(x@[i as int] != x@[j as int]);
                        } else {
                            assert(x@[j as int] != x@[i as int]);
                        }
                        lemma_distinct_points_differ(x@[i as int], x@[j as int]);
                    }
                    match fe_inverse(&diff) {
                        Some(inv) => {
                            let next = fe_mul(&prod_inv, &inv);
                            proof {
                                let d = x@[i as int] - x@[j as int];
                                lemma_small_mod(1, modulus() as nat);
                                lemma_mod_twice(d, modulus());
                                // inv * d is congruent to inv * diff, which is 1
                                lemma_mul_congruent(inv.val(), inv.val(), d, diff.val());
                                assert(diff.val() * inv.val() == inv.val() * diff.val())
                                    by (nonlinear_arith);
                                // (prod_inv * inv) * (pe * d) == (prod_inv * pe) * (inv * d)
                                assert((prod_inv.val() * inv.val()) * (pe * d) == (prod_inv.val()
                                    * pe) * (inv.val() * d)) by (nonlinear_arith);
                                lemma_mod_twice(prod_inv.val() * inv.val(), modulus());
                                lemma_mul_congruent(
                                    next.val(),
                                    prod_inv.val() * inv.val(),
                                    pe * d,
                                    pe * d,
                                );
                                lemma_mul_congruent(
                                    prod_inv.val() * pe,
                                    1,
                                    inv.val() * d,
                                    1,
                                );
                                lemma_small_mod(1, modulus() as nat);
                                assert(d * inv.val() == inv.val() * d) by (nonlinear_arith);
                                assert((d * inv.val()) % modulus() == 1);
                                assert(invertible(d));
                            }
                            prod_inv = next;
                        },
                        None => {
                            return Err(InterpolationError::DegenerateInterpolation);
                        },
                    }
                } else {
                    proof {
                        assert(prod_except(x@, i as int, x@[i as int] as int, (j + 1) as nat) == pe
                            * 1);
                    }
                }
                j = j + 1;
            }
            let c = fe_mul(&y[i as usize], &prod_inv);
            let mut terms: Vec<Fe> = Vec::new();
            terms.push(c);
            let mut k: u64 = 1;
            while k < n
                invariant
                    k <= n,
                    1 <= k,
                    terms.len() == k,
                    all_wf(terms@),
                    terms@[0] == c,
                    forall|a: int| 1 <= a < k ==> (#[trigger] terms@[a]).val() == 0,
                decreases n - k,
            {
                terms.push(Fe::zero());
                k = k + 1;
            }
            proof {
                assert forall|z: int| #![trigger seq_value(terms@, z)]
                    seq_value(terms@, z) % modulus() == (c.val() * prod_except(x@, i as int, z, 0))
                        % modulus() by {
                    let f = coeff_fn(terms@);
                    assert forall|a: nat| 1 <= a < n implies #[trigger] f(a) == 0 by {
                        assert(terms@[a as int].val() == 0);
                    }
                    lemma_monomial_trailing_zeros(f, z, 1, n as nat);
                    assert(monomial_sum(f, z, 0) == 0);
                    assert(pow(z, 0) == 1) by {
                        reveal(pow);
                    }
                    assert(monomial_sum(f, z, 1) == f(0) * pow(z, 0));
                    assert(c.val() * 1 == c.val());
                }
            }
            let mut j: u64 = 0;
            let ghost mut count: nat = 0;
            while j < n
                invariant
                    n <= x.len(),
                    i < n,
                    j <= n,
                    modulus() > limb_base(),
                    terms.len() == n,
                    all_wf(terms@),
                    c.wf(),
                    count == if j > i {
                        j - 1
                    } else {
                        j as int
                    },
                    forall|a: int| count < a < n ==> (#[trigger] terms@[a]).val() == 0,
                    forall|z: int|
                        #![trigger seq_value(terms@, z)]
                        seq_value(terms@, z) % modulus() == (c.val() * prod_except(
                            x@,
                            i as int,
                            z,
                            j as nat,
                        )) % modulus(),
                decreases n - j,
            {
                if j != i {
                    let xj = Fe::from_u64(x[j as usize]);
                    let neg_xj = fe_sub(&Fe::zero(), &xj);
                    let ghost before = terms@;
                    mul_by_linear(&mut terms, &neg_xj, Ghost(count));
                    proof {
                        assert forall|z: int| #![trigger seq_value(terms@, z)]
                            seq_value(terms@, z) % modulus() == (c.val() * prod_except(
                                x@,
                                i as int,
                                z,
                                (j + 1) as nat,
                            )) % modulus() by {
                            let pe = prod_except(x@, i as int, z, j as nat);
                            let old_v = seq_value(before, z);
                            let d = z - x@[j as int];
                            lemma_add_mod_noop_right(z, 0 - x@[j as int], modulus());
                            lemma_mul_congruent(z + neg_xj.val(), d, old_v, c.val() * pe);
                            assert(d * (c.val() * pe) == c.val() * (pe * d)) by (nonlinear_arith);
                        }
                        count = count + 1;
                    }
                } else {
                    proof {
                        assert forall|z: int| #![trigger seq_value(terms@, z)]
                            seq_value(terms@, z) % modulus() == (c.val() * prod_except(
                                x@,
                                i as int,
                                z,
                                (j + 1) as nat,
                            )) % modulus() by {
                            let pe = prod_except(x@, i as int, z, j as nat);
                            assert(prod_except(x@, i as int, z, (j + 1) as nat) == pe * 1);
                        }
                    }
                }
                j = j + 1;
            }
            proof {
                // the new basis polynomial is y_i at x_i and zero at every other point
                assert forall|m: int| 0 <= m < n implies #[trigger] seq_value(terms@, x@[m] as int)
                    % modulus() == if m == i {
                    y@[m].val()
                } else {
                    0
                } by {
                    let z = x@[m] as int;
                    let pe = prod_except(x@, i as int, z, n as nat);
                    lemma_small_mod(1, modulus() as nat);
                    assert(seq_value(terms@, z) % modulus() == (c.val() * pe) % modulus());
                    if m == i {
                        assert((prod_inv.val() * pe) % modulus() == 1);
                        assert(c.val() == (y@[m].val() * prod_inv.val()) % modulus());
                        lemma_mod_twice(y@[m].val() * prod_inv.val(), modulus());
                        lemma_mul_congruent(c.val(), y@[m].val() * prod_inv.val(), pe, pe);
                        assert((y@[m].val() * prod_inv.val()) * pe == y@[m].val() * (prod_inv.val()
                            * pe)) by (nonlinear_arith);
                        lemma_mul_congruent(y@[m].val(), y@[m].val(), prod_inv.val() * pe, 1);
                        assert(y@[m].wf());
                        lemma_small_mod(y@[m].val() as nat, modulus() as nat);
                        assert((c.val() * pe) % modulus() == (y@[m].val() * 1) % modulus());
                        assert(y@[m].val() * 1 == y@[m].val());
                        assert(y@[m].val() % modulus() == y@[m].val());
                        assert(seq_value(terms@, z) % modulus() == y@[m].val());
                    } else {
                        lemma_prod_except_vanishes(x@, i as int, z, n as nat, m);
                        assert(c.val() * pe == 0);
                        assert(0int % modulus() == 0);
                        assert((c.val() * pe) % modulus() == 0);
                    }
                }
            }
            let ghost before_full = full@;
            let mut k: u64 = 0;
            while k < n
                invariant
                    k <= n,
                    terms.len() == n,
                    all_wf(terms@),
                    full.len() == n,
                    all_wf(full@),
                    all_wf(before_full),
                    before_full.len() == n,
                    forall|a: int| k <= a < n ==> #[trigger] full@[a] == before_full[a],
                    forall|a: int|
                        0 <= a < k ==> (#[trigger] full@[a]).val() == (before_full[a].val()
                            + terms@[a].val()) % modulus(),
                decreases n - k,
            {
                let sum_k = fe_add(&full[k as usize], &terms[k as usize]);
                full.set(k as usize, sum_k);
                k = k + 1;
            }
            proof {
                assert forall|m: int|
                    0 <= m < n implies #[trigger] seq_value(full@, x@[m] as int) % modulus() == if m
                        < i + 1 {
                        y@[m].val()
                    } else {
                        0
                    } by {
                    let z = x@[m] as int;
                    let fa = coeff_fn(before_full);
                    let fb = coeff_fn(terms@);
                    let h = coeff_fn(full@);
                    let h2 = |a: nat| fa(a) + fb(a);
                    assert forall|a: nat| a < n implies #[trigger] h(a) % modulus() == h2(a)
                        % modulus() by {
                        lemma_mod_twice(fa(a) + fb(a), modulus());
                    }
                    lemma_monomial_congruent(h, h2, z, n as nat, modulus());
                    lemma_monomial_add(fa, fb, h2, z, n as nat);
                    lemma_add_mod_noop(seq_value(before_full, z), seq_value(terms@, z), modulus());
                    assert(seq_value(before_full, x@[m] as int) % modulus() == if m < i {
                        y@[m].val()
                    } else {
                        0
                    });
                    assert(y@[m].wf());
                    lemma_small_mod(y@[m].val() as nat, modulus() as nat);
                    lemma_small_mod(0, modulus() as nat);
                }
            }
            i = i + 1;
        }
        let degree = effective_degree(&full, n);
        proof {
            assert forall|a: int, b: int| 0 <= a < b < n implies #[trigger] invertible(
                points(x@)[a] - points(x@)[b],
            ) by {
                assert(invertible(x@[a] - x@[b]));
            }
            assert forall|m: int| 0 <= m < n implies #[trigger] y@[m].val() == monomial_sum(
                coeff_fn(full@),
                x@[m] as int,
                (degree + 1) as nat,
            ) % modulus() by {
                let f = coeff_fn(full@);
                assert(seq_value(full@, x@[m] as int) % modulus() == y@[m].val());
                assert forall|a: nat| degree + 1 <= a < n implies #[trigger] f(a) == 0 by {
                    assert(full@[a as int].val() == 0);
                }
                lemma_monomial_trailing_zeros(f, x@[m] as int, (degree + 1) as nat, n as nat);
            }
        }
        Ok(Poly { coeffs: full, degree })
    }
}

/// `1 + 2 + ... + a`: the number of stored coefficients of the rows below
/// row `a`.
pub open spec fn tri(a: nat) -> nat
    decreases a,
{
    if a == 0 {
        0
    } else {
        tri((a - 1) as nat) + a
    }
}

/// Computes `tri(a)`.
pub fn triangle(a: u64) -> (r: usize)
    requires
        tri(a as nat) <= usize::MAX,
    ensures
        r == tri(a as nat),
{
    let mut r: usize = 0;
    let mut k: u64 = 0;
    while k < a
        invariant
            k <= a,
            r == tri(k as nat),
            tri(a as nat) <= usize::MAX,
        decreases a - k,
    {
        proof {
            lemma_tri_monotone((k + 1) as nat, a as nat);
        }
        r = r + (k + 1) as usize;
        k = k + 1;
    }
    r
}

/// `tri` does not decrease.
pub proof fn lemma_tri_monotone(a: nat, b: nat)
    requires
        a <= b,
    ensures
        tri(a) <= tri(b),
    decreases b - a,
{
    if a < b {
        lemma_tri_monotone(a, (b - 1) as nat);
    }
}

/// A symmetric bivariate polynomial of degree `degree` in each variable.
/// Row `a` of `coeffs` holds the coefficients of `x^a y^b` for `b <= a`; the
/// coefficient of `x^b y^a` is the same one.
#[derive(Clone, Debug)]
pub struct SymBVPoly {
    pub coeffs: Vec<Vec<Fe>>,
    pub degree: u64,
}

impl SymBVPoly {
    pub open spec fn wf(&self) -> bool {
        &&& self.coeffs.len() == self.degree + 1
        &&& forall|a: int|
            0 <= a < self.coeffs.len() ==> (#[trigger] self.coeffs@[a])@.len() == a + 1
                && all_wf(self.coeffs@[a]@)
    }

    /// The coefficient of `x^a y^b`, read through the canonical orientation.
    pub open spec fn coeff(&self, a: nat, b: nat) -> int {
        if a >= b {
            self.coeffs@[a as int]@[b as int].val()
        } else {
            self.coeffs@[b as int]@[a as int].val()
        }
    }

    /// The coefficient function of `y` in row `a`.
    pub open spec fn row_fn(&self, a: nat) -> spec_fn(nat) -> int {
        |b: nat| self.coeff(a, b)
    }

    /// The polynomial in `y` that multiplies `x^a`, evaluated at `y`.
    pub open spec fn row_value(&self, a: nat, y: int) -> int {
        monomial_sum(self.row_fn(a), y, (self.degree + 1) as nat)
    }

    /// The sum over all monomials `coeff(a, b) x^a y^b`.
    pub open spec fn total(&self, x: int, y: int) -> int {
        monomial_sum(|a: nat| self.row_value(a, y), x, (self.degree + 1) as nat)
    }

    /// The value of the polynomial at `(x, y)`, as a canonical residue.
    pub open spec fn value_at(&self, x: int, y: int) -> int {
        self.total(x, y) % modulus()
    }

    /// A polynomial of degree `d` with coefficients drawn from `rng`.
    pub fn rand(d: u64, rng: &mut StdRng) -> (r: SymBVPoly)
        requires
            d < usize::MAX,
        ensures
            r.wf(),
            r.degree == d,
    {
        let mut coeffs: Vec<Vec<Fe>> = Vec::new();
        let mut a: u64 = 0;
        while a <= d
            invariant
                a <= d + 1,
                d < usize::MAX,
                coeffs.len() == a,
                forall|i: int|
                    0 <= i < coeffs.len() ==> (#[trigger] coeffs@[i])@.len() == i + 1 && all_wf(
                        coeffs@[i]@,
                    ),
            decreases d + 1 - a,
        {
            let mut row: Vec<Fe> = Vec::new();
            let mut b: u64 = 0;
            while b <= a
                invariant
                    b <= a + 1,
                    a <= d,
                    d < usize::MAX,
                    row.len() == b,
                    all_wf(row@),
                decreases a + 1 - b,
            {
                let v = fe_rand(rng);
                row.push(v);
                b = b + 1;
            }
            coeffs.push(row);
            a = a + 1;
        }
        SymBVPoly { coeffs, degree: d }
    }

    /// The polynomial of degree `d` whose coefficient of `x^a y^b`, `b <= a`,
    /// is `draws[tri(a) + b]`.
    pub fn from_draws(d: u64, draws: &Vec<Fe>) -> (r: SymBVPoly)
        requires
            d < usize::MAX,
            tri((d + 1) as nat) <= draws.len(),
            all_wf(draws@),
        ensures
            r.wf(),
            r.degree == d,
            forall|a: nat, b: nat|
                b <= a <= d ==> #[trigger] r.coeff(a, b) == draws@[tri(a) + b as int].val(),
    {
        let mut coeffs: Vec<Vec<Fe>> = Vec::new();
        let mut next: usize = 0;
        let mut a: u64 = 0;
        while a <= d
            invariant
                a <= d + 1,
                d < usize::MAX,
                tri((d + 1) as nat) <= draws.len(),
                all_wf(draws@),
                next == tri(a as nat),
                coeffs.len() == a,
                forall|i: int|
                    0 <= i < coeffs.len() ==> (#[trigger] coeffs@[i])@.len() == i + 1 && all_wf(
                        coeffs@[i]@,
                    ),
                forall|i: int, j: int|
                    0 <= j <= i < a ==> #[trigger] coeffs@[i]@[j] == draws@[tri(i as nat) + j],
            decreases d + 1 - a,
        {
            proof {
                lemma_tri_monotone((a + 1) as nat, (d + 1) as nat);
            }
            let mut row: Vec<Fe> = Vec::new();
            let mut b: u64 = 0;
            while b <= a
                invariant
                    b <= a + 1,
                    a <= d,
                    d < usize::MAX,
                    next == tri(a as nat),
                    tri((a + 1) as nat) <= draws.len(),
                    all_wf(draws@),
                    row.len() == b,
                    forall|j: int| 0 <= j < b ==> #[trigger] row@[j] == draws@[tri(a as nat) + j],
                    all_wf(row@),
                decreases a + 1 - b,
            {
                row.push(draws[next + b as usize]);
                b = b + 1;
            }
            coeffs.push(row);
            next = next + (a + 1) as usize;
            a = a + 1;
        }
        SymBVPoly { coeffs, degree: d }
    }

    /// Replaces the constant coefficient, the value at `(0, 0)`, by `c`.
    pub fn set_constant(&mut self, c: Fe)
        requires
            old(self).wf(),
            c.wf(),
        ensures
            final(self).wf(),
            final(self).degree == old(self).degree,
            final(self).coeff(0, 0) == c.val(),
            forall|a: nat, b: nat|
                a <= final(self).degree && b <= final(self).degree && (a > 0 || b > 0) ==> (
                #[trigger] final(self).coeff(a, b)) == old(self).coeff(a, b),
    {
        let mut row0: Vec<Fe> = Vec::new();
        row0.push(c);
        self.coeffs.set(0, row0);
        assert(self.coeffs@[0]@ =~= seq![c]);
    }

    /// The coefficient of `x^a y^b`, stored once for `x^a y^b` and `x^b y^a`.
    pub fn coeff_at(&self, a: u64, b: u64) -> (r: Fe)
        requires
            self.wf(),
            a <= self.degree,
            b <= self.degree,
        ensures
            r.wf(),
            r.val() == self.coeff(a as nat, b as nat),
    {
        if a >= b {
            self.coeffs[a as usize][b as usize]
        } else {
            self.coeffs[b as usize][a as usize]
        }
    }

    /// Row `a` in nested form: the coefficient of `x^a` as a polynomial in `y`.
    fn row_eval(&self, a: u64, y: Fe) -> (r: Fe)
        requires
            self.wf(),
            a <= self.degree,
            y.wf(),
        ensures
            r.wf(),
            r.val() == self.row_value(a as nat, y.val()) % modulus(),
    {
        proof {
            lemma_modulus_large();
        }
        let ghost f = self.row_fn(a as nat);
        let ghost n = (self.degree + 1) as nat;
        let mut result = Fe::zero();
        let mut k: u64 = self.degree + 1;
        assert(horner(f, y.val(), n, n) == 0);
        while k > 0
            invariant
                self.wf(),
                a <= self.degree,
                y.wf(),
                f == self.row_fn(a as nat),
                n == self.degree + 1,
                modulus() > 0,
                k <= n,
                result.wf(),
                result.val() == horner(f, y.val(), k as nat, n) % modulus(),
            decreases k,
        {
            k = k - 1;
            let c = self.coeff_at(a, k);
            let next = fe_add(&c, &fe_mul(&y, &result));
            proof {
                lemma_mod_horner_step(f(k as nat), y.val(), horner(f, y.val(), (k + 1) as nat, n));
            }
            result = next;
        }
        proof {
            lemma_horner(f, y.val(), n);
        }
        result
    }

    /// Evaluation at `(x, y)` in nested form: Horner in `x` over rows that are
    /// each evaluated by Horner in `y`.
    pub fn eval(&self, x: Fe, y: Fe) -> (r: Fe)
        requires
            self.wf(),
            x.wf(),
            y.wf(),
        ensures
            r.wf(),
            r.val() == self.value_at(x.val(), y.val()),
    {
        proof {
            lemma_modulus_large();
        }
        let ghost g = |a: nat| self.row_value(a, y.val());
        let ghost n = (self.degree + 1) as nat;
        let mut result = Fe::zero();
        let mut k: u64 = self.degree + 1;
        assert(horner(g, x.val(), n, n) == 0);
        while k > 0
            invariant
                self.wf(),
                x.wf(),
                y.wf(),
                g == (|a: nat| self.row_value(a, y.val())),
                n == self.degree + 1,
                modulus() > 0,
                k <= n,
                result.wf(),
                result.val() == horner(g, x.val(), k as nat, n) % modulus(),
            decreases k,
        {
            k = k - 1;
            let row = self.row_eval(k, y);
            let next = fe_add(&row, &fe_mul(&x, &result));
            proof {
                let h = horner(g, x.val(), (k + 1) as nat, n);
                lemma_mod_horner_step(g(k as nat), x.val(), h);
                lemma_mul_mod_noop_right(x.val(), h, modulus());
                lemma_add_mod_noop(g(k as nat), x.val() * h, modulus());
                lemma_mod_twice(x.val() * h, modulus());
            }
            result = next;
        }
        proof {
            lemma_horner(g, x.val(), n);
        }
        result
    }

    /// Evaluation at `(x, y)` monomial by monomial, with explicit powers.
    pub fn eval_std(&self, x: Fe, y: Fe) -> (r: Fe)
        requires
            self.wf(),
            x.wf(),
            y.wf(),
        ensures
            r.wf(),
            r.val() == self.value_at(x.val(), y.val()),
    {
        proof {
            lemma_modulus_large();
        }
        let ghost g = |a: nat| self.row_value(a, y.val());
        let mut result = Fe::zero();
        let mut a: u64 = 0;
        assert(monomial_sum(g, x.val(), 0) == 0);
        while a <= self.degree
            invariant
                self.wf(),
                x.wf(),
                y.wf(),
                g == (|a: nat| self.row_value(a, y.val())),
                modulus() > 0,
                a <= self.degree + 1,
                result.wf(),
                result.val() == monomial_sum(g, x.val(), a as nat) % modulus(),
            decreases self.degree + 1 - a,
        {
            let ghost f = self.row_fn(a as nat);
            let mut row = Fe::zero();
            let mut b: u64 = 0;
            assert(monomial_sum(f, y.val(), 0) == 0);
            while b <= self.degree
                invariant
                    self.wf(),
                    a <= self.degree,
                    y.wf(),
                    f == self.row_fn(a as nat),
                    modulus() > 0,
                    b <= self.degree + 1,
                    row.wf(),
                    row.val() == monomial_sum(f, y.val(), b as nat) % modulus(),
                decreases self.degree + 1 - b,
            {
                let term = fe_mul(&self.coeff_at(a, b), &fe_pow(&y, b));
                let next = fe_add(&row, &term);
                proof {
                    let s = monomial_sum(f, y.val(), b as nat);
                    let p = pow(y.val(), b as nat);
                    lemma_mod_accumulate(s, f(b as nat), p);
                    assert(monomial_sum(f, y.val(), (b + 1) as nat) == s + f(b as nat) * p);
                }
                row = next;
                b = b + 1;
            }
            let term = fe_mul(&row, &fe_pow(&x, a));
            let next = fe_add(&result, &term);
            proof {
                let s = monomial_sum(g, x.val(), a as nat);
                let p = pow(x.val(), a as nat);
                let rv = g(a as nat);
                lemma_mod_accumulate(s, rv, p);
                lemma_mul_mod_noop_left(rv, p % modulus(), modulus());
                lemma_mul_mod_noop_right(rv, p, modulus());
                assert(monomial_sum(g, x.val(), (a + 1) as nat) == s + rv * p);
            }
            result = next;
            a = a + 1;
        }
        result
    }
}


/// The monomial `coeff(a, b) x^a y^b`.
pub open spec fn monomial(p: SymBVPoly, x: int, y: int, a: nat, b: nat) -> int {
    p.coeff(a, b) * pow(x, a) * pow(y, b)
}

/// The nested sum over rows is the double sum over all monomials.
pub proof fn lemma_total_double_sum(p: SymBVPoly, x: int, y: int)
    ensures
        p.total(x, y) == sum(
            |a: nat| sum(|b: nat| monomial(p, x, y, a, b), (p.degree + 1) as nat),
            (p.degree + 1) as nat,
        ),
{
    let n = (p.degree + 1) as nat;
    let rows = |a: nat| p.row_value(a, y) * pow(x, a);
    let dbl = |a: nat| sum(|b: nat| monomial(p, x, y, a, b), n);
    assert forall|a: nat| a < n implies #[trigger] rows(a) == dbl(a) by {
        let f = |b: nat| p.coeff(a, b) * pow(y, b);
        let h = |b: nat| monomial(p, x, y, a, b);
        assert forall|b: nat| b < n implies #[trigger] h(b) == f(b) * pow(x, a) by {
            assert(p.coeff(a, b) * pow(x, a) * pow(y, b) == p.coeff(a, b) * pow(y, b) * pow(x, a))
                by (nonlinear_arith);
        }
        lemma_sum_scale(f, h, pow(x, a), n);
        lemma_sum_ext(f, |b: nat| p.row_fn(a)(b) * pow(y, b), n);
    }
    lemma_sum_ext(rows, dbl, n);
    lemma_sum_ext(rows, |a: nat| (|a: nat| p.row_value(a, y))(a) * pow(x, a), n);
}

/// A symmetric bivariate polynomial takes the same value at `(x, y)` and at
/// `(y, x)`, and that value is the sum of all its monomials.
pub proof fn lemma_eval_symmetric(p: SymBVPoly, x: int, y: int)
    ensures
        p.total(x, y) == p.total(y, x),
        p.value_at(x, y) == p.value_at(y, x),
{
    let n = (p.degree + 1) as nat;
    lemma_total_double_sum(p, x, y);
    lemma_total_double_sum(p, y, x);
    let g = |a: nat, b: nat| monomial(p, x, y, a, b);
    lemma_sum_swap(|a: nat, b: nat| g(b, a), n, n);
    let lhs_rows = |a: nat| sum(|b: nat| monomial(p, y, x, a, b), n);
    let swapped_rows = |a: nat| sum(|b: nat| (|a: nat, b: nat| g(b, a))(a, b), n);
    assert forall|a: nat| a < n implies #[trigger] lhs_rows(a) == swapped_rows(a) by {
        assert forall|b: nat| b < n implies #[trigger] monomial(p, y, x, a, b) == (|a: nat, b: nat|
            g(b, a))(a, b) by {
            assert(p.coeff(a, b) == p.coeff(b, a));
            assert(p.coeff(a, b) * pow(y, a) * pow(x, b) == p.coeff(a, b) * pow(x, b) * pow(y, a))
                by (nonlinear_arith);
        }
        lemma_sum_ext(|b: nat| monomial(p, y, x, a, b), |b: nat| (|a: nat, b: nat| g(b, a))(a, b), n);
    }
    lemma_sum_ext(lhs_rows, swapped_rows, n);
    let cols = |j: nat| sum(|i: nat| (|a: nat, b: nat| g(b, a))(i, j), n);
    let rhs_rows = |a: nat| sum(|b: nat| monomial(p, x, y, a, b), n);
    assert forall|j: nat| j < n implies #[trigger] cols(j) == rhs_rows(j) by {
        lemma_sum_ext(|i: nat| (|a: nat, b: nat| g(b, a))(i, j), |b: nat| monomial(p, x, y, j, b), n);
    }
    lemma_sum_ext(cols, rhs_rows, n);
}


/// The coefficients of the polynomial in `y` obtained by fixing `x = i`:
/// the coefficient of `y^b` is `sum_a coeff(a, b) i^a`.
pub open spec fn column_coeffs(p: SymBVPoly, i: int) -> Seq<int> {
    Seq::new(
        (p.degree + 1) as nat,
        |b: int| monomial_sum(|a: nat| p.coeff(a, b as nat), i, (p.degree + 1) as nat),
    )
}

/// Fixing `x = i` gives a polynomial in `y` with `degree + 1` coefficients.
pub proof fn lemma_column_poly(p: SymBVPoly, i: int, y: int)
    ensures
        int_poly_value(column_coeffs(p, i), y) == p.value_at(i, y),
{
    let n = (p.degree + 1) as nat;
    let cs = column_coeffs(p, i);
    let g = |a: nat, b: nat| monomial(p, i, y, a, b);
    let lhs_terms = |b: nat| int_coeffs(cs)(b) * pow(y, b);
    let cols = |b: nat| sum(|a: nat| g(a, b), n);
    assert forall|b: nat| b < n implies #[trigger] lhs_terms(b) == cols(b) by {
        let f = |a: nat| p.coeff(a, b) * pow(i, a);
        let h = |a: nat| g(a, b);
        assert forall|a: nat| a < n implies #[trigger] h(a) == f(a) * pow(y, b) by {}
        lemma_sum_scale(f, h, pow(y, b), n);
        lemma_sum_ext(f, |a: nat| (|a: nat| p.coeff(a, b))(a) * pow(i, a), n);
        assert(int_coeffs(cs)(b) == cs[b as int]);
    }
    lemma_sum_ext(lhs_terms, cols, n);
    lemma_sum_ext(lhs_terms, |b: nat| int_coeffs(cs)(b) * pow(y, b), n);
    lemma_sum_swap(g, n, n);
    lemma_total_double_sum(p, i, y);
    let rows = |a: nat| sum(|b: nat| g(a, b), n);
    let rows2 = |a: nat| sum(|b: nat| monomial(p, i, y, a, b), n);
    assert forall|a: nat| a < n implies #[trigger] rows(a) == rows2(a) by {
        lemma_sum_ext(|b: nat| g(a, b), |b: nat| monomial(p, i, y, a, b), n);
    }
    lemma_sum_ext(rows, rows2, n);
    assert forall|b: nat| b < n implies #[trigger] cols(b) == (|j: nat| sum(|a: nat| g(a, j), n))(b) by {
        lemma_sum_ext(|a: nat| g(a, b), |a: nat| g(a, b), n);
    }
    lemma_sum_ext(cols, |j: nat| sum(|a: nat| g(a, j), n), n);
    lemma_sum_ext(|a: nat| sum(|b: nat| g(a, b), n), rows, n);
}

} // verus!
