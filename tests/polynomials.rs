use vss::field::Fe;
use vss::polynomials::{InterpolationError, Poly, SymBVPoly};

fn fe(x: u64) -> Fe {
    Fe::from_u64(x)
}

fn fes(xs: &[u64]) -> Vec<Fe> {
    xs.iter().map(|x| fe(*x)).collect()
}

fn small_sym() -> SymBVPoly {
    // f(x, y) = 1 + 2x + 2y + 3xy
    SymBVPoly { coeffs: vec![fes(&[1]), fes(&[2, 3])], degree: 1 }
}

#[test]
fn poly_eval_horner_matches_expected() {
    let p = Poly { coeffs: fes(&[1, 2, 3]), degree: 2 };
    assert_eq!(p.eval(fe(2)), fe(17));
    assert_eq!(p.eval_std(fe(2)), fe(17));
}

#[test]
fn poly_eval_respects_degree() {
    let p = Poly { coeffs: fes(&[1, 2, 3]), degree: 1 };
    assert_eq!(p.eval(fe(2)), fe(5));
    assert_eq!(p.eval_std(fe(2)), fe(5));
}

#[test]
fn poly_eval_at_zero_is_constant_term() {
    let p = Poly { coeffs: fes(&[9, 4, 7]), degree: 2 };
    assert_eq!(p.eval(Fe::zero()), fe(9));
}

#[test]
fn sym_eval_exact_value() {
    let p = small_sym();
    assert_eq!(p.eval(fe(2), fe(5)), fe(45));
    assert_eq!(p.eval_std(fe(2), fe(5)), fe(45));
}

#[test]
fn sym_eval_is_symmetric() {
    let p = small_sym();
    for x in 0..6u64 {
        for y in 0..6u64 {
            assert_eq!(p.eval(fe(x), fe(y)), p.eval(fe(y), fe(x)));
            assert_eq!(p.eval(fe(x), fe(y)), p.eval_std(fe(x), fe(y)));
        }
    }
}

#[test]
fn sym_coeff_lookup_is_canonical() {
    let p = small_sym();
    assert_eq!(p.coeff_at(0, 1), fe(2));
    assert_eq!(p.coeff_at(1, 0), fe(2));
    assert_eq!(p.coeff_at(1, 1), fe(3));
}

#[test]
fn sym_set_constant_sets_value_at_origin() {
    let mut p = small_sym();
    p.set_constant(fe(42));
    assert_eq!(p.eval(Fe::zero(), Fe::zero()), fe(42));
    assert_eq!(p.eval(fe(1), fe(0)), fe(44));
}

#[test]
fn sym_rand_has_requested_shape() {
    let mut rng = <ark_std::rand::rngs::StdRng as ark_std::rand::SeedableRng>::seed_from_u64(1);
    let p = SymBVPoly::rand(3, &mut rng);
    assert_eq!(p.degree, 3);
    assert_eq!(p.coeffs.len(), 4);
    for (a, row) in p.coeffs.iter().enumerate() {
        assert_eq!(row.len(), a + 1);
    }
    assert_eq!(p.eval(fe(3), fe(8)), p.eval_std(fe(8), fe(3)));
}

#[test]
fn interpolation_recovers_quadratic() {
    // 3 + 2x + x^2 at 1, 2, 3
    let xs = vec![1u64, 2, 3];
    let ys = fes(&[6, 11, 18]);
    let p = Poly::evals_to_coeffs(&xs, &ys, 3).unwrap();
    assert_eq!(p.degree, 2);
    assert_eq!(p.coeffs, fes(&[3, 2, 1]));
    assert_eq!(p.eval(fe(10)), fe(123));
}

#[test]
fn interpolation_reports_effective_degree() {
    // 5 + 4x sampled at four points
    let xs = vec![1u64, 2, 3, 4];
    let ys = fes(&[9, 13, 17, 21]);
    let p = Poly::evals_to_coeffs(&xs, &ys, 4).unwrap();
    assert_eq!(p.degree, 1);
    assert_eq!(p.coeffs.len(), 4);
    assert_eq!(p.eval(Fe::zero()), fe(5));
    assert_eq!(p.eval(fe(100)), fe(405));
}

#[test]
fn interpolation_round_trip_unsorted_points() {
    let f = Poly { coeffs: fes(&[7, 0, 5, 1]), degree: 3 };
    let xs = vec![9u64, 2, 5, 11, 3];
    let ys: Vec<Fe> = xs.iter().map(|x| f.eval(fe(*x))).collect();
    let p = Poly::evals_to_coeffs(&xs, &ys, 5).unwrap();
    assert_eq!(p.degree, 3);
    for x in [0u64, 1, 4, 20, 1000] {
        assert_eq!(p.eval(fe(x)), f.eval(fe(x)));
    }
}

#[test]
fn interpolation_single_point_is_constant() {
    let p = Poly::evals_to_coeffs(&vec![7u64], &fes(&[13]), 1).unwrap();
    assert_eq!(p.degree, 0);
    assert_eq!(p.eval(fe(99)), fe(13));
}

#[test]
fn interpolation_all_zero_has_degree_zero() {
    let p = Poly::evals_to_coeffs(&vec![1u64, 2, 3], &fes(&[0, 0, 0]), 3).unwrap();
    assert_eq!(p.degree, 0);
    assert_eq!(p.coeffs, fes(&[0, 0, 0]));
}

#[test]
fn interpolation_rejects_duplicate_points() {
    let r = Poly::evals_to_coeffs(&vec![1u64, 2, 1], &fes(&[1, 2, 3]), 3);
    assert_eq!(r.unwrap_err(), InterpolationError::DegenerateInterpolation);
}

#[test]
fn interpolation_ignores_points_past_n() {
    let r = Poly::evals_to_coeffs(&vec![1u64, 2, 1], &fes(&[4, 6, 9]), 2).unwrap();
    assert_eq!(r.degree, 1);
    assert_eq!(r.eval(Fe::zero()), fe(2));
}

#[test]
fn field_identities_and_equality() {
    assert!(Fe::zero().is_zero());
    assert!(!Fe::one().is_zero());
    assert!(fe(5).same(&fe(5)));
    assert!(!fe(5).same(&fe(6)));
    assert_eq!(Fe::from_u64(u64::MAX).l0, u64::MAX);
}
