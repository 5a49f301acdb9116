use estimators::rational::{rat_eq, rat_mul, Rat};
use estimators::stencils::{
    central_difference_formula, eulers_method, eulers_method_rounded, forward_difference_formula,
    simpson_weighted_sum, simpsons_method,
};

fn square(x: Rat) -> Rat {
    rat_mul(&x, &x).unwrap()
}

fn rat_to_f64(r: &Rat) -> f64 {
    r.num as f64 / r.den as f64
}

/// A rational sample of `exp`, exact to about 2^-26.
fn exp_sample(x: Rat) -> Rat {
    let scale: i64 = 1 << 26;
    let v = rat_to_f64(&x).exp();
    Rat::new((v * scale as f64).round() as i64, scale)
}

#[test]
fn test_eulers() {
    // quadrature of the exponential over [1, 2] with 100 subintervals,
    // from rational samples of exp
    let hi = Rat::from_int(2);
    let lo = Rat::from_int(1);
    let n_steps: usize = 100;
    let r = simpsons_method(exp_sample, hi, lo, n_steps).unwrap();
    let expected = 2f64.exp() - 1f64.exp();
    assert!((rat_to_f64(&r) - expected).abs() < 1e-6);
}

#[test]
fn simpson_is_exact_for_squares() {
    // integral of x^2 from 0 to 3 is 9, and Simpson integrates
    // quadratics exactly
    let r = simpsons_method(square, Rat::from_int(3), Rat::from_int(0), 2).unwrap();
    assert!(rat_eq(&r, &Rat::from_int(9)));
}

#[test]
fn weighted_sum_alternates_weights() {
    // samples 1, 1, 1, 1, 1 over 4 subintervals of width 3:
    // (3/3) * (1 + 4 + 2 + 4 + 1) = 12
    let samples: Vec<Rat> = (0..5).map(|_| Rat::from_int(1)).collect();
    let r = simpson_weighted_sum(&samples, 4, Rat::from_int(3)).unwrap();
    assert!(rat_eq(&r, &Rat::from_int(12)));
}

#[test]
fn forward_difference_of_square() {
    // f(x) = x^2 at x = 3, h0 = 1, reduction 1/2, 3 passes:
    // final h = 1/4, quotient = (f(3.25) - f(3)) / 0.25 = 25/4
    let r = forward_difference_formula(square, Rat::from_int(3), Rat::from_int(1), Rat::new(1, 2), 3)
        .unwrap();
    assert!(rat_eq(&r, &Rat::new(25, 4)));
}

#[test]
fn forward_difference_zero_iterations_is_zero() {
    let r = forward_difference_formula(square, Rat::from_int(3), Rat::from_int(1), Rat::new(1, 2), 0)
        .unwrap();
    assert!(rat_eq(&r, &Rat::zero()));
}

#[test]
fn central_difference_of_square_is_exact() {
    // the central quotient of x^2 is exactly 2x for every h
    let r = central_difference_formula(square, Rat::from_int(3), Rat::from_int(1), Rat::new(1, 2), 4)
        .unwrap();
    assert!(rat_eq(&r, &Rat::from_int(6)));
}

#[test]
fn euler_growth_quarter_steps() {
    // y' = y, y0 = 1, lo = 0, hi = 1, h = 1/4: four steps of
    // y := y * (1 + 1/4), so y_i = (5/4)^i exactly
    let mut buffer: Vec<Rat> = (0..5).map(|_| Rat::zero()).collect();
    let ok = eulers_method(
        |_x: Rat, y: Rat| y,
        &mut buffer,
        Rat::from_int(0),
        Rat::from_int(1),
        Rat::from_int(1),
        Rat::new(1, 4),
    );
    assert!(ok);
    assert!(rat_eq(&buffer[0], &Rat::from_int(1)));
    assert!(rat_eq(&buffer[1], &Rat::new(5, 4)));
    assert!(rat_eq(&buffer[2], &Rat::new(25, 16)));
    assert!(rat_eq(&buffer[3], &Rat::new(125, 64)));
    assert!(rat_eq(&buffer[4], &Rat::new(625, 256)));
}

#[test]
fn euler_leaves_extra_entries_alone() {
    let mut buffer: Vec<Rat> = (0..4).map(|_| Rat::from_int(7)).collect();
    // N = floor((1 + 0) / (1/2)) = 2, so entries 0..=2 are written
    let ok = eulers_method(
        |_x: Rat, y: Rat| y,
        &mut buffer,
        Rat::from_int(0),
        Rat::from_int(1),
        Rat::from_int(1),
        Rat::new(1, 2),
    );
    assert!(ok);
    assert!(rat_eq(&buffer[0], &Rat::from_int(1)));
    assert!(rat_eq(&buffer[3], &Rat::from_int(7)));
}

#[test]
fn euler_negative_step_clamps_to_zero_steps() {
    // (hi + lo) / h is negative, so the step count saturates at zero and
    // only the initial value is written
    let mut buffer: Vec<Rat> = (0..3).map(|_| Rat::from_int(9)).collect();
    let ok = eulers_method(
        |_x: Rat, y: Rat| y,
        &mut buffer,
        Rat::from_int(0),
        Rat::from_int(1),
        Rat::from_int(5),
        Rat::new(-1, 2),
    );
    assert!(ok);
    assert!(rat_eq(&buffer[0], &Rat::from_int(5)));
    assert!(rat_eq(&buffer[1], &Rat::from_int(9)));
    assert!(rat_eq(&buffer[2], &Rat::from_int(9)));
}

#[test]
fn euler_overflow_on_fine_steps_is_reported() {
    // y' = y with h = 1/100: the exact trajectory (101/100)^i leaves the
    // i64 fraction range long before the 100th step
    let mut buffer: Vec<Rat> = (0..101).map(|_| Rat::zero()).collect();
    let ok = eulers_method(
        |_x: Rat, y: Rat| y,
        &mut buffer,
        Rat::from_int(0),
        Rat::from_int(1),
        Rat::from_int(1),
        Rat::new(1, 100),
    );
    assert!(!ok);
}

#[test]
fn euler_rounded_delivers_fine_steps() {
    // y' = y over [0, 1] with h = 1/100, each step rounded to denominator
    // 2^20: the final entry approximates e to first order, where the
    // exact routine would overflow
    let mut buffer: Vec<Rat> = (0..101).map(|_| Rat::zero()).collect();
    let ok = eulers_method_rounded(
        |_x: Rat, y: Rat| y,
        &mut buffer,
        Rat::from_int(0),
        Rat::from_int(1),
        Rat::from_int(1),
        Rat::new(1, 100),
        1 << 20,
    );
    assert!(ok);
    // (1.01)^100 is about 2.7048, e about 2.71828
    let last = rat_to_f64(&buffer[100]);
    assert!((last - std::f64::consts::E).abs() < 0.02);
}
