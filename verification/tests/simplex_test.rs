use estimators::engine::{simplex_method_max, SimplexError, Status};
use estimators::pivot::{choose_entering_column, choose_leaving_row, PivotFailure};
use estimators::rational::{rat_eq, rat_is_nonneg, Rat};
use estimators::tableau::tableau_dims_valid;

fn ints(values: &[i64]) -> Vec<Rat> {
    values.iter().map(|v| Rat::from_int(*v)).collect()
}

fn canonical_lp() -> (Vec<Rat>, Vec<Rat>, Vec<Rat>, Vec<usize>) {
    // maximize 3x + 5y subject to x <= 4, 2y <= 12, 3x + 2y <= 18
    // columns: x, y, s1, s2, s3
    let tableau = ints(&[1, 0, 1, 0, 0, 0, 2, 0, 1, 0, 3, 2, 0, 0, 1]);
    let solution = ints(&[4, 12, 18]);
    let objective = ints(&[-3, -5, 0, 0, 0]);
    let basis = vec![2usize, 3, 4];
    (tableau, solution, objective, basis)
}

#[test]
fn canonical_lp_reaches_optimum_36_at_x2_y6() {
    let (mut t, mut s, mut o, mut b) = canonical_lp();
    let r = simplex_method_max(&mut t, 3, 5, &mut s, &mut o, &mut b, 100);
    assert_eq!(r, Ok(Status::Optimal));
    // basic variables: row 0 holds s1 = 2, row 1 holds y = 6, row 2 holds x = 2
    assert_eq!(b, vec![2usize, 1, 0]);
    assert!(rat_eq(&s[0], &Rat::from_int(2)));
    assert!(rat_eq(&s[1], &Rat::from_int(6)));
    assert!(rat_eq(&s[2], &Rat::from_int(2)));
    // objective value 3 * x + 5 * y = 3 * 2 + 5 * 6 = 36
    let x = &s[2];
    let y = &s[1];
    let three_x = estimators::rational::rat_mul(&Rat::from_int(3), x).unwrap();
    let five_y = estimators::rational::rat_mul(&Rat::from_int(5), y).unwrap();
    let z = estimators::rational::rat_add(&three_x, &five_y).unwrap();
    assert!(rat_eq(&z, &Rat::from_int(36)));
    // every reduced cost is nonnegative at the optimum
    assert!(o.iter().all(|c| rat_is_nonneg(c)));
    // feasibility was preserved: the final solution is nonnegative
    assert!(s.iter().all(|v| rat_is_nonneg(v)));
}

#[test]
fn rerun_at_optimum_performs_zero_pivots() {
    let (mut t, mut s, mut o, mut b) = canonical_lp();
    let r = simplex_method_max(&mut t, 3, 5, &mut s, &mut o, &mut b, 100);
    assert_eq!(r, Ok(Status::Optimal));
    let (t1, s1, o1, b1) = (t.clone(), s.clone(), o.clone(), b.clone());
    let r2 = simplex_method_max(&mut t, 3, 5, &mut s, &mut o, &mut b, 100);
    assert_eq!(r2, Ok(Status::Optimal));
    assert_eq!(t, t1);
    assert_eq!(s, s1);
    assert_eq!(o, o1);
    assert_eq!(b, b1);
}

#[test]
fn entering_column_is_none_at_optimum() {
    let objective = ints(&[0, 2, 1]);
    assert_eq!(choose_entering_column(&objective), None);
    let improving = ints(&[0, -2, -5, 1]);
    // the most negative coefficient wins
    assert_eq!(choose_entering_column(&improving), Some(2));
    // ties break to the lowest index
    let tied = ints(&[1, -5, -5]);
    assert_eq!(choose_entering_column(&tied), Some(1));
}

#[test]
fn leaving_row_minimum_positive_ratio() {
    // column 0 entries: 1, 2, -1; solution 4, 6, 5 -> ratios 4, 3 -> row 1
    let tableau = ints(&[1, 0, 2, 0, -1, 0]);
    let solution = ints(&[4, 6, 5]);
    assert_eq!(choose_leaving_row(&tableau, 3, 2, 0, &solution), Ok(1));
}

#[test]
fn leaving_row_reports_unbounded() {
    let tableau = ints(&[-1, 0, 0, 1]);
    let solution = ints(&[4, 6]);
    assert_eq!(
        choose_leaving_row(&tableau, 2, 2, 0, &solution),
        Err(PivotFailure::Unbounded)
    );
}

#[test]
fn unbounded_program_terminates_with_unbounded_status() {
    // maximize x subject to -x + s = 1: x can grow without limit
    let mut t = ints(&[-1, 1]);
    let mut s = ints(&[1]);
    let mut o = ints(&[-1, 0]);
    let mut b = vec![1usize];
    let r = simplex_method_max(&mut t, 1, 2, &mut s, &mut o, &mut b, 100);
    assert_eq!(r, Ok(Status::Unbounded));
}

#[test]
fn iteration_cap_is_reported() {
    let (mut t, mut s, mut o, mut b) = canonical_lp();
    let r = simplex_method_max(&mut t, 3, 5, &mut s, &mut o, &mut b, 1);
    assert_eq!(r, Ok(Status::MaxIterationsExceeded));
}

#[test]
fn zero_pivot_cap_at_optimum_is_still_optimal() {
    let mut t = ints(&[1, 1]);
    let mut s = ints(&[4]);
    let mut o = ints(&[0, 2]);
    let mut b = vec![0usize];
    let r = simplex_method_max(&mut t, 1, 2, &mut s, &mut o, &mut b, 0);
    assert_eq!(r, Ok(Status::Optimal));
}

#[test]
fn bad_dimensions_are_rejected_eagerly() {
    let mut t = ints(&[1, 0, 0, 1]);
    let mut s = ints(&[1, 1]);
    let mut o = ints(&[0, 0]);
    let mut b = vec![0usize, 1];
    // tableau length 4 does not match 2 rows by 3 columns
    let r = simplex_method_max(&mut t, 2, 3, &mut s, &mut o, &mut b, 10);
    assert_eq!(r, Err(SimplexError::InvalidDimensions));
    // zero rows
    let r = simplex_method_max(&mut t, 0, 2, &mut s, &mut o, &mut b, 10);
    assert_eq!(r, Err(SimplexError::InvalidDimensions));
}

#[test]
fn negative_initial_solution_is_infeasible() {
    let mut t = ints(&[1, 0, 0, 1]);
    let mut s = ints(&[1, -1]);
    let mut o = ints(&[0, 0]);
    let mut b = vec![0usize, 1];
    let r = simplex_method_max(&mut t, 2, 2, &mut s, &mut o, &mut b, 10);
    assert_eq!(r, Err(SimplexError::Infeasible));
    // the buffers are untouched on early rejection
    assert_eq!(s, ints(&[1, -1]));
}

#[test]
fn dims_validation() {
    assert!(tableau_dims_valid(6, 2, 3));
    assert!(!tableau_dims_valid(6, 2, 2));
    assert!(!tableau_dims_valid(0, 0, 3));
}

#[test]
fn exact_arithmetic_overflow_is_reported() {
    // the ratio (1 / 2^32) / 2^32 has denominator 2^64, which no i64
    // fraction can hold
    let big: i64 = 1 << 32;
    let tableau = vec![Rat::from_int(big), Rat::one()];
    let solution = vec![Rat::new(1, big)];
    assert_eq!(
        choose_leaving_row(&tableau, 1, 2, 0, &solution),
        Err(PivotFailure::ArithmeticOverflow)
    );
    let mut t = tableau.clone();
    let mut s = solution.clone();
    let mut o = vec![Rat::from_int(-1), Rat::zero()];
    let mut b = vec![1usize];
    let r = simplex_method_max(&mut t, 1, 2, &mut s, &mut o, &mut b, 10);
    assert_eq!(r, Err(SimplexError::ArithmeticOverflow));
}

#[test]
fn optimum_is_in_canonical_form() {
    let (mut t, mut s, mut o, mut b) = canonical_lp();
    let r = simplex_method_max(&mut t, 3, 5, &mut s, &mut o, &mut b, 100);
    assert_eq!(r, Ok(Status::Optimal));
    // each row's basic column is a unit vector, zero in the objective row
    for (r_idx, c) in b.iter().enumerate() {
        for i in 0..3usize {
            let v = &t[i * 5 + c];
            if i == r_idx {
                assert!(rat_eq(v, &Rat::one()));
            } else {
                assert!(rat_eq(v, &Rat::zero()));
            }
        }
        assert!(rat_eq(&o[*c], &Rat::zero()));
    }
}
