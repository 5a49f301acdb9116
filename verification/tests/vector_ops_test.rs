use estimators::rational::{rat_eq, Rat};
use estimators::vector_ops::{check_non_negative, idxmax, idxmin, make_eye_vector, VectorError};

fn ints(values: &[i64]) -> Vec<Rat> {
    values.iter().map(|v| Rat::from_int(*v)).collect()
}

#[test]
fn idxmax_by_magnitude_lowest_tie() {
    let v = ints(&[2, -5, 4, 5]);
    assert_eq!(idxmax(&v, 4), Ok(1));
    let v = ints(&[1, 3, 3]);
    assert_eq!(idxmax(&v, 3), Ok(1));
    assert_eq!(idxmax(&v, 0), Err(VectorError::InvalidLength));
}

#[test]
fn idxmin_by_magnitude_lowest_tie() {
    let v = ints(&[-2, 1, -1, 4]);
    assert_eq!(idxmin(&v, 4), Ok(1));
    let v = ints(&[7, 7]);
    assert_eq!(idxmin(&v, 2), Ok(0));
    assert_eq!(idxmin(&v, 0), Err(VectorError::InvalidLength));
}

#[test]
fn idxmax_respects_len_prefix() {
    let v = ints(&[1, 2, 100]);
    assert_eq!(idxmax(&v, 2), Ok(1));
}

#[test]
fn non_negativity_check() {
    assert!(check_non_negative(&ints(&[0, 1, 2]), 3));
    assert!(!check_non_negative(&ints(&[0, -1, 2]), 3));
    // only the first `len` entries are inspected
    assert!(check_non_negative(&ints(&[0, 1, -2]), 2));
}

#[test]
fn eye_matrix() {
    let eye = make_eye_vector(3);
    assert_eq!(eye.len(), 3);
    for (i, row) in eye.iter().enumerate() {
        assert_eq!(row.len(), 3);
        for (j, v) in row.iter().enumerate() {
            if i == j {
                assert!(rat_eq(v, &Rat::one()));
            } else {
                assert!(rat_eq(v, &Rat::zero()));
            }
        }
    }
}
