use la_stack::binary64;
use la_stack::{LaError, Matrix, Operation, Vector};

/// The arithmetic of the machine's binary64 unit.
fn machine(op: Operation) -> u64 {
    match op {
        Operation::Quotient(a, b) => (f64::from_bits(a) / f64::from_bits(b)).to_bits(),
        Operation::Product(a, b) => (f64::from_bits(a) * f64::from_bits(b)).to_bits(),
        Operation::Sum(a, b) => (f64::from_bits(a) + f64::from_bits(b)).to_bits(),
        Operation::FusedMulAdd(a, b, c) => f64::from_bits(a)
            .mul_add(f64::from_bits(b), f64::from_bits(c))
            .to_bits(),
    }
}

fn samples() -> Vec<f64> {
    vec![
        0.0,
        -0.0,
        1.0,
        -1.0,
        0.5,
        -2.5,
        1e-12,
        -1e-12,
        5e-324,
        -5e-324,
        f64::MIN_POSITIVE,
        f64::MAX,
        f64::MIN,
        f64::INFINITY,
        f64::NEG_INFINITY,
        f64::NAN,
        -f64::NAN,
        f64::from_bits(0x7FF0_0000_0000_0001),
        f64::from_bits(0xFFFF_FFFF_FFFF_FFFF),
    ]
}

#[test]
fn classification_matches_the_machine() {
    for x in samples() {
        let bits = x.to_bits();
        assert_eq!(binary64::is_finite(bits), x.is_finite(), "is_finite({x})");
        assert_eq!(binary64::is_nan(bits), x.is_nan(), "is_nan({x})");
        assert_eq!(binary64::abs(bits), x.abs().to_bits(), "abs({x})");
        assert_eq!(binary64::neg(bits), (-x).to_bits(), "neg({x})");
    }
}

#[test]
fn comparisons_match_the_machine() {
    for a in samples() {
        for b in samples() {
            assert_eq!(binary64::le(a.to_bits(), b.to_bits()), a <= b, "{a} <= {b}");
            assert_eq!(binary64::gt(a.to_bits(), b.to_bits()), a > b, "{a} > {b}");
        }
    }
}

#[test]
fn named_patterns_are_the_values_they_name() {
    assert_eq!(f64::from_bits(binary64::ZERO), 0.0);
    assert!(f64::from_bits(binary64::ZERO).is_sign_positive());
    assert_eq!(f64::from_bits(binary64::ONE), 1.0);
    assert_eq!(f64::from_bits(binary64::NEG_ONE), -1.0);
    assert_eq!(f64::from_bits(binary64::INFINITY), f64::INFINITY);
    assert_eq!(binary64::SIGN_BIT, (-0.0f64).to_bits());
}

#[test]
fn error_messages_name_the_column() {
    assert_eq!(
        LaError::Singular { pivot_col: 0 }.message(),
        "singular matrix at pivot column 0"
    );
    assert_eq!(
        LaError::Singular { pivot_col: 7 }.message(),
        "singular matrix at pivot column 7"
    );
    assert_eq!(
        LaError::NonFinite { pivot_col: 12 }.message(),
        "non-finite value encountered at pivot column 12"
    );
    assert_eq!(
        LaError::NonFinite { pivot_col: 1005 }.message(),
        "non-finite value encountered at pivot column 1005"
    );
    assert_eq!(
        LaError::Singular { pivot_col: usize::MAX }.message(),
        format!("singular matrix at pivot column {}", usize::MAX)
    );
    assert_eq!(LaError::NonFinite { pivot_col: 3 }.pivot_col(), 3);
    assert_eq!(LaError::Singular { pivot_col: 4 }.pivot_col(), 4);
}

#[test]
fn matrix_from_rows_get_set_bounds_checked() {
    let mut rows = [[0u64; 3]; 3];
    rows[0][0] = 1.0f64.to_bits();
    rows[2][2] = (-2.0f64).to_bits();

    let mut m = Matrix::<3>::from_rows(rows);

    assert_eq!(m.get(0, 0), Some(1.0f64.to_bits()));
    assert_eq!(m.get(2, 2), Some((-2.0f64).to_bits()));
    assert_eq!(m.get(3, 0), None);
    assert_eq!(m.get(0, 3), None);

    assert!(!m.set(3, 0, 3.0f64.to_bits()));
    assert!(!m.set(0, 3, 3.0f64.to_bits()));
    assert_eq!(m.rows, rows);

    assert!(m.set(0, 2, 3.0f64.to_bits()));
    assert_eq!(m.get(0, 2), Some(3.0f64.to_bits()));
    assert_eq!(m.get(0, 0), Some(1.0f64.to_bits()));
}

#[test]
fn matrix_zero_default_and_identity() {
    let z = Matrix::<4>::zero();
    let d = Matrix::<4>::default();
    let i = Matrix::<4>::identity();
    for r in 0..4 {
        for c in 0..4 {
            assert_eq!(z.get(r, c), Some(0.0f64.to_bits()));
            assert_eq!(d.get(r, c), Some(0.0f64.to_bits()));
            let expected: f64 = if r == c { 1.0 } else { 0.0 };
            assert_eq!(i.get(r, c), Some(expected.to_bits()));
        }
    }
    assert_eq!(f64::from_bits(z.inf_norm(&machine)), 0.0);
}

#[test]
fn matrix_inf_norm_is_max_row_sum() {
    let m = Matrix::<2>::from_rows([
        [1.0f64.to_bits(), (-2.0f64).to_bits()],
        [3.0f64.to_bits(), 4.0f64.to_bits()],
    ]);
    assert_eq!(f64::from_bits(m.inf_norm(&machine)), 7.0);

    let mut rows = [[0u64; 3]; 3];
    for c in 0..3 {
        rows[0][c] = (-1.0f64).to_bits();
        rows[1][c] = 0.5f64.to_bits();
    }
    assert_eq!(f64::from_bits(Matrix::<3>::from_rows(rows).inf_norm(&machine)), 3.0);
}

#[test]
fn matrix_inf_norm_never_lets_a_nan_win() {
    let m = Matrix::<2>::from_rows([
        [f64::NAN.to_bits(), 1.0f64.to_bits()],
        [3.0f64.to_bits(), 4.0f64.to_bits()],
    ]);
    assert_eq!(f64::from_bits(m.inf_norm(&machine)), 7.0);
}

#[test]
fn vector_new_as_array_into_array() {
    let arr = [1.0f64, 2.0, 3.0, 4.0, 5.0].map(f64::to_bits);
    let v = Vector::<5>::new(arr);
    assert_eq!(v.as_array(), &arr);
    assert_eq!(v.into_array(), arr);
}

#[test]
fn vector_zero_and_default() {
    assert_eq!(Vector::<3>::zero().into_array(), [0.0f64.to_bits(); 3]);
    assert_eq!(Vector::<3>::default().into_array(), [0.0f64.to_bits(); 3]);
    assert_eq!(Vector::<0>::zero().dot(Vector::<0>::zero(), &machine), 0.0f64.to_bits());
}

#[test]
fn vector_dot_and_norm2_sq() {
    let a = Vector::<3>::new([1.0f64, 2.0, 3.0].map(f64::to_bits));
    let b = Vector::<3>::new([-2.0f64, 0.5, 4.0].map(f64::to_bits));
    assert_eq!(f64::from_bits(a.dot(b, &machine)), 11.0);
    assert_eq!(f64::from_bits(a.norm2_sq(&machine)), 14.0);
}

#[test]
fn vector_dot_is_fused() {
    // 0.1 * 10 is not exactly 1: only a fused step keeps the residue.
    let a = Vector::<2>::new([0.1f64, 1.0].map(f64::to_bits));
    let b = Vector::<2>::new([10.0f64, -1.0].map(f64::to_bits));
    let expected = 1.0f64.mul_add(-1.0, 0.1f64.mul_add(10.0, 0.0));
    assert_eq!(f64::from_bits(a.dot(b, &machine)), expected);
}

#[test]
fn matrix_symmetry_check() {
    let symmetric = Matrix::<3>::from_rows(
        [[2.0f64, -1.0, 0.5], [-1.0, 2.0, -1.0], [0.5, -1.0, 2.0]].map(|r| r.map(f64::to_bits)),
    );
    assert!(symmetric.is_symmetric(&machine));

    // Within the allowance of 1e-12 times the norm (here 1e4).
    let nearly = Matrix::<2>::from_rows(
        [[1.0f64, 1e4], [1e4 + 1e-9, 1.0]].map(|r| r.map(f64::to_bits)),
    );
    assert!(nearly.is_symmetric(&machine));

    let skewed = Matrix::<2>::from_rows([[1.0f64, 2.0], [3.0, 4.0]].map(|r| r.map(f64::to_bits)));
    assert!(!skewed.is_symmetric(&machine));

    let with_nan = Matrix::<2>::from_rows(
        [[1.0f64, f64::NAN], [2.0, 1.0]].map(|r| r.map(f64::to_bits)),
    );
    assert!(!with_nan.is_symmetric(&machine));

    assert!(Matrix::<0>::from_rows([]).is_symmetric(&machine));
    assert!(Matrix::<1>::from_rows([[f64::NAN.to_bits()]]).is_symmetric(&machine));
}
