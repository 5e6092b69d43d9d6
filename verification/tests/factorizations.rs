use la_stack::{
    LaError, Ldlt, Lu, Matrix, Operation, Vector, DEFAULT_PIVOT_TOL, DEFAULT_SINGULAR_TOL,
};

/// The arithmetic of the machine's binary64 unit.
fn hardware(op: Operation) -> u64 {
    match op {
        Operation::Quotient(a, b) => (f64::from_bits(a) / f64::from_bits(b)).to_bits(),
        Operation::Product(a, b) => (f64::from_bits(a) * f64::from_bits(b)).to_bits(),
        Operation::Sum(a, b) => (f64::from_bits(a) + f64::from_bits(b)).to_bits(),
        Operation::FusedMulAdd(a, b, c) => f64::from_bits(a)
            .mul_add(f64::from_bits(b), f64::from_bits(c))
            .to_bits(),
    }
}

fn matrix<const D: usize>(rows: [[f64; D]; D]) -> Matrix<D> {
    Matrix::from_rows(rows.map(|row| row.map(f64::to_bits)))
}

fn vector<const D: usize>(data: [f64; D]) -> Vector<D> {
    Vector::new(data.map(f64::to_bits))
}

fn floats<const D: usize>(v: Vector<D>) -> [f64; D] {
    v.into_array().map(f64::from_bits)
}

fn assert_approx(a: f64, b: f64, eps: f64) {
    assert!((a - b).abs() <= eps, "{a} !~= {b} (eps={eps})");
}

/// Row-major product of two matrices in plain floating point.
fn product<const D: usize>(a: [[f64; D]; D], b: [[f64; D]; D]) -> [[f64; D]; D] {
    let mut out = [[0.0; D]; D];
    for r in 0..D {
        for c in 0..D {
            for k in 0..D {
                out[r][c] += a[r][k] * b[k][c];
            }
        }
    }
    out
}

fn apply<const D: usize>(a: [[f64; D]; D], x: [f64; D]) -> [f64; D] {
    let mut out = [0.0; D];
    for r in 0..D {
        for c in 0..D {
            out[r] += a[r][c] * x[c];
        }
    }
    out
}

#[test]
fn solve_2x2_basic() {
    let a = matrix([[1.0, 2.0], [3.0, 4.0]]);
    let lu = Lu::factor(a, DEFAULT_PIVOT_TOL, &hardware).unwrap();
    let b = vector([5.0, 11.0]);
    let x = floats(lu.solve_vec(b, &hardware).unwrap());
    assert_approx(x[0], 1.0, 1e-12);
    assert_approx(x[1], 2.0, 1e-12);
}

#[test]
fn solve_requires_pivoting() {
    let a = matrix([[0.0, 1.0], [1.0, 0.0]]);
    let lu = a.lu(DEFAULT_PIVOT_TOL, &hardware).unwrap();
    let b = vector([1.0, 2.0]);
    let x = floats(lu.solve_vec(b, &hardware).unwrap());
    assert_approx(x[0], 2.0, 1e-12);
    assert_approx(x[1], 1.0, 1e-12);
}

#[test]
fn singular_detected() {
    let a = matrix([[1.0, 2.0], [2.0, 4.0]]);
    let err = a.lu(DEFAULT_PIVOT_TOL, &hardware).unwrap_err();
    assert_eq!(err, LaError::Singular { pivot_col: 1 });
}

#[test]
fn solve_2x2_known_spd() {
    let a = matrix([[4.0, 2.0], [2.0, 3.0]]);
    let ldlt = Ldlt::<2>::factor(a, DEFAULT_SINGULAR_TOL, &hardware).unwrap();

    let b = vector([1.0, 2.0]);
    let x = floats(ldlt.solve_vec(b, &hardware).unwrap());

    assert_approx(x[0], -0.125, 1e-12);
    assert_approx(x[1], 0.75, 1e-12);
    assert_approx(f64::from_bits(ldlt.det(&hardware)), 8.0, 1e-12);
}

#[test]
fn solve_3x3_spd_tridiagonal_smoke() {
    let a = matrix([[2.0, -1.0, 0.0], [-1.0, 2.0, -1.0], [0.0, -1.0, 2.0]]);
    let ldlt = a.ldlt(DEFAULT_SINGULAR_TOL, &hardware).unwrap();

    let b = vector([1.0, 0.0, 1.0]);
    let x = floats(ldlt.solve_vec(b, &hardware).unwrap());

    for &x_i in &x {
        assert_approx(x_i, 1.0, 1e-9);
    }
}

#[test]
fn singular_detected_for_degenerate_psd() {
    let a = matrix([[1.0, 1.0], [1.0, 1.0]]);
    let err = a.ldlt(DEFAULT_SINGULAR_TOL, &hardware).unwrap_err();
    assert_eq!(err, LaError::Singular { pivot_col: 1 });
}

#[test]
fn nonfinite_detected() {
    let a = matrix([[f64::NAN, 0.0], [0.0, 1.0]]);
    let err = a.ldlt(DEFAULT_SINGULAR_TOL, &hardware).unwrap_err();
    assert_eq!(err, LaError::NonFinite { pivot_col: 0 });
}

#[test]
fn default_tolerances_are_one_in_a_trillion() {
    assert_eq!(f64::from_bits(DEFAULT_PIVOT_TOL), 1e-12);
    assert_eq!(f64::from_bits(DEFAULT_SINGULAR_TOL), 1e-12);
}

#[test]
fn lu_of_unit_lower_times_upper_recovers_det_and_solution() {
    let l = [[1.0, 0.0, 0.0], [0.5, 1.0, 0.0], [-0.25, 0.5, 1.0]];
    let u = [[4.0, 2.0, -2.0], [0.0, 3.0, 1.0], [0.0, 0.0, 2.0]];
    let a = product(l, u);
    let x = [1.0, -2.0, 3.0];
    let b = apply(a, x);

    let lu = matrix(a).lu(DEFAULT_PIVOT_TOL, &hardware).unwrap();
    assert_approx(f64::from_bits(lu.det(&hardware)), 24.0, 1e-9);
    let solved = floats(lu.solve_vec(vector(b), &hardware).unwrap());
    for i in 0..3 {
        assert_approx(solved[i], x[i], 1e-9);
    }
}

#[test]
fn lu_antidiagonal_has_det_minus_one() {
    let lu = matrix([[0.0, 1.0], [1.0, 0.0]]).lu(DEFAULT_PIVOT_TOL, &hardware).unwrap();
    assert_eq!(f64::from_bits(lu.det(&hardware)), -1.0);
    let x = floats(lu.solve_vec(vector([1.0, 2.0]), &hardware).unwrap());
    assert_eq!(x, [2.0, 1.0]);
    assert_eq!(floats(lu.permute(vector([1.0, 2.0]))), [2.0, 1.0]);
}

#[test]
fn lu_exact_values_2x2() {
    // Pivot row 1: multiplier 1/3, U = [[3, 4], [0, 2/3]], one exchange.
    let lu = matrix([[1.0, 2.0], [3.0, 4.0]]).lu(DEFAULT_PIVOT_TOL, &hardware).unwrap();
    let expected = -(3.0f64 * (-(1.0f64 / 3.0)).mul_add(4.0, 2.0));
    assert_eq!(f64::from_bits(lu.det(&hardware)), expected);
    assert_approx(expected, -2.0, 1e-12);
    assert_eq!(floats(lu.permute(vector([5.0, 11.0]))), [11.0, 5.0]);
}

#[test]
fn ldlt_of_l_d_lt_recovers_det_and_matches_lu() {
    let l = [[1.0, 0.0, 0.0], [0.5, 1.0, 0.0], [-0.25, 0.5, 1.0]];
    let d = [[4.0, 0.0, 0.0], [0.0, 2.0, 0.0], [0.0, 0.0, 0.5]];
    let lt = [[1.0, 0.5, -0.25], [0.0, 1.0, 0.5], [0.0, 0.0, 1.0]];
    let a = product(product(l, d), lt);
    let x = [2.0, -1.0, 0.5];
    let b = apply(a, x);

    let ldlt = matrix(a).ldlt(DEFAULT_SINGULAR_TOL, &hardware).unwrap();
    let det = f64::from_bits(ldlt.det(&hardware));
    assert_approx(det, 4.0, 1e-12);
    let solved = floats(ldlt.solve_vec(vector(b), &hardware).unwrap());
    for i in 0..3 {
        assert_approx(solved[i], x[i], 1e-12);
    }

    let lu_det = f64::from_bits(matrix(a).det(DEFAULT_PIVOT_TOL, &hardware).unwrap());
    assert!((det - lu_det).abs() <= 1e-8 * det.abs().max(1.0));
}

#[test]
fn ldlt_exact_values_2x2() {
    // d0 = 4, l10 = 0.5, d1 = 3 - (0.5 * 4) * 0.5 = 2.
    let ldlt = matrix([[4.0, 2.0], [2.0, 3.0]]).ldlt(DEFAULT_SINGULAR_TOL, &hardware).unwrap();
    assert_eq!(f64::from_bits(ldlt.det(&hardware)), 8.0);
    let x = floats(ldlt.solve_vec(vector([4.0, 4.0]), &hardware).unwrap());
    assert_eq!(x, [0.5, 1.0]);
}

#[test]
fn lu_nan_at_first_pivot_position_is_nonfinite_not_singular() {
    let a = matrix([[f64::NAN, 0.0], [0.0, 0.0]]);
    assert_eq!(
        a.lu(DEFAULT_PIVOT_TOL, &hardware).unwrap_err(),
        LaError::NonFinite { pivot_col: 0 }
    );
    assert_eq!(
        a.det(DEFAULT_PIVOT_TOL, &hardware).unwrap_err(),
        LaError::NonFinite { pivot_col: 0 }
    );
}

#[test]
fn lu_nan_below_the_diagonal_is_nonfinite() {
    let a = matrix([[1.0, 0.0], [f64::NAN, 1.0]]);
    assert_eq!(
        a.lu(DEFAULT_PIVOT_TOL, &hardware).unwrap_err(),
        LaError::NonFinite { pivot_col: 0 }
    );
    let b = matrix([[1.0, 0.0], [f64::INFINITY, 1.0]]);
    assert_eq!(
        b.lu(DEFAULT_PIVOT_TOL, &hardware).unwrap_err(),
        LaError::NonFinite { pivot_col: 0 }
    );
}

#[test]
fn lu_zero_matrix_is_singular_at_first_column() {
    let a = Matrix::<3>::zero();
    assert_eq!(
        a.lu(DEFAULT_PIVOT_TOL, &hardware).unwrap_err(),
        LaError::Singular { pivot_col: 0 }
    );
}

#[test]
fn lu_update_that_overflows_is_nonfinite_at_its_column() {
    let a = matrix([[1.0, 1e308], [1.0, -1e308]]);
    assert_eq!(
        a.lu(DEFAULT_PIVOT_TOL, &hardware).unwrap_err(),
        LaError::NonFinite { pivot_col: 0 }
    );
}

#[test]
fn lu_tolerance_gates_the_pivot_magnitude() {
    // A subnormal pivot passes a tolerance of zero and fails the default one.
    let a = matrix([[5e-324, 0.0], [0.0, 1.0]]);
    assert!(a.lu(0.0f64.to_bits(), &hardware).is_ok());
    assert_eq!(
        a.lu(DEFAULT_PIVOT_TOL, &hardware).unwrap_err(),
        LaError::Singular { pivot_col: 0 }
    );
    // A pivot equal to the tolerance is singular; the magnitude counts, not the sign.
    let b = matrix([[-0.5, 0.0], [0.0, 1.0]]);
    assert_eq!(
        b.lu(0.5f64.to_bits(), &hardware).unwrap_err(),
        LaError::Singular { pivot_col: 0 }
    );
    assert!(b.lu(0.25f64.to_bits(), &hardware).is_ok());
}

#[test]
fn ldlt_negative_diagonal_is_singular() {
    let a = matrix([[-1.0, 0.0], [0.0, 1.0]]);
    assert_eq!(
        a.ldlt(DEFAULT_SINGULAR_TOL, &hardware).unwrap_err(),
        LaError::Singular { pivot_col: 0 }
    );
}

#[test]
fn ldlt_update_that_overflows_is_nonfinite() {
    let a = matrix([[1.0, 0.0], [1e200, -1e308]]);
    assert_eq!(
        a.ldlt(DEFAULT_SINGULAR_TOL, &hardware).unwrap_err(),
        LaError::NonFinite { pivot_col: 0 }
    );
}

#[test]
fn ldlt_reads_the_lower_triangle_only() {
    let a = matrix([[4.0, f64::NAN], [2.0, 3.0]]);
    let ldlt = a.ldlt(DEFAULT_SINGULAR_TOL, &hardware).unwrap();
    assert_eq!(f64::from_bits(ldlt.det(&hardware)), 8.0);
}

#[test]
fn solve_fails_on_nonfinite_right_hand_side() {
    let lu = Matrix::<2>::identity().lu(DEFAULT_PIVOT_TOL, &hardware).unwrap();
    assert_eq!(
        lu.solve_vec(vector([f64::NAN, 1.0]), &hardware).unwrap_err(),
        LaError::NonFinite { pivot_col: 0 }
    );
    assert_eq!(
        lu.solve_vec(vector([1.0, f64::INFINITY]), &hardware).unwrap_err(),
        LaError::NonFinite { pivot_col: 1 }
    );
    let ldlt = Matrix::<2>::identity().ldlt(DEFAULT_SINGULAR_TOL, &hardware).unwrap();
    assert_eq!(
        ldlt.solve_vec(vector([f64::NAN, 1.0]), &hardware).unwrap_err(),
        LaError::NonFinite { pivot_col: 0 }
    );
    assert_eq!(
        ldlt.solve_vec(vector([1.0, f64::NEG_INFINITY]), &hardware).unwrap_err(),
        LaError::NonFinite { pivot_col: 1 }
    );
}

#[test]
fn repeated_det_and_solve_are_bit_identical() {
    let a = matrix([[4.0, 1.0, 0.5], [1.0, 3.0, 0.25], [0.5, 0.25, 2.0]]);
    let b = vector([0.1, 0.2, 0.3]);

    let lu = a.lu(DEFAULT_PIVOT_TOL, &hardware).unwrap();
    assert_eq!(lu.det(&hardware), lu.det(&hardware));
    assert_eq!(
        lu.solve_vec(b, &hardware).unwrap().into_array(),
        lu.solve_vec(b, &hardware).unwrap().into_array()
    );

    let ldlt = a.ldlt(DEFAULT_SINGULAR_TOL, &hardware).unwrap();
    assert_eq!(ldlt.det(&hardware), ldlt.det(&hardware));
    assert_eq!(
        ldlt.solve_vec(b, &hardware).unwrap().into_array(),
        ldlt.solve_vec(b, &hardware).unwrap().into_array()
    );
}

#[test]
fn lu_det_of_diagonal_matrix_is_product_of_diagonal() {
    let a = matrix([
        [2.0, 0.0, 0.0, 0.0],
        [0.0, -3.0, 0.0, 0.0],
        [0.0, 0.0, 0.5, 0.0],
        [0.0, 0.0, 0.0, 4.0],
    ]);
    let det = f64::from_bits(a.det(DEFAULT_PIVOT_TOL, &hardware).unwrap());
    assert_approx(det, -12.0, 1e-12);
}

#[test]
fn identity_factorizations_return_the_right_hand_side() {
    let b = [1.0, 2.0, 3.0, 4.0, 5.0];
    let lu = Matrix::<5>::identity().lu(DEFAULT_PIVOT_TOL, &hardware).unwrap();
    assert_eq!(f64::from_bits(lu.det(&hardware)), 1.0);
    assert_eq!(floats(lu.solve_vec(vector(b), &hardware).unwrap()), b);
    let ldlt = Matrix::<5>::identity().ldlt(DEFAULT_SINGULAR_TOL, &hardware).unwrap();
    assert_eq!(f64::from_bits(ldlt.det(&hardware)), 1.0);
    assert_eq!(floats(ldlt.solve_vec(vector(b), &hardware).unwrap()), b);
}

#[test]
fn ldlt_diagonal_spd_divides_entrywise() {
    let a = matrix([[1.0, 0.0, 0.0], [0.0, 2.0, 0.0], [0.0, 0.0, 3.0]]);
    let ldlt = a.ldlt(DEFAULT_SINGULAR_TOL, &hardware).unwrap();
    assert_eq!(f64::from_bits(ldlt.det(&hardware)), 6.0);
    let x = floats(ldlt.solve_vec(vector([5.0, 4.0, 3.0]), &hardware).unwrap());
    assert_eq!(x, [5.0, 2.0, 1.0]);
}

#[test]
fn empty_factorizations_have_det_one() {
    let a = Matrix::<0>::from_rows([]);
    let lu = a.lu(DEFAULT_PIVOT_TOL, &hardware).unwrap();
    assert_eq!(f64::from_bits(lu.det(&hardware)), 1.0);
    let ldlt = a.ldlt(DEFAULT_SINGULAR_TOL, &hardware).unwrap();
    assert_eq!(f64::from_bits(ldlt.det(&hardware)), 1.0);
    assert!(lu.solve_vec(Vector::<0>::new([]), &hardware).is_ok());
}

#[test]
fn lu_picks_the_topmost_of_equal_magnitudes() {
    // Rows 0 and 1 tie in column 0: no exchange, so the sign stays plus one.
    let lu = matrix([[-2.0, 1.0], [2.0, 3.0]]).lu(DEFAULT_PIVOT_TOL, &hardware).unwrap();
    assert_eq!(floats(lu.permute(vector([7.0, 9.0]))), [7.0, 9.0]);
    assert_eq!(f64::from_bits(lu.det(&hardware)), -8.0);
}

#[test]
fn lu_det_3x3_known() {
    let a = matrix([[1.0, 2.0, 3.0], [0.0, 4.0, 5.0], [1.0, 0.0, 6.0]]);
    let lu = a.lu(DEFAULT_PIVOT_TOL, &hardware).unwrap();
    assert_approx(f64::from_bits(lu.det(&hardware)), 22.0, 1e-12);
}

#[test]
fn lu_solve_3x3_with_zero_diagonal() {
    let a = matrix([[0.0, 1.0, 1.0], [1.0, 0.0, 1.0], [1.0, 1.0, 0.0]]);
    let lu = a.lu(DEFAULT_PIVOT_TOL, &hardware).unwrap();
    let x = floats(lu.solve_vec(vector([5.0, 4.0, 3.0]), &hardware).unwrap());
    assert_approx(x[0], 1.0, 1e-12);
    assert_approx(x[1], 2.0, 1e-12);
    assert_approx(x[2], 3.0, 1e-12);
}

#[test]
fn lu_ones_off_the_diagonal_5x5() {
    let mut rows = [[1.0f64; 5]; 5];
    for i in 0..5 {
        rows[i][i] = 0.0;
    }
    let lu = matrix(rows).lu(DEFAULT_PIVOT_TOL, &hardware).unwrap();
    assert_approx(f64::from_bits(lu.det(&hardware)), 4.0, 1e-12);
    let x = floats(lu.solve_vec(vector([14.0, 13.0, 12.0, 11.0, 10.0]), &hardware).unwrap());
    for i in 0..5 {
        assert_approx(x[i], (i + 1) as f64, 1e-12);
    }
}

#[test]
fn lu_of_diagonal_matrix_keeps_order_sign_and_diagonal() {
    let diag = [2.5f64, -0.125, 7.0];
    let mut rows = [[0.0f64; 3]; 3];
    rows[0][1] = -0.0;
    for i in 0..3 {
        rows[i][i] = diag[i];
    }
    let lu = matrix(rows).lu(DEFAULT_PIVOT_TOL, &hardware).unwrap();
    assert_eq!(floats(lu.permute(vector([1.0, 2.0, 3.0]))), [1.0, 2.0, 3.0]);
    assert_eq!(f64::from_bits(lu.det(&hardware)), 1.0 * 2.5 * -0.125 * 7.0);
    let x = floats(lu.solve_vec(vector([5.0, 1.0, 14.0]), &hardware).unwrap());
    assert_eq!(x, [2.0, -8.0, 2.0]);
}

#[test]
fn the_machine_is_exact_on_zeros() {
    for zero in [0.0f64, -0.0] {
        for d in [1.0f64, -3.5, 1e-300, f64::MAX] {
            let q = f64::from_bits(hardware(Operation::Quotient(zero.to_bits(), d.to_bits())));
            assert_eq!(q, 0.0);
            for c in [2.0f64, -1e-12, f64::MIN_POSITIVE] {
                let fused = hardware(Operation::FusedMulAdd(
                    zero.to_bits(),
                    d.to_bits(),
                    c.to_bits(),
                ));
                assert_eq!(fused, c.to_bits());
            }
            for c in [0.0f64, -0.0] {
                let fused = f64::from_bits(hardware(Operation::FusedMulAdd(
                    zero.to_bits(),
                    d.to_bits(),
                    c.to_bits(),
                )));
                assert_eq!(fused, 0.0);
            }
        }
    }
}

#[test]
fn det_through_matrix_matches_det_through_factorization() {
    let a = matrix([[2.0, 1.0, 0.0], [1.0, 3.0, 1.0], [0.0, 1.0, 4.0]]);
    let direct = a.det(DEFAULT_PIVOT_TOL, &hardware).unwrap();
    let lu = a.lu(DEFAULT_PIVOT_TOL, &hardware).unwrap();
    assert_eq!(direct, lu.det(&hardware));
    assert_approx(f64::from_bits(direct), 18.0, 1e-12);
    assert_eq!(
        matrix([[1.0, 2.0], [2.0, 4.0]]).det(DEFAULT_PIVOT_TOL, &hardware).unwrap_err(),
        LaError::Singular { pivot_col: 1 }
    );
}

#[test]
fn ldlt_pivot_at_tolerance_is_singular() {
    let a = matrix([[0.5, 0.0], [0.0, 1.0]]);
    assert_eq!(
        a.ldlt(0.5f64.to_bits(), &hardware).unwrap_err(),
        LaError::Singular { pivot_col: 0 }
    );
    assert!(a.ldlt(0.25f64.to_bits(), &hardware).is_ok());
    let zero = matrix([[0.0, 0.0], [0.0, 1.0]]);
    assert_eq!(
        zero.ldlt(0.0f64.to_bits(), &hardware).unwrap_err(),
        LaError::Singular { pivot_col: 0 }
    );
}
