use newton_gauss::approx::my_inverse;
use newton_gauss::gauss_newton::{gauss_newton, invert_exact, jacobian, objective, residual};
use newton_gauss::matrix::{MatError, SMatrix, SVector};
use newton_gauss::rat::Rat;

fn q(n: i64, d: i64) -> Rat {
    Rat::new(n, d).unwrap()
}

fn ri(n: i64) -> Rat {
    Rat::from_int(n)
}

fn model() -> (SMatrix<2, 2>, SVector<2>) {
    let vals = [[2i64, 1], [3, 0]];
    let a = SMatrix::<2, 2>::from_fn(|r, c| ri(vals[r][c]));
    let b = SVector::<2>::from_fn(|_, _| ri(3));
    (a, b)
}

#[test]
fn test_residual_and_objective() {
    let (a, b) = model();
    let x = SVector::<2>::from_fn(|r, _| ri(1 + r as i64));
    // A*x = (4, 3), so f(x) = (1, 0) and |f(x)|^2 = 1.
    let f = residual(&a, &b, &x).unwrap();
    assert!(f.get(0).eq_rat(&ri(1)) && f.get(1).eq_rat(&ri(0)));
    assert!(objective(&a, &b, &x).unwrap().eq_rat(&ri(1)));
}

#[test]
fn test_jacobian_scales_the_matrix() {
    let (a, _) = model();
    let j = jacobian(&a, &q(3, 2)).unwrap();
    assert!(j.get(0, 0).eq_rat(&ri(3)));
    assert!(j.get(0, 1).eq_rat(&q(3, 2)));
    assert!(j.get(1, 0).eq_rat(&q(9, 2)));
    assert!(j.get(1, 1).eq_rat(&ri(0)));
}

#[test]
fn test_invert_exact_diagonal() {
    let m = SMatrix::<2, 2>::from_fn(|r, c| if r == c { ri(2 + 2 * r as i64) } else { ri(0) });
    let inv = invert_exact(&m).unwrap();
    assert!(inv.get(0, 0).eq_rat(&q(1, 2)));
    assert!(inv.get(1, 1).eq_rat(&q(1, 4)));
    assert!(inv.get(0, 1).eq_rat(&ri(0)) && inv.get(1, 0).eq_rat(&ri(0)));
}

#[test]
fn test_invert_exact_singular() {
    let m = SMatrix::<2, 2>::from_fn(|_, _| ri(1));
    match invert_exact(&m) {
        Err(MatError::SingularMatrix) => {}
        _ => panic!("expected a singular matrix"),
    }
}

#[test]
fn test_gauss_newton_descends_to_the_solution() {
    // Five successive steps with beta = 0 must strictly decrease the
    // residual norm each time and come close to the solution (1, 1).
    let (a, b) = model();
    let beta = ri(0);
    let jscale = q(3, 2);
    let mut x = SVector::<2>::from_fn(|r, _| if r == 0 { q(52, 5) } else { q(2, 5) });
    let mut err = objective(&a, &b, &x).unwrap();
    for _ in 0..5 {
        x = gauss_newton(&a, &b, &x, &beta, &jscale).unwrap();
        let err1 = objective(&a, &b, &x).unwrap();
        assert!(err1.lt(&err));
        err = err1;
    }
    assert!(err.lt(&q(1, 50)));
    let ones = SVector::<2>::from_fn(|_, _| ri(1));
    let dev = x.sub(&ones).unwrap().norm_squared().unwrap();
    assert!(dev.lt(&q(1, 500)));
}

#[test]
fn test_gauss_newton_singular_and_damped() {
    // A rank-deficient coefficient matrix with beta = 0 must report
    // SingularMatrix; with beta = 1/10 the step succeeds.
    let vals = [[1i64, 1], [2, 2]];
    let a = SMatrix::<2, 2>::from_fn(|r, c| ri(vals[r][c]));
    let b = SVector::<2>::from_fn(|_, _| ri(3));
    let x0 = SVector::<2>::from_fn(|_, _| ri(1));
    match gauss_newton(&a, &b, &x0, &ri(0), &ri(1)) {
        Err(MatError::SingularMatrix) => {}
        _ => panic!("expected a singular matrix"),
    }
    assert!(gauss_newton(&a, &b, &x0, &q(1, 10), &ri(1)).is_ok());
}

#[test]
fn test_gauss_newton_no_progress_returns_input() {
    // From the exact solution no step can strictly decrease the residual,
    // so the input comes back unchanged.
    let (a, b) = model();
    let x0 = SVector::<2>::from_fn(|_, _| ri(1));
    let x1 = gauss_newton(&a, &b, &x0, &ri(0), &ri(1)).unwrap();
    assert!(x1.get(0).eq_rat(&ri(1)) && x1.get(1).eq_rat(&ri(1)));
}

#[test]
fn test_gauss_newton_overflow_reported() {
    // Scaling a huge coefficient doubles it past the 64-bit range, so the
    // step reports Overflow instead of losing precision.
    let big = Rat::from_int(i64::MAX);
    let a = SMatrix::<2, 2>::from_fn(|r, c| if r == 0 && c == 0 { big } else { ri(1) });
    let b = SVector::<2>::from_fn(|_, _| ri(1));
    let x0 = SVector::<2>::from_fn(|_, _| ri(1));
    match gauss_newton(&a, &b, &x0, &ri(0), &ri(2)) {
        Err(MatError::Overflow) => {}
        _ => panic!("expected an overflow"),
    }
}

#[test]
fn test_my_inverse_positive_entries() {
    // With only positive entries the recursion depth is irrelevant and each
    // result entry is the reciprocal of its row's positive sum.
    let vals = [[2i64, 1], [3, 4]];
    let x = SMatrix::<2, 2>::from_fn(|r, c| ri(vals[r][c]));
    let shallow = my_inverse(&x, 0).unwrap();
    let deep = my_inverse(&x, 5).unwrap();
    for i in 0..2 {
        for j in 0..2 {
            assert!(shallow.get(i, j).eq_rat(&deep.get(i, j)));
        }
    }
    assert!(shallow.get(0, 0).eq_rat(&q(1, 3)));
    assert!(shallow.get(1, 0).eq_rat(&q(1, 3)));
    assert!(shallow.get(0, 1).eq_rat(&q(1, 7)));
    assert!(shallow.get(1, 1).eq_rat(&q(1, 7)));
}

#[test]
fn test_my_inverse_follows_negative_entries() {
    // A negative entry feeds flow back one level deeper, so the truncated
    // and the deeper result differ exactly where the feedback lands.
    let vals = [[1i64, 1], [-1, 1]];
    let x = SMatrix::<2, 2>::from_fn(|r, c| ri(vals[r][c]));
    let d0 = my_inverse(&x, 0).unwrap();
    let d1 = my_inverse(&x, 1).unwrap();
    let d5 = my_inverse(&x, 5).unwrap();
    assert!(d0.get(0, 0).eq_rat(&q(1, 2)));
    assert!(d0.get(1, 0).eq_rat(&q(1, 2)));
    assert!(d0.get(0, 1).eq_rat(&ri(0)));
    assert!(d0.get(1, 1).eq_rat(&ri(1)));
    // The feedback through the entry -1 adds another 1/2 at (1, 0).
    assert!(d1.get(1, 0).eq_rat(&ri(1)));
    assert!(d1.get(0, 0).eq_rat(&q(1, 2)));
    for i in 0..2 {
        for j in 0..2 {
            assert!(d5.get(i, j).eq_rat(&d1.get(i, j)));
        }
    }
}
