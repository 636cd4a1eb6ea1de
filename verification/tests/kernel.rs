use newton_gauss::matrix::{MatError, SMatrix, SVector};
use newton_gauss::rat::Rat;

fn q(n: i64, d: i64) -> Rat {
    Rat::new(n, d).unwrap()
}

fn ri(n: i64) -> Rat {
    Rat::from_int(n)
}

#[test]
fn test_mini_nalgebra() {
    let z = SMatrix::<2, 2>::zeros();
    for i in 0..2 {
        for j in 0..2 {
            assert!(z.get(i, j).eq_rat(&ri(0)));
        }
    }
    let zv = SVector::<2>::zeros();
    assert!(zv.get(0).eq_rat(&ri(0)) && zv.get(1).eq_rat(&ri(0)));

    let a = SMatrix::<2, 2>::from_fn(|r, c| ri((r * 2 + c) as i64));
    assert!(a.get(0, 0).eq_rat(&ri(0)));
    assert!(a.get(0, 1).eq_rat(&ri(1)));
    assert!(a.get(1, 0).eq_rat(&ri(2)));
    assert!(a.get(1, 1).eq_rat(&ri(3)));

    let row0 = a.row(0);
    assert!(row0[0].eq_rat(&ri(0)) && row0[1].eq_rat(&ri(1)));

    let rows = a.iter();
    assert!(rows[0][0].eq_rat(&ri(0)));
    assert!(rows[1][1].eq_rat(&ri(3)));

    let col1 = a.column(1).iter();
    assert!(col1.len() == 2);
    assert!(col1[0].eq_rat(&ri(1)) && col1[1].eq_rat(&ri(3)));

    assert!(a.norm_squared().unwrap().eq_rat(&ri(14)));

    let b = SVector::<2>::from_fn(|r, _| ri((r + 1) as i64));
    assert!(b.get(0).eq_rat(&ri(1)) && b.get(1).eq_rat(&ri(2)));

    let c = SVector::<2>::from_fn(|r, _| q(5 - 2 * (r as i64), 2));
    assert!(c.get(0).eq_rat(&q(5, 2)) && c.get(1).eq_rat(&q(3, 2)));

    let zm = b.zip_map(&c, |x, y| x.checked_mul(&y).unwrap());
    assert!(zm.get(0).eq_rat(&q(5, 2)) && zm.get(1).eq_rat(&ri(3)));

    let cm = b.component_mul(&c).unwrap();
    assert!(cm.get(0).eq_rat(&q(5, 2)) && cm.get(1).eq_rat(&ri(3)));

    assert!(c.norm_squared().unwrap().eq_rat(&q(17, 2)));

    let ab = a.mul(&b).unwrap();
    assert!(ab.get(0).eq_rat(&ri(2)) && ab.get(1).eq_rat(&ri(8)));

    let b3 = b.scale(&ri(3)).unwrap();
    assert!(b3.get(0).eq_rat(&ri(3)) && b3.get(1).eq_rat(&ri(6)));

    let bc = b.add(&c).unwrap();
    assert!(bc.get(0).eq_rat(&q(7, 2)) && bc.get(1).eq_rat(&q(7, 2)));

    let d = SMatrix::<2, 2>::from_fn(|r, c| ri(((2 - r) * 2 + (2 - c)) as i64));
    assert!(d.get(0, 0).eq_rat(&ri(6)));
    assert!(d.get(0, 1).eq_rat(&ri(5)));
    assert!(d.get(1, 0).eq_rat(&ri(4)));
    assert!(d.get(1, 1).eq_rat(&ri(3)));

    let da = d.sub(&a).unwrap();
    assert!(da.get(0, 0).eq_rat(&ri(6)));
    assert!(da.get(0, 1).eq_rat(&ri(4)));
    assert!(da.get(1, 0).eq_rat(&ri(2)));
    assert!(da.get(1, 1).eq_rat(&ri(0)));

    assert!(d.get(1, 1).eq_rat(&ri(3)));
    assert!(c.get(1).eq_rat(&q(3, 2)));

    let nd = d.neg();
    assert!(nd.get(0, 0).eq_rat(&ri(-6)));
    assert!(nd.get(0, 1).eq_rat(&ri(-5)));
    assert!(nd.get(1, 0).eq_rat(&ri(-4)));
    assert!(nd.get(1, 1).eq_rat(&ri(-3)));
}

#[test]
fn test_rat_arithmetic() {
    assert!(q(2, 4).eq_rat(&q(1, 2)));
    assert!(q(-3, -6).eq_rat(&q(1, 2)));
    assert!(q(1, 3).lt(&q(1, 2)));
    assert!(q(1, 2).le(&q(1, 2)));
    assert!(q(1, 2).checked_add(&q(1, 3)).unwrap().eq_rat(&q(5, 6)));
    assert!(q(1, 2).checked_sub(&q(1, 3)).unwrap().eq_rat(&q(1, 6)));
    assert!(q(2, 3).checked_mul(&q(3, 4)).unwrap().eq_rat(&q(1, 2)));
    assert!(q(2, 3).checked_div(&q(4, 3)).unwrap().eq_rat(&q(1, 2)));
    assert!(q(1, 2).checked_div(&Rat::zero()).is_none());
    assert!(Rat::new(1, 0).is_none());
    assert!(q(1, 2).neg().eq_rat(&q(-1, 2)));
    assert!(Rat::zero().is_zero());
    assert!(!Rat::one().is_zero());
}

#[test]
fn test_overflow_is_reported() {
    let big = Rat::from_int(i64::MAX);
    assert!(big.checked_add(&big).is_none());
    let v = SVector::<1>::from_fn(|_, _| Rat::from_int(i64::MAX));
    match v.add(&v) {
        Err(MatError::Overflow) => {}
        _ => panic!("expected an overflow"),
    }
}

#[test]
fn test_transpose_round_trip() {
    let a = SMatrix::<2, 3>::from_fn(|r, c| ri((r * 3 + c + 1) as i64));
    let t = a.transpose();
    for r in 0..2 {
        for c in 0..3 {
            assert!(t.get(c, r).eq_rat(&a.get(r, c)));
        }
    }
    let tt = t.transpose();
    for r in 0..2 {
        for c in 0..3 {
            assert!(tt.get(r, c).eq_rat(&a.get(r, c)));
        }
    }
}

#[test]
fn test_norm_squared_sign() {
    let z = SVector::<3>::zeros();
    assert!(z.norm_squared().unwrap().eq_rat(&ri(0)));
    let v = SVector::<3>::from_fn(|r, _| if r == 2 { q(1, 2) } else { ri(0) });
    let n = v.norm_squared().unwrap();
    assert!(n.eq_rat(&q(1, 4)));
    assert!(Rat::zero().lt(&n));
}

#[test]
fn test_linearity() {
    // A*(x+y) == A*x + A*y and (k*A)*x == k*(A*x), exactly.
    let a = SMatrix::<2, 2>::from_fn(|r, c| q((r * 2 + c + 1) as i64, 3));
    let x = SVector::<2>::from_fn(|r, _| q(2 * r as i64 + 1, 5));
    let y = SVector::<2>::from_fn(|r, _| q(7 - r as i64, 4));
    let lhs = a.mul(&x.add(&y).unwrap()).unwrap();
    let rhs = a.mul(&x).unwrap().add(&a.mul(&y).unwrap()).unwrap();
    for i in 0..2 {
        assert!(lhs.get(i).eq_rat(&rhs.get(i)));
    }
    let k = q(3, 2);
    let lhs2 = a.scale(&k).unwrap().mul(&x).unwrap();
    let rhs2 = a.mul(&x).unwrap().scale(&k).unwrap();
    for i in 0..2 {
        assert!(lhs2.get(i).eq_rat(&rhs2.get(i)));
    }
}
