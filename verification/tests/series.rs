use taylor_expr::func::Func;
use taylor_expr::poly::{SeriesError, TsPoly, DEFAULT_MAX_POW};
use taylor_expr::rat::Rat;

fn poly_from(coefs: &[(i64, i64)], max_pow: usize) -> TsPoly {
    let mut p = TsPoly::zeros(max_pow);
    for (i, &(n, d)) in coefs.iter().enumerate() {
        p.coefs[i] = Rat::from_fraction(n, d).unwrap();
    }
    p
}

#[test]
fn exponential_series_degree_five() {
    let p = TsPoly::from_func(Func::Exp, Rat::zero(), 5).unwrap();
    assert_eq!(p.max_pow, 5);
    let expect = [(1, 1), (1, 1), (1, 2), (1, 6), (1, 24), (1, 120)];
    for (k, &(n, d)) in expect.iter().enumerate() {
        assert_eq!(p.coefs[k].num, n);
        assert_eq!(p.coefs[k].den, d);
    }
    for k in 6..DEFAULT_MAX_POW {
        assert_eq!(p.coefs[k].num, 0);
    }
}

#[test]
fn sine_series_coefficients() {
    let p = TsPoly::from_func(Func::Sin, Rat::zero(), 9).unwrap();
    for k in (0..DEFAULT_MAX_POW).step_by(2) {
        assert_eq!(p.coefs[k].num, 0);
    }
    assert_eq!(p.coefs[1].num, 1);
    assert_eq!(p.coefs[1].den, 1);
    assert_eq!(p.coefs[3].num, -1);
    assert_eq!(p.coefs[3].den, 6);
    assert_eq!(p.coefs[5].num, 1);
    assert_eq!(p.coefs[5].den, 120);
}

#[test]
fn cosine_and_log_series() {
    let c = TsPoly::from_func(Func::Cos, Rat::zero(), 6).unwrap();
    assert_eq!(c.coefs[0].num, 1);
    assert_eq!(c.coefs[2].num, -1);
    assert_eq!(c.coefs[2].den, 2);
    assert_eq!(c.coefs[4].den, 24);
    assert_eq!(c.coefs[1].num, 0);
    let l = TsPoly::from_func(Func::Ln, Rat::zero(), 4).unwrap();
    assert_eq!(l.coefs[0].num, 0);
    assert_eq!(l.coefs[1].num, 1);
    assert_eq!(l.coefs[2].num, -1);
    assert_eq!(l.coefs[2].den, 2);
    assert_eq!(l.coefs[3].num, 1);
    assert_eq!(l.coefs[3].den, 3);
    assert_eq!(l.coefs[4].num, -1);
    assert_eq!(l.coefs[4].den, 4);
}

#[test]
fn tangent_series_is_sine_divided_by_cosine() {
    let t = TsPoly::from_func(Func::Tg, Rat::zero(), 5).unwrap();
    assert_eq!(t.max_pow, 5);
    let s = TsPoly::from_func(Func::Sin, Rat::zero(), 5).unwrap();
    let c = TsPoly::from_func(Func::Cos, Rat::zero(), 5).unwrap();
    let q = s.div(&c).unwrap();
    for k in 0..DEFAULT_MAX_POW {
        assert_eq!(t.coefs[k].num, q.coefs[k].num);
        assert_eq!(t.coefs[k].den, q.coefs[k].den);
    }
}

#[test]
fn recentering_exponential_series() {
    let p = TsPoly::from_func(Func::Exp, Rat::from_int(1), 2).unwrap();
    // 1 + x + x^2/2 re-centered about 1 is 1/2 + x^2/2.
    assert_eq!(p.coefs[0].num, 1);
    assert_eq!(p.coefs[0].den, 2);
    assert_eq!(p.coefs[1].num, 0);
    assert_eq!(p.coefs[2].num, 1);
    assert_eq!(p.coefs[2].den, 2);
}

#[test]
fn addition_commutative_and_associative() {
    let a = poly_from(&[(1, 2), (3, 1)], 1);
    let b = poly_from(&[(1, 3), (-2, 1), (5, 7)], 2);
    let c = poly_from(&[(0, 1), (1, 6)], 1);
    let ab = a.add(&b).unwrap();
    let ba = b.add(&a).unwrap();
    for k in 0..DEFAULT_MAX_POW {
        assert_eq!(ab.coefs[k].num, ba.coefs[k].num);
        assert_eq!(ab.coefs[k].den, ba.coefs[k].den);
    }
    assert_eq!(ab.max_pow, ba.max_pow);
    let left = ab.add(&c).unwrap();
    let right = a.add(&b.add(&c).unwrap()).unwrap();
    for k in 0..DEFAULT_MAX_POW {
        assert_eq!(left.coefs[k].num, right.coefs[k].num);
        assert_eq!(left.coefs[k].den, right.coefs[k].den);
    }
    assert_eq!(left.max_pow, right.max_pow);
}

#[test]
fn subtraction_inverts_addition() {
    let a = poly_from(&[(5, 2), (1, 1), (7, 3)], 2);
    let b = poly_from(&[(1, 2), (2, 1)], 1);
    let s = a.add(&b).unwrap().sub(&b).unwrap();
    for k in 0..DEFAULT_MAX_POW {
        assert!(s.coefs[k].eq_value(&a.coefs[k]));
    }
}

#[test]
fn multiplication_truncates_silently() {
    let mut p = TsPoly::zeros(20);
    p.coefs[20] = Rat::one();
    let mut q = TsPoly::zeros(15);
    q.coefs[15] = Rat::one();
    let r = p.mul(&q).unwrap();
    assert_eq!(r.max_pow, DEFAULT_MAX_POW - 1);
    for k in 0..DEFAULT_MAX_POW {
        assert_eq!(r.coefs[k].num, 0);
    }
}

#[test]
fn multiplication_convolves() {
    let p = poly_from(&[(1, 1), (2, 1)], 1);
    let q = poly_from(&[(3, 1), (4, 1)], 1);
    let r = p.mul(&q).unwrap();
    assert_eq!(r.max_pow, 2);
    assert_eq!(r.coefs[0].num, 3);
    assert_eq!(r.coefs[1].num, 10);
    assert_eq!(r.coefs[2].num, 8);
}

#[test]
fn division_recovers_multiplicand() {
    let p = poly_from(&[(1, 1), (2, 1)], 1);
    let q = poly_from(&[(1, 1), (1, 1)], 1);
    let r = p.mul(&q).unwrap();
    let back = r.div(&q).unwrap();
    assert_eq!(back.max_pow, 1);
    for k in 0..DEFAULT_MAX_POW {
        assert!(back.coefs[k].eq_value(&p.coefs[k]));
    }
}

#[test]
fn division_by_zero_series_is_fatal() {
    let p = poly_from(&[(1, 1), (2, 1)], 1);
    let z = TsPoly::zeros(0);
    assert!(matches!(p.div(&z), Err(SeriesError::ZeroDivisor)));
}

#[test]
fn degree_outside_window_is_fatal() {
    let r = TsPoly::from_func(Func::Exp, Rat::zero(), DEFAULT_MAX_POW);
    assert!(matches!(
        r,
        Err(SeriesError::DegreeTooLarge { requested }) if requested == DEFAULT_MAX_POW
    ));
    let r2 = TsPoly::from_func(Func::Sin, Rat::zero(), 99);
    assert!(matches!(r2, Err(SeriesError::DegreeTooLarge { .. })));
}

#[test]
fn unsupported_tag_is_rejected() {
    let r = TsPoly::from_func(Func::Sqrt, Rat::zero(), 5);
    assert!(matches!(
        r,
        Err(SeriesError::UnsupportedTag { tag: Func::Sqrt })
    ));
    let r2 = TsPoly::from_func(Func::Asin, Rat::zero(), 5);
    assert!(matches!(r2, Err(SeriesError::UnsupportedTag { .. })));
}

#[test]
fn factorial_overflow_is_reported() {
    let r = TsPoly::from_func(Func::Exp, Rat::zero(), 25);
    assert!(matches!(r, Err(SeriesError::Overflow)));
    // The log series has no factorial denominators and still succeeds.
    let l = TsPoly::from_func(Func::Ln, Rat::zero(), 29).unwrap();
    assert_eq!(l.coefs[29].den, 29);
}

#[test]
fn divisor_with_vanishing_lead_is_reported() {
    let a = poly_from(&[(1, 1), (1, 1), (1, 1)], 2);
    let mut b = TsPoly::zeros(2);
    b.coefs[0] = Rat::one();
    // b's nominal degree is 2 but its leading coefficient is zero.
    assert!(matches!(
        a.div(&b),
        Err(SeriesError::ZeroLeadingCoefficient)
    ));
}

#[test]
fn truncate_zeros_upper_coefficients() {
    let mut p = poly_from(&[(1, 1), (2, 1), (3, 1), (4, 1)], 3);
    p.truncate(1);
    assert_eq!(p.coefs[0].num, 1);
    assert_eq!(p.coefs[1].num, 2);
    assert_eq!(p.coefs[2].num, 0);
    assert_eq!(p.coefs[3].num, 0);
    assert_eq!(p.max_pow, 3);
}

#[test]
fn scalar_arithmetic_is_exact_and_reduced() {
    let h = Rat::from_fraction(2, 4).unwrap();
    assert_eq!(h.num, 1);
    assert_eq!(h.den, 2);
    let t = Rat::from_fraction(1, 3).unwrap();
    let s = h.add(&t).unwrap();
    assert_eq!(s.num, 5);
    assert_eq!(s.den, 6);
    let d = h.sub(&t).unwrap();
    assert_eq!(d.num, 1);
    assert_eq!(d.den, 6);
    let m = h.mul(&t).unwrap();
    assert_eq!(m.num, 1);
    assert_eq!(m.den, 6);
    let q = h.div(&t).unwrap();
    assert_eq!(q.num, 3);
    assert_eq!(q.den, 2);
    let n = Rat::from_fraction(1, -2).unwrap();
    assert_eq!(n.num, -1);
    assert_eq!(n.den, 2);
    assert!(Rat::from_fraction(1, 0).is_none());
    assert!(Rat::zero().is_zero());
    assert!(!Rat::one().is_zero());
}
