//! Exact rational scalars for series coefficients.
//!
//! The mathematical model of a coefficient is `Frac`, an unbounded
//! numerator/denominator pair with a positive denominator; two fractions
//! denote the same rational number when they cross-multiply equally
//! (`frac_eq`). The executable type `Rat` stores an `i64` pair and keeps
//! results in canonical (gcd-reduced) form; each operation reports `None`
//! exactly when the canonical form of the mathematical result does not fit
//! in an `i64` pair.

use vstd::prelude::*;
use vstd::arithmetic::div_mod::{lemma_fundamental_div_mod, lemma_div_multiples_vanish};

verus! {

/// Mathematical (unbounded) fraction: numerator over denominator.
pub ghost struct Frac {
    pub n: int,
    pub d: int,
}

/// A fraction is well formed when its denominator is positive.
pub open spec fn frac_wf(q: Frac) -> bool {
    q.d > 0
}

/// Two fractions denote the same rational number.
pub open spec fn frac_eq(a: Frac, b: Frac) -> bool {
    a.n * b.d == b.n * a.d
}

pub open spec fn frac_zero() -> Frac {
    Frac { n: 0, d: 1 }
}

pub open spec fn frac_one() -> Frac {
    Frac { n: 1, d: 1 }
}

pub open spec fn frac_of_int(i: int) -> Frac {
    Frac { n: i, d: 1 }
}

pub open spec fn frac_add(a: Frac, b: Frac) -> Frac {
    Frac { n: a.n * b.d + b.n * a.d, d: a.d * b.d }
}

pub open spec fn frac_sub(a: Frac, b: Frac) -> Frac {
    Frac { n: a.n * b.d - b.n * a.d, d: a.d * b.d }
}

pub open spec fn frac_mul(a: Frac, b: Frac) -> Frac {
    Frac { n: a.n * b.n, d: a.d * b.d }
}

/// Quotient of two fractions, with the sign moved into the numerator so the
/// denominator stays positive. Meaningful only when `b.n != 0`.
pub open spec fn frac_div(a: Frac, b: Frac) -> Frac {
    if b.n >= 0 {
        Frac { n: a.n * b.d, d: a.d * b.n }
    } else {
        Frac { n: -(a.n * b.d), d: -(a.d * b.n) }
    }
}

/// A well-formed fraction denotes zero exactly when its numerator is zero.
pub open spec fn frac_is_zero(a: Frac) -> bool {
    a.n == 0
}

pub open spec fn abs_int(n: int) -> nat {
    if n >= 0 {
        n as nat
    } else {
        (-n) as nat
    }
}

/// Euclid's greatest common divisor.
pub open spec fn gcd_nat(a: nat, b: nat) -> nat
    decreases b,
{
    if b == 0 {
        a
    } else {
        gcd_nat(b, a % b)
    }
}

pub open spec fn divides(f: int, x: int) -> bool {
    exists|k: int| x == #[trigger] (f * k)
}

pub proof fn lemma_gcd_divides(a: nat, b: nat)
    ensures
        divides(gcd_nat(a, b) as int, a as int),
        divides(gcd_nat(a, b) as int, b as int),
    decreases b,
{
    if b == 0 {
        assert(a as int == (gcd_nat(a, b) as int) * 1);
        assert(b as int == (gcd_nat(a, b) as int) * 0);
    } else {
        lemma_gcd_divides(b, a % b);
        let g = gcd_nat(b, a % b) as int;
        let k1 = choose|k: int| b as int == #[trigger] (g * k);
        let k2 = choose|k: int| (a % b) as int == #[trigger] (g * k);
        lemma_fundamental_div_mod(a as int, b as int);
        assert(a as int == (b as int) * ((a as int) / (b as int)) + (a as int) % (b as int));
        let q = (a as int) / (b as int);
        assert(a as int == g * (k1 * q + k2)) by (nonlinear_arith)
            requires
                a as int == (b as int) * q + (a as int) % (b as int),
                b as int == g * k1,
                (a % b) as int == g * k2,
                (a as int) % (b as int) == (a % b) as int,
        {
        }
        assert(divides(g, a as int));
    }
}

pub proof fn lemma_gcd_pos(a: nat, b: nat)
    ensures
        a > 0 || b > 0 ==> gcd_nat(a, b) > 0,
    decreases b,
{
    if b != 0 {
        lemma_gcd_pos(b, a % b);
    }
}

/// Gcd used to put a fraction in canonical form.
pub open spec fn canon_gcd(n: int, d: int) -> nat {
    gcd_nat(abs_int(n), d as nat)
}

/// Canonical (gcd-reduced) representative of the fraction `n / d`.
pub open spec fn canon(n: int, d: int) -> Frac {
    let g = canon_gcd(n, d) as int;
    Frac { n: n / g, d: d / g }
}

pub open spec fn canon_frac(q: Frac) -> Frac {
    canon(q.n, q.d)
}

/// Whether a fraction's components fit the executable `i64` representation.
pub open spec fn fits_i64(q: Frac) -> bool {
    &&& -(i64::MAX as int) <= q.n <= i64::MAX as int
    &&& 1 <= q.d <= i64::MAX as int
}

/// Whether the canonical form of `q` fits the executable representation.
pub open spec fn canon_fits(q: Frac) -> bool {
    fits_i64(canon_frac(q))
}

/// The canonical form divides out a positive common factor, stays well
/// formed, and denotes the same rational number.
pub proof fn lemma_canon_props(n: int, d: int)
    requires
        d > 0,
    ensures
        canon_gcd(n, d) > 0,
        n == (canon_gcd(n, d) as int) * canon(n, d).n,
        d == (canon_gcd(n, d) as int) * canon(n, d).d,
        canon(n, d).d > 0,
        frac_eq(canon(n, d), Frac { n: n, d: d }),
        n >= 0 ==> canon(n, d).n >= 0,
        n < 0 ==> canon(n, d).n < 0,
{
    let g = canon_gcd(n, d) as int;
    lemma_gcd_pos(abs_int(n), d as nat);
    lemma_gcd_divides(abs_int(n), d as nat);
    let ka = choose|k: int| abs_int(n) as int == #[trigger] (g * k);
    let kd = choose|k: int| d == #[trigger] (g * k);
    // n is g times an integer, whatever its sign.
    if n >= 0 {
        assert(n == g * ka);
    } else {
        assert(-n == g * ka);
        assert(n == g * (-ka)) by (nonlinear_arith)
            requires
                -n == g * ka,
        {
        }
    }
    let kn = if n >= 0 { ka } else { -ka };
    assert(n == g * kn);
    lemma_div_multiples_vanish(kn, g);
    assert((g * kn) / g == kn);
    assert(canon(n, d).n == kn);
    lemma_div_multiples_vanish(kd, g);
    assert(canon(n, d).d == kd);
    assert(kd > 0) by (nonlinear_arith)
        requires
            d == g * kd,
            d > 0,
            g > 0,
    {
    }
    assert(kn * d == n * kd) by (nonlinear_arith)
        requires
            n == g * kn,
            d == g * kd,
    {
    }
    if n >= 0 {
        assert(kn >= 0) by (nonlinear_arith)
            requires
                n == g * kn,
                n >= 0,
                g > 0,
        {
        }
    } else {
        assert(kn < 0) by (nonlinear_arith)
            requires
                n == g * kn,
                n < 0,
                g > 0,
        {
        }
    }
}

/// Denoting the same rational number is transitive over well-formed fractions.
pub proof fn lemma_frac_eq_trans(a: Frac, b: Frac, c: Frac)
    requires
        frac_wf(a),
        frac_wf(b),
        frac_wf(c),
        frac_eq(a, b),
        frac_eq(b, c),
    ensures
        frac_eq(a, c),
{
    assert(a.n * c.d == c.n * a.d) by (nonlinear_arith)
        requires
            a.n * b.d == b.n * a.d,
            b.n * c.d == c.n * b.d,
            a.d > 0,
            b.d > 0,
            c.d > 0,
    {
    }
}

/// Rearrangements of a product of four factors.
pub proof fn lemma_mul_reorder(x: int, y: int, z: int, w: int)
    ensures
        x * y == y * x,
        (x * y) * (z * w) == (x * z) * (y * w),
        (x * y) * (z * w) == (x * w) * (y * z),
        (x * y) * (z * w) == (x * w) * (z * y),
{
    assert(x * y == y * x && (x * y) * (z * w) == (x * z) * (y * w) && (x * y) * (z * w) == (x * w)
        * (y * z) && (x * y) * (z * w) == (x * w) * (z * y)) by (nonlinear_arith)
    {
    }
}

/// The two cross terms of a sum of fractions, rewritten against equal pairs.
proof fn lemma_cross_term(an: int, ad: int, a2n: int, a2d: int, bd: int, b2d: int)
    requires
        an * a2d == a2n * ad,
    ensures
        (an * bd) * (a2d * b2d) == (a2n * b2d) * (ad * bd),
{
    lemma_mul_reorder(an, bd, a2d, b2d);
    assert((an * bd) * (a2d * b2d) == (an * a2d) * (bd * b2d));
    assert((an * a2d) * (bd * b2d) == (a2n * ad) * (bd * b2d));
    lemma_mul_reorder(a2n, ad, bd, b2d);
    assert((a2n * ad) * (bd * b2d) == (a2n * b2d) * (ad * bd));
}

/// Sums of equal rationals are equal.
pub proof fn lemma_frac_add_cong(a: Frac, a2: Frac, b: Frac, b2: Frac)
    requires
        frac_wf(a),
        frac_wf(a2),
        frac_wf(b),
        frac_wf(b2),
        frac_eq(a, a2),
        frac_eq(b, b2),
    ensures
        frac_eq(frac_add(a, b), frac_add(a2, b2)),
{
    let t1 = a.n * b.d;
    let t2 = b.n * a.d;
    let s1 = a2.n * b2.d;
    let s2 = b2.n * a2.d;
    let r = a2.d * b2.d;
    let r2 = a.d * b.d;
    assert((t1 + t2) * r == t1 * r + t2 * r) by (nonlinear_arith)
    {
    }
    assert((s1 + s2) * r2 == s1 * r2 + s2 * r2) by (nonlinear_arith)
    {
    }
    lemma_cross_term(a.n, a.d, a2.n, a2.d, b.d, b2.d);
    assert(t1 * r == s1 * r2);
    lemma_cross_term(b.n, b.d, b2.n, b2.d, a.d, a2.d);
    assert((b.n * a.d) * (b2.d * a2.d) == (b2.n * a2.d) * (b.d * a.d));
    lemma_mul_reorder(b2.d, a2.d, a2.d, b2.d);
    lemma_mul_reorder(b.d, a.d, a.d, b.d);
    assert(b2.d * a2.d == r);
    assert(b.d * a.d == r2);
    assert(t2 * r == s2 * r2);
}

/// Differences of equal rationals are equal.
pub proof fn lemma_frac_sub_cong(a: Frac, a2: Frac, b: Frac, b2: Frac)
    requires
        frac_wf(a),
        frac_wf(a2),
        frac_wf(b),
        frac_wf(b2),
        frac_eq(a, a2),
        frac_eq(b, b2),
    ensures
        frac_eq(frac_sub(a, b), frac_sub(a2, b2)),
{
    let t1 = a.n * b.d;
    let t2 = b.n * a.d;
    let s1 = a2.n * b2.d;
    let s2 = b2.n * a2.d;
    let r = a2.d * b2.d;
    let r2 = a.d * b.d;
    assert((t1 - t2) * r == t1 * r - t2 * r) by (nonlinear_arith)
    {
    }
    assert((s1 - s2) * r2 == s1 * r2 - s2 * r2) by (nonlinear_arith)
    {
    }
    lemma_cross_term(a.n, a.d, a2.n, a2.d, b.d, b2.d);
    assert(t1 * r == s1 * r2);
    lemma_cross_term(b.n, b.d, b2.n, b2.d, a.d, a2.d);
    assert((b.n * a.d) * (b2.d * a2.d) == (b2.n * a2.d) * (b.d * a.d));
    lemma_mul_reorder(b2.d, a2.d, a2.d, b2.d);
    lemma_mul_reorder(b.d, a.d, a.d, b.d);
    assert(b2.d * a2.d == r);
    assert(b.d * a.d == r2);
    assert(t2 * r == s2 * r2);
}

/// Products of equal rationals are equal.
pub proof fn lemma_frac_mul_cong(a: Frac, a2: Frac, b: Frac, b2: Frac)
    requires
        frac_wf(a),
        frac_wf(a2),
        frac_wf(b),
        frac_wf(b2),
        frac_eq(a, a2),
        frac_eq(b, b2),
    ensures
        frac_eq(frac_mul(a, b), frac_mul(a2, b2)),
{
    assert((a.n * b.n) * (a2.d * b2.d) == (a2.n * b2.n) * (a.d * b.d)) by (nonlinear_arith)
        requires
            a.n * a2.d == a2.n * a.d,
            b.n * b2.d == b2.n * b.d,
    {
    }
}

/// Quotients of equal rationals are equal (nonzero divisors).
pub proof fn lemma_frac_div_cong(a: Frac, a2: Frac, b: Frac, b2: Frac)
    requires
        frac_wf(a),
        frac_wf(a2),
        frac_wf(b),
        frac_wf(b2),
        frac_eq(a, a2),
        frac_eq(b, b2),
        b.n != 0,
    ensures
        b2.n != 0,
        frac_wf(frac_div(a, b)),
        frac_wf(frac_div(a2, b2)),
        frac_eq(frac_div(a, b), frac_div(a2, b2)),
{
    assert(b2.n != 0 && (b.n > 0 <==> b2.n > 0)) by (nonlinear_arith)
        requires
            b.n * b2.d == b2.n * b.d,
            b.d > 0,
            b2.d > 0,
            b.n != 0,
    {
    }
    // Core identity, independent of the sign of the divisor numerators.
    lemma_cross_term(a.n, a.d, a2.n, a2.d, b.d, b2.n);
    assert((a.n * b.d) * (a2.d * b2.n) == (a2.n * b2.n) * (a.d * b.d));
    lemma_cross_term(a2.n, a2.d, a.n, a.d, b2.d, b.n);
    assert((a2.n * b2.d) * (a.d * b.n) == (a.n * b.n) * (a2.d * b2.d));
    assert((a2.n * b2.n) * (a.d * b.d) == (a.n * b.n) * (a2.d * b2.d)) by {
        lemma_mul_reorder(a2.n, b2.n, a.d, b.d);
        assert((a2.n * b2.n) * (a.d * b.d) == (a2.n * a.d) * (b2.n * b.d));
        assert(a2.n * a.d == a.n * a2.d);
        assert(b2.n * b.d == b.n * b2.d);
        lemma_mul_reorder(a.n, a2.d, b.n, b2.d);
        assert((a.n * a2.d) * (b.n * b2.d) == (a.n * b.n) * (a2.d * b2.d));
    }
    let core = (a.n * b.d) * (a2.d * b2.n) == (a2.n * b2.d) * (a.d * b.n);
    assert(core);
    if b.n >= 0 {
        assert(a.d * b.n > 0 && a2.d * b2.n > 0) by (nonlinear_arith)
            requires
                a.d > 0,
                a2.d > 0,
                b.n > 0,
                b2.n > 0,
        {
        }
    } else {
        assert(-(a.d * b.n) > 0 && -(a2.d * b2.n) > 0) by (nonlinear_arith)
            requires
                a.d > 0,
                a2.d > 0,
                b.n < 0,
                b2.n < 0,
        {
        }
        assert((-(a.n * b.d)) * (-(a2.d * b2.n)) == (a.n * b.d) * (a2.d * b2.n))
            by (nonlinear_arith)
        {
        }
        assert((-(a2.n * b2.d)) * (-(a.d * b.n)) == (a2.n * b2.d) * (a.d * b.n))
            by (nonlinear_arith)
        {
        }
    }
}

/// Sums, differences and products of well-formed fractions are well formed.
pub proof fn lemma_frac_ops_wf(a: Frac, b: Frac)
    requires
        frac_wf(a),
        frac_wf(b),
    ensures
        frac_wf(frac_add(a, b)),
        frac_wf(frac_sub(a, b)),
        frac_wf(frac_mul(a, b)),
{
    assert(a.d * b.d > 0) by (nonlinear_arith)
        requires
            a.d > 0,
            b.d > 0,
    {
    }
}

/// An integer over denominator one is already canonical.
pub proof fn lemma_canon_int(n: int)
    ensures
        canon(n, 1) == (Frac { n: n, d: 1 }),
        canon_fits(Frac { n: n, d: 1 }) <==> -(i64::MAX as int) <= n <= i64::MAX as int,
{
    assert(gcd_nat(abs_int(n), 1) == 1) by {
        reveal_with_fuel(gcd_nat, 3);
        assert(abs_int(n) % 1 == 0);
    }
    assert(canon(n, 1).n == n / 1);
    assert(canon(n, 1).d == 1int / 1);
}

/// A fraction whose components already fit the scalar range has a fitting
/// canonical form.
pub proof fn lemma_canon_small(n: int, d: int)
    requires
        d > 0,
        -(i64::MAX as int) <= n <= i64::MAX as int,
        d <= i64::MAX as int,
    ensures
        canon_fits(Frac { n: n, d: d }),
{
    lemma_canon_props(n, d);
    let g = canon_gcd(n, d) as int;
    let c = canon(n, d);
    assert(-(i64::MAX as int) <= c.n <= i64::MAX as int && 1 <= c.d <= i64::MAX as int)
        by (nonlinear_arith)
        requires
            n == g * c.n,
            d == g * c.d,
            g >= 1,
            c.d >= 1,
            d > 0,
            -(i64::MAX as int) <= n <= i64::MAX as int,
            d <= i64::MAX as int,
    {
    }
}

/// A quotient by a nonzero rational is well formed.
pub proof fn lemma_frac_div_wf(a: Frac, b: Frac)
    requires
        frac_wf(a),
        frac_wf(b),
        b.n != 0,
    ensures
        frac_wf(frac_div(a, b)),
{
    if b.n >= 0 {
        assert(a.d * b.n > 0) by (nonlinear_arith)
            requires
                a.d > 0,
                b.n > 0,
        {
        }
    } else {
        assert(-(a.d * b.n) > 0) by (nonlinear_arith)
            requires
                a.d > 0,
                b.n < 0,
        {
        }
    }
}

/// Equal rationals are zero together.
pub proof fn lemma_frac_eq_zero(a: Frac, b: Frac)
    requires
        frac_wf(a),
        frac_wf(b),
        frac_eq(a, b),
    ensures
        a.n == 0 <==> b.n == 0,
{
    assert(a.n == 0 <==> b.n == 0) by (nonlinear_arith)
        requires
            a.n * b.d == b.n * a.d,
            a.d > 0,
            b.d > 0,
    {
    }
}

/// Magnitude bound for a product of an `i64` value and a positive `i64`
/// denominator.
proof fn lemma_prod_num_den(x: int, y: int)
    requires
        -0x8000000000000000 <= x <= 0x7fffffffffffffff,
        0 <= y <= 0x7fffffffffffffff,
    ensures
        -0x3fffffffffffffff8000000000000000 <= x * y <= 0x3fffffffffffffff8000000000000000,
{
    assert(-0x3fffffffffffffff8000000000000000 <= x * y <= 0x3fffffffffffffff8000000000000000)
        by (nonlinear_arith)
        requires
            -0x8000000000000000 <= x <= 0x7fffffffffffffff,
            0 <= y <= 0x7fffffffffffffff,
    {
    }
}

/// Magnitude bound for a product of two arbitrary `i64` values.
proof fn lemma_prod_full(x: int, y: int)
    requires
        -0x8000000000000000 <= x <= 0x7fffffffffffffff,
        -0x8000000000000000 <= y <= 0x7fffffffffffffff,
    ensures
        -0x40000000000000000000000000000000 <= x * y <= 0x40000000000000000000000000000000,
{
    assert(-0x40000000000000000000000000000000 <= x * y <= 0x40000000000000000000000000000000)
        by (nonlinear_arith)
        requires
            -0x8000000000000000 <= x <= 0x7fffffffffffffff,
            -0x8000000000000000 <= y <= 0x7fffffffffffffff,
    {
    }
}

/// Euclid's algorithm on machine words.
fn gcd_u128(a: u128, b: u128) -> (g: u128)
    ensures
        g as nat == gcd_nat(a as nat, b as nat),
{
    let mut x = a;
    let mut y = b;
    while y != 0
        invariant
            gcd_nat(x as nat, y as nat) == gcd_nat(a as nat, b as nat),
        decreases y,
    {
        let t = x % y;
        x = y;
        y = t;
    }
    x
}

/// Executable rational scalar: an `i64` fraction with positive denominator.
#[derive(Clone, Copy, Debug)]
pub struct Rat {
    pub num: i64,
    pub den: i64,
}

impl Rat {
    /// The denominator is positive.
    pub open spec fn wf(self) -> bool {
        self.den > 0
    }

    /// Mathematical value of this scalar.
    pub open spec fn frac(self) -> Frac {
        Frac { n: self.num as int, d: self.den as int }
    }

    pub fn zero() -> (r: Rat)
        ensures
            r.wf(),
            r.frac() == frac_zero(),
    {
        Rat { num: 0, den: 1 }
    }

    pub fn one() -> (r: Rat)
        ensures
            r.wf(),
            r.frac() == frac_one(),
    {
        Rat { num: 1, den: 1 }
    }

    pub fn from_int(v: i64) -> (r: Rat)
        ensures
            r.wf(),
            r.frac() == frac_of_int(v as int),
    {
        Rat { num: v, den: 1 }
    }

    /// Reduce the wide fraction `n / d` to its canonical `i64` form;
    /// `None` exactly when that form does not fit.
    pub(crate) fn normalize(n: i128, d: i128) -> (r: Option<Rat>)
        requires
            d > 0,
            n > i128::MIN,
        ensures
            r matches Some(c) ==> c.wf() && c.frac() == canon(n as int, d as int) && frac_eq(
                c.frac(),
                Frac { n: n as int, d: d as int },
            ),
            r is Some <==> canon_fits(Frac { n: n as int, d: d as int }),
    {
        let neg = n < 0;
        let na: u128 = if n < 0 {
            (-n) as u128
        } else {
            n as u128
        };
        let dd: u128 = d as u128;
        let g = gcd_u128(na, dd);
        proof {
            lemma_canon_props(n as int, d as int);
            assert(na as nat == abs_int(n as int));
            assert(g as nat == canon_gcd(n as int, d as int));
        }
        let rn = na / g;
        let rd = dd / g;
        proof {
            let gi = g as int;
            let cn = canon(n as int, d as int).n;
            let cd = canon(n as int, d as int).d;
            lemma_div_multiples_vanish(cd, gi);
            assert(dd as int == gi * cd);
            assert(rd as int == cd);
            if n >= 0 {
                lemma_div_multiples_vanish(cn, gi);
                assert(na as int == gi * cn);
                assert(rn as int == cn);
            } else {
                lemma_div_multiples_vanish(-cn, gi);
                assert(n as int == gi * cn);
                assert(na as int == -(gi * cn));
                assert(-(gi * cn) == gi * (-cn)) by (nonlinear_arith)
                {
                }
                assert(rn as int == -cn);
            }
        }
        if rn <= 0x7fffffffffffffff && rd <= 0x7fffffffffffffff {
            let num: i64 = if neg {
                -(rn as i64)
            } else {
                rn as i64
            };
            let den: i64 = rd as i64;
            Some(Rat { num, den })
        } else {
            None
        }
    }

    /// Build a scalar from an `i64` fraction; `None` exactly when the
    /// denominator is zero or the canonical form does not fit.
    pub fn from_fraction(n: i64, d: i64) -> (r: Option<Rat>)
        ensures
            d == 0 ==> r is None,
            d != 0 ==> {
                let q = if d > 0 {
                    Frac { n: n as int, d: d as int }
                } else {
                    Frac { n: -(n as int), d: -(d as int) }
                };
                &&& (r is Some <==> canon_fits(q))
                &&& (r matches Some(c) ==> c.wf() && c.frac() == canon_frac(q) && frac_eq(
                    c.frac(),
                    Frac { n: n as int, d: d as int },
                ))
            },
    {
        if d == 0 {
            return None;
        }
        let mut nn: i128 = n as i128;
        let mut dd: i128 = d as i128;
        if dd < 0 {
            nn = -nn;
            dd = -dd;
        }
        let r = Self::normalize(nn, dd);
        proof {
            if d < 0 {
                if r is Some {
                    let c = r->Some_0;
                    assert(frac_eq(c.frac(), Frac { n: nn as int, d: dd as int }));
                    assert(frac_eq(c.frac(), Frac { n: n as int, d: d as int }))
                        by (nonlinear_arith)
                        requires
                            c.frac().n * (dd as int) == (nn as int) * c.frac().d,
                            nn as int == -(n as int),
                            dd as int == -(d as int),
                    {
                    }
                }
            }
        }
        r
    }

    /// Whether this scalar denotes zero.
    pub fn is_zero(&self) -> (b: bool)
        ensures
            b == frac_is_zero(self.frac()),
    {
        self.num == 0
    }

    /// Whether two scalars denote the same rational number.
    pub fn eq_value(&self, rhs: &Rat) -> (b: bool)
        requires
            self.wf(),
            rhs.wf(),
        ensures
            b == frac_eq(self.frac(), rhs.frac()),
    {
        proof {
            lemma_prod_num_den(self.num as int, rhs.den as int);
            lemma_prod_num_den(rhs.num as int, self.den as int);
        }
        (self.num as i128) * (rhs.den as i128) == (rhs.num as i128) * (self.den as i128)
    }

    /// Exact sum; `None` exactly when the canonical result does not fit.
    pub fn add(&self, rhs: &Rat) -> (r: Option<Rat>)
        requires
            self.wf(),
            rhs.wf(),
        ensures
            r matches Some(c) ==> c.wf() && c.frac() == canon_frac(
                frac_add(self.frac(), rhs.frac()),
            ) && frac_eq(c.frac(), frac_add(self.frac(), rhs.frac())),
            r is Some <==> canon_fits(frac_add(self.frac(), rhs.frac())),
    {
        proof {
            lemma_prod_num_den(self.num as int, rhs.den as int);
            lemma_prod_num_den(rhs.num as int, self.den as int);
            lemma_prod_num_den(self.den as int, rhs.den as int);
            assert((self.den as int) * (rhs.den as int) >= 1) by (nonlinear_arith)
                requires
                    self.den as int >= 1,
                    rhs.den as int >= 1,
            {
            }
        }
        let nn: i128 = (self.num as i128) * (rhs.den as i128) + (rhs.num as i128)
            * (self.den as i128);
        let dd: i128 = (self.den as i128) * (rhs.den as i128);
        Self::normalize(nn, dd)
    }

    /// Exact difference; `None` exactly when the canonical result does not
    /// fit.
    pub fn sub(&self, rhs: &Rat) -> (r: Option<Rat>)
        requires
            self.wf(),
            rhs.wf(),
        ensures
            r matches Some(c) ==> c.wf() && c.frac() == canon_frac(
                frac_sub(self.frac(), rhs.frac()),
            ) && frac_eq(c.frac(), frac_sub(self.frac(), rhs.frac())),
            r is Some <==> canon_fits(frac_sub(self.frac(), rhs.frac())),
    {
        proof {
            lemma_prod_num_den(self.num as int, rhs.den as int);
            lemma_prod_num_den(rhs.num as int, self.den as int);
            lemma_prod_num_den(self.den as int, rhs.den as int);
            assert((self.den as int) * (rhs.den as int) >= 1) by (nonlinear_arith)
                requires
                    self.den as int >= 1,
                    rhs.den as int >= 1,
            {
            }
        }
        let nn: i128 = (self.num as i128) * (rhs.den as i128) - (rhs.num as i128)
            * (self.den as i128);
        let dd: i128 = (self.den as i128) * (rhs.den as i128);
        Self::normalize(nn, dd)
    }

    /// Exact product; `None` exactly when the canonical result does not fit.
    pub fn mul(&self, rhs: &Rat) -> (r: Option<Rat>)
        requires
            self.wf(),
            rhs.wf(),
        ensures
            r matches Some(c) ==> c.wf() && c.frac() == canon_frac(
                frac_mul(self.frac(), rhs.frac()),
            ) && frac_eq(c.frac(), frac_mul(self.frac(), rhs.frac())),
            r is Some <==> canon_fits(frac_mul(self.frac(), rhs.frac())),
    {
        proof {
            lemma_prod_full(self.num as int, rhs.num as int);
            lemma_prod_num_den(self.den as int, rhs.den as int);
            assert((self.den as int) * (rhs.den as int) >= 1) by (nonlinear_arith)
                requires
                    self.den as int >= 1,
                    rhs.den as int >= 1,
            {
            }
        }
        let nn: i128 = (self.num as i128) * (rhs.num as i128);
        let dd: i128 = (self.den as i128) * (rhs.den as i128);
        Self::normalize(nn, dd)
    }

    /// Exact quotient by a nonzero scalar; `None` exactly when the canonical
    /// result does not fit.
    pub fn div(&self, rhs: &Rat) -> (r: Option<Rat>)
        requires
            self.wf(),
            rhs.wf(),
            rhs.num != 0,
        ensures
            r matches Some(c) ==> c.wf() && c.frac() == canon_frac(
                frac_div(self.frac(), rhs.frac()),
            ) && frac_eq(c.frac(), frac_div(self.frac(), rhs.frac())),
            r is Some <==> canon_fits(frac_div(self.frac(), rhs.frac())),
    {
        proof {
            lemma_prod_num_den(self.num as int, rhs.den as int);
            lemma_prod_num_den(rhs.num as int, self.den as int);
            lemma_prod_full(self.den as int, rhs.num as int);
            assert((self.den as int) * (rhs.num as int) != 0 && (((rhs.num as int) > 0) ==> (
            self.den as int) * (rhs.num as int) > 0) && (((rhs.num as int) < 0) ==> (
            self.den as int) * (rhs.num as int) < 0)) by (nonlinear_arith)
                requires
                    self.den as int >= 1,
                    rhs.num as int != 0,
            {
            }
        }
        let mut nn: i128 = (self.num as i128) * (rhs.den as i128);
        let mut dd: i128 = (self.den as i128) * (rhs.num as i128);
        if dd < 0 {
            nn = -nn;
            dd = -dd;
        }
        Self::normalize(nn, dd)
    }
}


/// A linear combination, named so quantifiers over Bezout coefficients
/// have a stable shape.
pub open spec fn lin_comb(u: int, v: int, a: int, b: int) -> int {
    u * a + v * b
}

/// Any common divisor of two numbers divides their gcd.
pub proof fn lemma_gcd_greatest(a: nat, b: nat, c: int)
    requires
        divides(c, a as int),
        divides(c, b as int),
    ensures
        divides(c, gcd_nat(a, b) as int),
    decreases b,
{
    if b == 0 {
    } else {
        let ka = choose|k: int| a as int == #[trigger] (c * k);
        let kb = choose|k: int| b as int == #[trigger] (c * k);
        lemma_fundamental_div_mod(a as int, b as int);
        let q = (a as int) / (b as int);
        assert((a % b) as int == c * (ka - kb * q)) by (nonlinear_arith)
            requires
                a as int == (b as int) * q + (a % b) as int,
                a as int == c * ka,
                b as int == c * kb,
        {
        }
        assert(divides(c, (a % b) as int));
        lemma_gcd_greatest(b, a % b, c);
    }
}

/// Bezout: the gcd is an integer combination of its arguments.
pub proof fn lemma_bezout(a: nat, b: nat)
    ensures
        exists|u: int, v: int| gcd_nat(a, b) as int == #[trigger] lin_comb(u, v, a as int, b as int),
    decreases b,
{
    if b == 0 {
        assert(gcd_nat(a, b) as int == lin_comb(1, 0, a as int, b as int)) by (nonlinear_arith)
            requires
                gcd_nat(a, b) == a,
                b == 0,
        {
        }
    } else {
        lemma_bezout(b, a % b);
        let (u, v) = choose|u: int, v: int|
            gcd_nat(b, a % b) as int == #[trigger] lin_comb(u, v, b as int, (a % b) as int);
        lemma_fundamental_div_mod(a as int, b as int);
        let q = (a as int) / (b as int);
        assert(gcd_nat(a, b) as int == lin_comb(v, u - v * q, a as int, b as int))
            by (nonlinear_arith)
            requires
                gcd_nat(a, b) == gcd_nat(b, a % b),
                gcd_nat(b, a % b) as int == lin_comb(u, v, b as int, (a % b) as int),
                lin_comb(u, v, b as int, (a % b) as int) == u * (b as int) + v * ((a % b) as int),
                a as int == (b as int) * q + (a % b) as int,
                lin_comb(v, u - v * q, a as int, b as int) == v * (a as int) + (u - v * q) * (
                b as int),
        {
        }
    }
}

/// Two reduced fractions denoting the same rational are identical.
pub proof fn lemma_reduced_unique(x: Frac, y: Frac)
    requires
        frac_wf(x),
        frac_wf(y),
        frac_eq(x, y),
        gcd_nat(abs_int(x.n), x.d as nat) == 1,
        gcd_nat(abs_int(y.n), y.d as nat) == 1,
    ensures
        x == y,
{
    // Each denominator divides the other through a Bezout combination.
    lemma_bezout(abs_int(x.n), x.d as nat);
    let (u, v) = choose|u: int, v: int|
        1int == #[trigger] lin_comb(u, v, abs_int(x.n) as int, x.d);
    // x.d divides x.n * y.d, so it divides |x.n| * y.d too.
    let sn = if x.n >= 0 { 1int } else { -1int };
    assert(abs_int(x.n) as int * y.d == x.d * (sn * y.n)) by (nonlinear_arith)
        requires
            x.n * y.d == y.n * x.d,
            abs_int(x.n) as int == sn * x.n,
            sn == 1 || sn == -1,
    {
    }
    assert(y.d == x.d * (u * (sn * y.n) + v * y.d)) by (nonlinear_arith)
        requires
            1int == lin_comb(u, v, abs_int(x.n) as int, x.d),
            lin_comb(u, v, abs_int(x.n) as int, x.d) == u * (abs_int(x.n) as int) + v * x.d,
            abs_int(x.n) as int * y.d == x.d * (sn * y.n),
    {
    }
    lemma_bezout(abs_int(y.n), y.d as nat);
    let (u2, v2) = choose|u: int, v: int|
        1int == #[trigger] lin_comb(u, v, abs_int(y.n) as int, y.d);
    let sm = if y.n >= 0 { 1int } else { -1int };
    assert(abs_int(y.n) as int * x.d == y.d * (sm * x.n)) by (nonlinear_arith)
        requires
            x.n * y.d == y.n * x.d,
            abs_int(y.n) as int == sm * y.n,
            sm == 1 || sm == -1,
    {
    }
    assert(x.d == y.d * (u2 * (sm * x.n) + v2 * x.d)) by (nonlinear_arith)
        requires
            1int == lin_comb(u2, v2, abs_int(y.n) as int, y.d),
            lin_comb(u2, v2, abs_int(y.n) as int, y.d) == u2 * (abs_int(y.n) as int) + v2 * y.d,
            abs_int(y.n) as int * x.d == y.d * (sm * x.n),
    {
    }
    // Mutual divisibility of positives forces equal denominators.
    assert(x.d == y.d) by (nonlinear_arith)
        requires
            y.d == x.d * (u * (sn * y.n) + v * y.d),
            x.d == y.d * (u2 * (sm * x.n) + v2 * x.d),
            x.d > 0,
            y.d > 0,
    {
    }
    assert(x.n == y.n) by (nonlinear_arith)
        requires
            x.n * y.d == y.n * x.d,
            x.d == y.d,
            x.d > 0,
    {
    }
}

/// The canonical form is reduced: its components share no factor.
pub proof fn lemma_canon_reduced(n: int, d: int)
    requires
        d > 0,
    ensures
        gcd_nat(abs_int(canon(n, d).n), canon(n, d).d as nat) == 1,
{
    lemma_canon_props(n, d);
    let g = canon_gcd(n, d) as int;
    let c = canon(n, d);
    let k = gcd_nat(abs_int(c.n), c.d as nat) as int;
    lemma_gcd_pos(abs_int(c.n), c.d as nat);
    assert(k >= 1);
    lemma_gcd_divides(abs_int(c.n), c.d as nat);
    let ma = choose|m: int| abs_int(c.n) as int == #[trigger] (k * m);
    let md = choose|m: int| c.d == #[trigger] (k * m);
    // g * k divides |n| and d.
    assert(abs_int(n) as int == g * abs_int(c.n)) by (nonlinear_arith)
        requires
            n == g * c.n,
            g > 0,
            abs_int(n) as int == if n >= 0 { n } else { -n },
            abs_int(c.n) as int == if c.n >= 0 { c.n } else { -c.n },
            n >= 0 ==> c.n >= 0,
            n < 0 ==> c.n < 0,
    {
    }
    assert(abs_int(n) as int == (g * k) * ma && d == (g * k) * md) by (nonlinear_arith)
        requires
            abs_int(n) as int == g * (abs_int(c.n) as int),
            d == g * c.d,
            abs_int(c.n) as int == k * ma,
            c.d == k * md,
    {
    }
    assert(divides(g * k, abs_int(n) as int));
    assert(divides(g * k, d));
    lemma_gcd_greatest(abs_int(n), d as nat, g * k);
    let mg = choose|m: int| g == #[trigger] ((g * k) * m);
    assert(k == 1) by (nonlinear_arith)
        requires
            g == (g * k) * mg,
            g > 0,
            k >= 1,
    {
    }
}

/// Equal rationals have the same canonical form, and fit together.
pub proof fn lemma_canon_unique(p: Frac, q: Frac)
    requires
        frac_wf(p),
        frac_wf(q),
        frac_eq(p, q),
    ensures
        canon_frac(p) == canon_frac(q),
        canon_fits(p) == canon_fits(q),
{
    lemma_canon_props(p.n, p.d);
    lemma_canon_props(q.n, q.d);
    lemma_canon_reduced(p.n, p.d);
    lemma_canon_reduced(q.n, q.d);
    lemma_frac_eq_trans(canon_frac(p), p, q);
    lemma_frac_eq_trans(canon_frac(p), q, canon_frac(q));
    lemma_reduced_unique(canon_frac(p), canon_frac(q));
}

} // verus!
