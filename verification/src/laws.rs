//! Ring laws of the series algebra over the 30-slot representation.

use vstd::prelude::*;
use crate::poly::{
    TsPoly, DEFAULT_MAX_POW, conv_sum, div_loop, div_step_rem, zero_seq, lemma_conv_wf,
};
use crate::rat::{
    Frac, canon_frac, canon_fits, frac_add, frac_sub, frac_eq, frac_wf, frac_mul, frac_div,
    frac_zero, lemma_canon_props, lemma_canon_unique, lemma_frac_add_cong, lemma_frac_sub_cong,
    lemma_frac_mul_cong, lemma_frac_div_cong, lemma_frac_div_wf, lemma_frac_eq_trans,
    lemma_frac_eq_zero, lemma_frac_ops_wf, lemma_mul_reorder,
};

verus! {

/// Addition of fractions is commutative on the nose: both orders build the
/// same numerator and denominator, so the canonical sums coincide too.
pub proof fn lemma_frac_add_commutative(x: Frac, y: Frac)
    ensures
        frac_add(x, y) == frac_add(y, x),
{
    lemma_mul_reorder(x.n, y.d, 0, 0);
    lemma_mul_reorder(y.n, x.d, 0, 0);
    lemma_mul_reorder(x.d, y.d, 0, 0);
    assert(frac_add(x, y).n == frac_add(y, x).n);
    assert(frac_add(x, y).d == frac_add(y, x).d);
}

/// Addition of fractions is associative up to rational equality; both
/// groupings expand to the same numerator and denominator.
pub proof fn lemma_frac_add_associative(x: Frac, y: Frac, z: Frac)
    ensures
        frac_add(frac_add(x, y), z) == frac_add(x, frac_add(y, z)),
{
    assert((x.n * y.d + y.n * x.d) * z.d == (x.n * y.d) * z.d + (y.n * x.d) * z.d)
        by (nonlinear_arith)
    {
    }
    assert((x.n * y.d) * z.d == x.n * (y.d * z.d)) by (nonlinear_arith)
    {
    }
    assert((y.n * x.d) * z.d == (y.n * z.d) * x.d) by (nonlinear_arith)
    {
    }
    assert(z.n * (x.d * y.d) == (z.n * y.d) * x.d) by (nonlinear_arith)
    {
    }
    assert((y.n * z.d + z.n * y.d) * x.d == (y.n * z.d) * x.d + (z.n * y.d) * x.d)
        by (nonlinear_arith)
    {
    }
    assert((x.d * y.d) * z.d == x.d * (y.d * z.d)) by (nonlinear_arith)
    {
    }
}

/// Series addition is commutative: at every slot the two orders produce
/// the same canonical coefficient, fit together, and the degree tags
/// agree, so `TsPoly::add` returns identical results either way.
pub proof fn lemma_poly_add_commutative(a: TsPoly, b: TsPoly)
    requires
        a.wf(),
        b.wf(),
    ensures
        forall|k: int|
            0 <= k < DEFAULT_MAX_POW ==> canon_frac(#[trigger] frac_add(a.fseq()[k], b.fseq()[k]))
                == canon_frac(frac_add(b.fseq()[k], a.fseq()[k])),
        forall|k: int|
            0 <= k < DEFAULT_MAX_POW ==> canon_fits(#[trigger] frac_add(a.fseq()[k], b.fseq()[k]))
                == canon_fits(frac_add(b.fseq()[k], a.fseq()[k])),
{
    assert forall|k: int| 0 <= k < DEFAULT_MAX_POW implies canon_frac(
        #[trigger] frac_add(a.fseq()[k], b.fseq()[k]),
    ) == canon_frac(frac_add(b.fseq()[k], a.fseq()[k])) && canon_fits(
        frac_add(a.fseq()[k], b.fseq()[k]),
    ) == canon_fits(frac_add(b.fseq()[k], a.fseq()[k])) by {
        lemma_frac_add_commutative(a.fseq()[k], b.fseq()[k]);
    }
}

/// Series addition is associative: at every slot the two groupings denote
/// the same rational, so by canonical-form uniqueness their canonical
/// coefficients are identical and they fit together — the two `add`
/// orders return identical results (the degree tags agree since the
/// maximum of three degrees is grouping-free).
pub proof fn lemma_poly_add_associative(a: TsPoly, b: TsPoly, c: TsPoly)
    requires
        a.wf(),
        b.wf(),
        c.wf(),
    ensures
        forall|k: int|
            0 <= k < DEFAULT_MAX_POW ==> frac_eq(
                #[trigger] frac_add(canon_frac(frac_add(a.fseq()[k], b.fseq()[k])), c.fseq()[k]),
                frac_add(a.fseq()[k], canon_frac(frac_add(b.fseq()[k], c.fseq()[k]))),
            ),
        forall|k: int|
            0 <= k < DEFAULT_MAX_POW ==> canon_frac(
                #[trigger] frac_add(canon_frac(frac_add(a.fseq()[k], b.fseq()[k])), c.fseq()[k]),
            ) == canon_frac(
                frac_add(a.fseq()[k], canon_frac(frac_add(b.fseq()[k], c.fseq()[k]))),
            ),
        forall|k: int|
            0 <= k < DEFAULT_MAX_POW ==> canon_fits(
                #[trigger] frac_add(canon_frac(frac_add(a.fseq()[k], b.fseq()[k])), c.fseq()[k]),
            ) == canon_fits(
                frac_add(a.fseq()[k], canon_frac(frac_add(b.fseq()[k], c.fseq()[k]))),
            ),
{
    assert forall|k: int| 0 <= k < DEFAULT_MAX_POW implies frac_eq(
        #[trigger] frac_add(canon_frac(frac_add(a.fseq()[k], b.fseq()[k])), c.fseq()[k]),
        frac_add(a.fseq()[k], canon_frac(frac_add(b.fseq()[k], c.fseq()[k]))),
    ) && canon_frac(frac_add(canon_frac(frac_add(a.fseq()[k], b.fseq()[k])), c.fseq()[k]))
        == canon_frac(frac_add(a.fseq()[k], canon_frac(frac_add(b.fseq()[k], c.fseq()[k]))))
        && canon_fits(frac_add(canon_frac(frac_add(a.fseq()[k], b.fseq()[k])), c.fseq()[k]))
        == canon_fits(frac_add(a.fseq()[k], canon_frac(frac_add(b.fseq()[k], c.fseq()[k])))) by {
        let xa = a.fseq()[k];
        let xb = b.fseq()[k];
        let xc = c.fseq()[k];
        assert(frac_wf(xa) && frac_wf(xb) && frac_wf(xc)) by {
            assert(a.fseq()[k] == a.coefs[k].frac());
            assert(b.fseq()[k] == b.coefs[k].frac());
            assert(c.fseq()[k] == c.coefs[k].frac());
        }
        let ab = frac_add(xa, xb);
        let bc = frac_add(xb, xc);
        lemma_frac_ops_wf(xa, xb);
        lemma_frac_ops_wf(xb, xc);
        lemma_canon_props(ab.n, ab.d);
        lemma_canon_props(bc.n, bc.d);
        lemma_frac_add_cong(canon_frac(ab), ab, xc, xc);
        lemma_frac_add_cong(xa, xa, canon_frac(bc), bc);
        lemma_frac_add_associative(xa, xb, xc);
        lemma_frac_ops_wf(canon_frac(ab), xc);
        lemma_frac_ops_wf(ab, xc);
        lemma_frac_ops_wf(xa, canon_frac(bc));
        lemma_frac_ops_wf(xa, bc);
        lemma_frac_eq_trans(
            frac_add(canon_frac(ab), xc),
            frac_add(ab, xc),
            frac_add(xa, bc),
        );
        assert(frac_eq(frac_add(xa, bc), frac_add(xa, canon_frac(bc)))) by {
            lemma_frac_add_cong(xa, xa, bc, canon_frac(bc));
        }
        lemma_frac_eq_trans(
            frac_add(canon_frac(ab), xc),
            frac_add(xa, bc),
            frac_add(xa, canon_frac(bc)),
        );
        lemma_canon_unique(
            frac_add(canon_frac(ab), xc),
            frac_add(xa, canon_frac(bc)),
        );
    }
}

/// A product with a zero factor denotes zero.
proof fn lemma_frac_mul_zero(a: Frac, b: Frac)
    requires
        a.n == 0 || b.n == 0,
    ensures
        frac_mul(a, b).n == 0,
{
    assert(a.n * b.n == 0) by (nonlinear_arith)
        requires
            a.n == 0 || b.n == 0,
    {
    }
}

/// A product of nonzero rationals denotes a nonzero rational.
proof fn lemma_frac_mul_nonzero(a: Frac, b: Frac)
    requires
        a.n != 0,
        b.n != 0,
    ensures
        frac_mul(a, b).n != 0,
{
    assert(a.n * b.n != 0) by (nonlinear_arith)
        requires
            a.n != 0,
            b.n != 0,
    {
    }
}

/// Adding a zero-valued rational changes nothing; subtracting one either.
proof fn lemma_frac_zero_unit(x: Frac, z: Frac)
    requires
        frac_wf(x),
        frac_wf(z),
        z.n == 0,
    ensures
        frac_eq(frac_add(x, z), x),
        frac_eq(frac_add(z, x), x),
        frac_eq(frac_sub(x, z), x),
        frac_wf(frac_add(x, z)),
        frac_wf(frac_add(z, x)),
{
    lemma_frac_ops_wf(x, z);
    lemma_frac_ops_wf(z, x);
    assert((x.n * z.d + z.n * x.d) * x.d == x.n * (x.d * z.d) && (z.n * x.d + x.n * z.d) * x.d
        == x.n * (z.d * x.d) && (x.n * z.d - z.n * x.d) * x.d == x.n * (x.d * z.d))
        by (nonlinear_arith)
        requires
            z.n == 0,
    {
    }
}

/// Adding then subtracting the same rational gives the value back.
proof fn lemma_frac_add_sub_cancel(x: Frac, t: Frac)
    requires
        frac_wf(x),
        frac_wf(t),
    ensures
        frac_eq(frac_sub(frac_add(x, t), t), x),
{
    assert(((x.n * t.d + t.n * x.d) * t.d - t.n * (x.d * t.d)) * x.d == x.n * ((x.d * t.d) * t.d))
        by (nonlinear_arith)
    {
    }
}

/// Dividing a product by its second factor gives the first back.
proof fn lemma_frac_div_cancel(a: Frac, b: Frac)
    requires
        frac_wf(a),
        frac_wf(b),
        b.n != 0,
    ensures
        frac_eq(frac_div(frac_mul(a, b), b), a),
        frac_wf(frac_div(frac_mul(a, b), b)),
{
    lemma_frac_ops_wf(a, b);
    lemma_frac_div_wf(frac_mul(a, b), b);
    if b.n >= 0 {
        assert(((a.n * b.n) * b.d) * a.d == a.n * ((a.d * b.d) * b.n)) by (nonlinear_arith)
        {
        }
    } else {
        assert((-((a.n * b.n) * b.d)) * a.d == a.n * (-((a.d * b.d) * b.n))) by (nonlinear_arith)
        {
        }
    }
}

/// Convolution sums over sequences that agree below `j` are equal.
proof fn lemma_conv_agree(a: Seq<Frac>, a2: Seq<Frac>, b: Seq<Frac>, k: int, j: nat)
    requires
        forall|i: int| 0 <= i < j ==> a[i] == a2[i],
    ensures
        conv_sum(a, b, k, j) == conv_sum(a2, b, k, j),
    decreases j,
{
    if j > 0 {
        lemma_conv_agree(a, a2, b, k, (j - 1) as nat);
    }
}

/// Convolution sums over pointwise-equal rational windows are equal.
proof fn lemma_conv_cong(a: Seq<Frac>, a2: Seq<Frac>, b: Seq<Frac>, k: int, j: nat)
    requires
        a.len() == DEFAULT_MAX_POW,
        a2.len() == DEFAULT_MAX_POW,
        b.len() == DEFAULT_MAX_POW,
        forall|i: int| 0 <= i < DEFAULT_MAX_POW ==> frac_wf(#[trigger] a[i]),
        forall|i: int| 0 <= i < DEFAULT_MAX_POW ==> frac_wf(#[trigger] a2[i]),
        forall|i: int| 0 <= i < DEFAULT_MAX_POW ==> frac_wf(#[trigger] b[i]),
        forall|i: int| 0 <= i < DEFAULT_MAX_POW ==> frac_eq(#[trigger] a[i], a2[i]),
        0 <= k < DEFAULT_MAX_POW,
        j <= k + 1,
    ensures
        frac_eq(conv_sum(a, b, k, j), conv_sum(a2, b, k, j)),
    decreases j,
{
    if j > 0 {
        lemma_conv_cong(a, a2, b, k, (j - 1) as nat);
        lemma_conv_wf(a, b, k, (j - 1) as nat);
        lemma_conv_wf(a2, b, k, (j - 1) as nat);
        lemma_frac_ops_wf(a[j - 1], b[k - (j - 1)]);
        lemma_frac_ops_wf(a2[j - 1], b[k - (j - 1)]);
        lemma_frac_mul_cong(a[j - 1], a2[j - 1], b[k - (j - 1)], b[k - (j - 1)]);
        lemma_frac_add_cong(
            conv_sum(a, b, k, (j - 1) as nat),
            conv_sum(a2, b, k, (j - 1) as nat),
            frac_mul(a[j - 1], b[k - (j - 1)]),
            frac_mul(a2[j - 1], b[k - (j - 1)]),
        );
    }
}

/// A convolution sum all of whose terms vanish denotes zero.
proof fn lemma_conv_zero(a: Seq<Frac>, b: Seq<Frac>, k: int, j: nat)
    requires
        forall|i: int| 0 <= i < j ==> (#[trigger] a[i]).n == 0 || b[k - i].n == 0,
    ensures
        conv_sum(a, b, k, j).n == 0,
    decreases j,
{
    if j > 0 {
        lemma_conv_zero(a, b, k, (j - 1) as nat);
        lemma_frac_mul_zero(a[j - 1], b[k - (j - 1)]);
        let acc = conv_sum(a, b, k, (j - 1) as nat);
        let t = frac_mul(a[j - 1], b[k - (j - 1)]);
        assert(acc.n * t.d + t.n * acc.d == 0) by (nonlinear_arith)
            requires
                acc.n == 0,
                t.n == 0,
        {
        }
    }
}

/// When exactly one convolution term can be nonzero, the sum denotes that
/// term.
proof fn lemma_conv_single(a: Seq<Frac>, b: Seq<Frac>, k: int, j: nat, i0: int)
    requires
        a.len() == DEFAULT_MAX_POW,
        b.len() == DEFAULT_MAX_POW,
        forall|i: int| 0 <= i < DEFAULT_MAX_POW ==> frac_wf(#[trigger] a[i]),
        forall|i: int| 0 <= i < DEFAULT_MAX_POW ==> frac_wf(#[trigger] b[i]),
        0 <= k < DEFAULT_MAX_POW,
        0 <= i0 < j <= k + 1,
        forall|i: int| 0 <= i < j && i != i0 ==> (#[trigger] a[i]).n == 0 || b[k - i].n == 0,
    ensures
        frac_eq(conv_sum(a, b, k, j), frac_mul(a[i0], b[k - i0])),
    decreases j,
{
    lemma_frac_ops_wf(a[i0], b[k - i0]);
    if j == i0 + 1 {
        lemma_conv_zero(a, b, k, (j - 1) as nat);
        lemma_conv_wf(a, b, k, (j - 1) as nat);
        lemma_frac_zero_unit(frac_mul(a[i0], b[k - i0]), conv_sum(a, b, k, (j - 1) as nat));
    } else {
        lemma_conv_single(a, b, k, (j - 1) as nat, i0);
        lemma_frac_mul_zero(a[j - 1], b[k - (j - 1)]);
        lemma_conv_wf(a, b, k, (j - 1) as nat);
        lemma_conv_wf(a, b, k, j);
        lemma_frac_ops_wf(a[j - 1], b[k - (j - 1)]);
        lemma_frac_zero_unit(conv_sum(a, b, k, (j - 1) as nat), frac_mul(a[j - 1], b[k - (j - 1)]));
        lemma_frac_eq_trans(
            conv_sum(a, b, k, j),
            conv_sum(a, b, k, (j - 1) as nat),
            frac_mul(a[i0], b[k - i0]),
        );
    }
}

/// Splitting one index out of a convolution: against a copy whose entry at
/// `i0` is zeroed, the sum is the smaller sum plus that entry's term.
proof fn lemma_conv_split(a: Seq<Frac>, a2: Seq<Frac>, b: Seq<Frac>, k: int, j: nat, i0: int)
    requires
        a.len() == DEFAULT_MAX_POW,
        a2.len() == DEFAULT_MAX_POW,
        b.len() == DEFAULT_MAX_POW,
        forall|i: int| 0 <= i < DEFAULT_MAX_POW ==> frac_wf(#[trigger] a[i]),
        forall|i: int| 0 <= i < DEFAULT_MAX_POW ==> frac_wf(#[trigger] a2[i]),
        forall|i: int| 0 <= i < DEFAULT_MAX_POW ==> frac_wf(#[trigger] b[i]),
        0 <= k < DEFAULT_MAX_POW,
        0 <= i0 < j <= k + 1,
        forall|i: int| 0 <= i < DEFAULT_MAX_POW && i != i0 ==> a2[i] == a[i],
        a2[i0] == frac_zero(),
    ensures
        frac_eq(
            conv_sum(a, b, k, j),
            frac_add(conv_sum(a2, b, k, j), frac_mul(a[i0], b[k - i0])),
        ),
    decreases j,
{
    let t = frac_mul(a[i0], b[k - i0]);
    lemma_frac_ops_wf(a[i0], b[k - i0]);
    if j == i0 + 1 {
        lemma_conv_agree(a, a2, b, k, (j - 1) as nat);
        lemma_frac_mul_zero(a2[i0], b[k - i0]);
        lemma_conv_wf(a2, b, k, (j - 1) as nat);
        lemma_conv_wf(a2, b, k, j);
        lemma_frac_ops_wf(a2[j - 1], b[k - (j - 1)]);
        lemma_frac_zero_unit(conv_sum(a2, b, k, (j - 1) as nat), frac_mul(a2[i0], b[k - i0]));
        // conv(a, j) is literally conv(a2, j-1) + t; the right side differs
        // from it by a zero-valued term inside the first summand.
        lemma_frac_add_cong(
            conv_sum(a2, b, k, (j - 1) as nat),
            conv_sum(a2, b, k, j),
            t,
            t,
        );
    } else {
        lemma_conv_split(a, a2, b, k, (j - 1) as nat, i0);
        let w = frac_mul(a[j - 1], b[k - (j - 1)]);
        lemma_frac_ops_wf(a[j - 1], b[k - (j - 1)]);
        lemma_conv_wf(a, b, k, (j - 1) as nat);
        lemma_conv_wf(a2, b, k, (j - 1) as nat);
        lemma_conv_wf(a2, b, k, j);
        lemma_frac_ops_wf(conv_sum(a2, b, k, (j - 1) as nat), t);
        lemma_frac_add_cong(
            conv_sum(a, b, k, (j - 1) as nat),
            frac_add(conv_sum(a2, b, k, (j - 1) as nat), t),
            w,
            w,
        );
        lemma_frac_add_associative(conv_sum(a2, b, k, (j - 1) as nat), t, w);
        lemma_frac_add_commutative(t, w);
        lemma_frac_add_associative(conv_sum(a2, b, k, (j - 1) as nat), w, t);
        assert(frac_add(frac_add(conv_sum(a2, b, k, (j - 1) as nat), t), w) == frac_add(
            frac_add(conv_sum(a2, b, k, (j - 1) as nat), w),
            t,
        ));
        assert(a2[j - 1] == a[j - 1]);
        assert(conv_sum(a2, b, k, j) == frac_add(conv_sum(a2, b, k, (j - 1) as nat), w));
        lemma_frac_ops_wf(conv_sum(a, b, k, (j - 1) as nat), w);
        lemma_frac_ops_wf(frac_add(conv_sum(a2, b, k, (j - 1) as nat), w), t);
        lemma_frac_eq_trans(
            conv_sum(a, b, k, j),
            frac_add(frac_add(conv_sum(a2, b, k, (j - 1) as nat), t), w),
            frac_add(conv_sum(a2, b, k, j), t),
        );
    }
}


/// Coefficient sequence of `p` with every entry at or above `m` zeroed.
pub open spec fn cut(p: Seq<Frac>, m: int) -> Seq<Frac> {
    Seq::new(
        DEFAULT_MAX_POW as nat,
        |i: int|
            if i < m {
                p[i]
            } else {
                frac_zero()
            },
    )
}

/// The coefficient window of the product of two coefficient windows.
pub open spec fn conv_seq(p: Seq<Frac>, q: Seq<Frac>) -> Seq<Frac> {
    Seq::new(DEFAULT_MAX_POW as nat, |k: int| conv_sum(p, q, k, (k + 1) as nat))
}

/// A valid coefficient window: 30 well-formed slots, all zero above the
/// degree tag.
pub open spec fn window_wf(p: Seq<Frac>, pmax: nat) -> bool {
    &&& p.len() == DEFAULT_MAX_POW
    &&& pmax < DEFAULT_MAX_POW
    &&& forall|i: int| 0 <= i < DEFAULT_MAX_POW ==> frac_wf(#[trigger] p[i])
    &&& forall|i: int| pmax < i < DEFAULT_MAX_POW ==> (#[trigger] p[i]).n == 0
}

/// One inductive stage of the round trip: with `m` multiplicand
/// coefficients still unprocessed, the remaining division steps recover
/// exactly those coefficients.
proof fn lemma_div_recovers(
    p: Seq<Frac>,
    q: Seq<Frac>,
    qmax: nat,
    m: nat,
    rem: Seq<Frac>,
    quot: Seq<Frac>,
)
    requires
        p.len() == DEFAULT_MAX_POW,
        rem.len() == DEFAULT_MAX_POW,
        quot.len() == DEFAULT_MAX_POW,
        window_wf(q, qmax),
        forall|i: int| 0 <= i < DEFAULT_MAX_POW ==> frac_wf(#[trigger] p[i]),
        forall|i: int| 0 <= i < DEFAULT_MAX_POW ==> frac_wf(#[trigger] rem[i]),
        forall|i: int| 0 <= i < DEFAULT_MAX_POW ==> frac_wf(#[trigger] quot[i]),
        p[0].n != 0,
        q[0].n != 0,
        q[qmax as int].n != 0,
        1 <= qmax,
        m + qmax <= DEFAULT_MAX_POW,
        forall|k: int|
            0 <= k < DEFAULT_MAX_POW ==> frac_eq(
                #[trigger] rem[k],
                conv_sum(cut(p, m as int), q, k, (k + 1) as nat),
            ),
        forall|k: int| 0 <= k < m ==> (#[trigger] quot[k]).n == 0,
        forall|k: int| m <= k < DEFAULT_MAX_POW ==> frac_eq(#[trigger] quot[k], p[k]),
    ensures
        ({
            &&& div_loop(rem, (m + qmax - 1) as nat, q, qmax, quot) matches Option::Some(f)
            &&& forall|k: int| 0 <= k < DEFAULT_MAX_POW ==> frac_eq(#[trigger] f[k], p[k])
        }),
    decreases m,
{
    let rmax = (m + qmax - 1) as nat;
    if m == 0 {
        assert(rmax < qmax);
        assert(div_loop(rem, rmax, q, qmax, quot) == Option::Some(quot));
    } else {
        let s = (m - 1) as int;
        let a = cut(p, m as int);
        let a2 = cut(p, s);
        // The remainder's constant coefficient denotes p[0] * q[0], nonzero.
        lemma_conv_wf(a, q, 0, 1);
        lemma_conv_single(a, q, 0, 1, 0);
        lemma_frac_mul_nonzero(a[0], q[0]);
        lemma_frac_ops_wf(a[0], q[0]);
        lemma_frac_eq_zero(conv_sum(a, q, 0, 1), frac_mul(a[0], q[0]));
        lemma_frac_eq_zero(rem[0], conv_sum(a, q, 0, 1));
        assert(rem[0].n != 0);
        assert(rmax != 0 && rmax >= qmax);
        // The division step's term denotes p[m-1].
        let kl = s + qmax;
        assert forall|i: int| 0 <= i < kl + 1 && i != s implies (#[trigger] a[i]).n == 0 || q[kl
            - i].n == 0 by {
            if i < s {
                assert(kl - i > qmax);
                assert(q[kl - i].n == 0);
            } else {
                assert(a[i] == frac_zero());
            }
        }
        lemma_conv_single(a, q, kl, (kl + 1) as nat, s);
        lemma_conv_wf(a, q, kl, (kl + 1) as nat);
        lemma_frac_ops_wf(a[s], q[qmax as int]);
        lemma_frac_eq_trans(
            rem[kl],
            conv_sum(a, q, kl, (kl + 1) as nat),
            frac_mul(a[s], q[qmax as int]),
        );
        let t = frac_div(rem[rmax as int], q[qmax as int]);
        lemma_frac_div_cong(
            rem[kl],
            frac_mul(a[s], q[qmax as int]),
            q[qmax as int],
            q[qmax as int],
        );
        lemma_frac_div_cancel(a[s], q[qmax as int]);
        lemma_frac_div_wf(rem[kl], q[qmax as int]);
        lemma_frac_div_wf(frac_mul(a[s], q[qmax as int]), q[qmax as int]);
        lemma_frac_eq_trans(
            t,
            frac_div(frac_mul(a[s], q[qmax as int]), q[qmax as int]),
            a[s],
        );
        assert(frac_eq(t, p[s]));
        // The updated quotient carries p[m-1] at slot m-1.
        let quot2 = quot.update(s, frac_add(quot[s], t));
        lemma_frac_zero_unit(t, quot[s]);
        lemma_frac_add_commutative(quot[s], t);
        assert(frac_eq(frac_add(quot[s], t), t));
        lemma_frac_ops_wf(quot[s], t);
        lemma_frac_eq_trans(frac_add(quot[s], t), t, p[s]);
        // The updated remainder denotes the convolution of the shorter cut.
        let rem2 = div_step_rem(rem, t, q, s);
        assert forall|k: int| 0 <= k < DEFAULT_MAX_POW implies frac_wf(#[trigger] rem2[k])
            && frac_eq(rem2[k], conv_sum(a2, q, k, (k + 1) as nat)) by {
            lemma_conv_wf(a2, q, k, (k + 1) as nat);
            if k < s {
                lemma_conv_agree(a, a2, q, k, (k + 1) as nat);
                assert(rem2[k] == rem[k]);
            } else {
                let tk = frac_mul(a[s], q[k - s]);
                lemma_conv_split(a, a2, q, k, (k + 1) as nat, s);
                lemma_conv_wf(a, q, k, (k + 1) as nat);
                lemma_frac_ops_wf(a[s], q[k - s]);
                lemma_frac_mul_cong(t, p[s], q[k - s], q[k - s]);
                lemma_frac_ops_wf(t, q[k - s]);
                assert(frac_eq(frac_mul(t, q[k - s]), tk));
                lemma_frac_ops_wf(conv_sum(a2, q, k, (k + 1) as nat), tk);
                lemma_frac_eq_trans(
                    rem[k],
                    conv_sum(a, q, k, (k + 1) as nat),
                    frac_add(conv_sum(a2, q, k, (k + 1) as nat), tk),
                );
                lemma_frac_sub_cong(
                    rem[k],
                    frac_add(conv_sum(a2, q, k, (k + 1) as nat), tk),
                    frac_mul(t, q[k - s]),
                    tk,
                );
                lemma_frac_add_sub_cancel(conv_sum(a2, q, k, (k + 1) as nat), tk);
                lemma_frac_ops_wf(rem[k], frac_mul(t, q[k - s]));
                lemma_frac_ops_wf(frac_add(conv_sum(a2, q, k, (k + 1) as nat), tk), tk);
                lemma_frac_eq_trans(
                    rem2[k],
                    frac_sub(frac_add(conv_sum(a2, q, k, (k + 1) as nat), tk), tk),
                    conv_sum(a2, q, k, (k + 1) as nat),
                );
            }
        }
        assert forall|k: int| 0 <= k < DEFAULT_MAX_POW implies frac_wf(#[trigger] quot2[k]) by {
            if k == s {
                lemma_frac_ops_wf(quot[s], t);
            }
        }
        lemma_div_recovers(p, q, qmax, (m - 1) as nat, rem2, quot2);
        assert(div_loop(rem, rmax, q, qmax, quot) == div_loop(
            rem2,
            (rmax - 1) as nat,
            q,
            qmax,
            quot2,
        ));
    }
}

/// For a divisor `q` with nonzero constant and leading coefficients and a
/// multiplicand `p` with nonzero constant coefficient whose degree keeps
/// the product inside the window, dividing the product's coefficient
/// window by `q` through the long division reproduces `p`, slot for slot.
pub proof fn lemma_mul_div_round_trip(p: Seq<Frac>, pmax: nat, q: Seq<Frac>, qmax: nat)
    requires
        window_wf(p, pmax),
        window_wf(q, qmax),
        p[0].n != 0,
        q[0].n != 0,
        q[qmax as int].n != 0,
        1 <= qmax,
        pmax + qmax < DEFAULT_MAX_POW,
    ensures
        ({
            &&& div_loop(conv_seq(p, q), (pmax + qmax) as nat, q, qmax, zero_seq())
                matches Option::Some(f)
            &&& forall|k: int| 0 <= k < DEFAULT_MAX_POW ==> frac_eq(#[trigger] f[k], p[k])
        }),
{
    let m = (pmax + 1) as nat;
    let a = cut(p, m as int);
    let rem = conv_seq(p, q);
    let quot = zero_seq();
    assert forall|i: int| 0 <= i < DEFAULT_MAX_POW implies frac_wf(#[trigger] a[i]) && frac_eq(
        p[i],
        a[i],
    ) by {
        if i >= m {
            assert(i > pmax);
            assert(p[i].n == 0);
            assert(a[i] == frac_zero());
            assert(frac_wf(a[i]));
            assert(p[i].n * 1 == 0 * p[i].d) by (nonlinear_arith)
                requires
                    p[i].n == 0,
            {
            }
            assert(frac_eq(p[i], a[i]));
        } else {
            assert(a[i] == p[i]);
            assert(frac_wf(a[i]));
        }
    }
    assert forall|k: int| 0 <= k < DEFAULT_MAX_POW implies frac_wf(#[trigger] rem[k]) && frac_eq(
        rem[k],
        conv_sum(a, q, k, (k + 1) as nat),
    ) by {
        lemma_conv_wf(p, q, k, (k + 1) as nat);
        lemma_conv_cong(p, a, q, k, (k + 1) as nat);
    }
    assert forall|k: int| m <= k < DEFAULT_MAX_POW implies frac_eq(#[trigger] quot[k], p[k]) by {
        assert(p[k].n == 0);
        assert(quot[k] == frac_zero());
        assert(0 * p[k].d == p[k].n * 1) by (nonlinear_arith)
            requires
                p[k].n == 0,
        {
        }
    }
    lemma_div_recovers(p, q, qmax, m, rem, quot);
    assert((m + qmax - 1) as nat == (pmax + qmax) as nat);
}

} // verus!
