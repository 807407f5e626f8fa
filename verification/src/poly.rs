//! Truncated power series (Taylor polynomials): a fixed 30-slot coefficient
//! window with exact rational entries, plus the ring operations that combine
//! sibling series at expression-tree operator nodes.

use vstd::prelude::*;
use crate::rat::{
    Frac, Rat, canon_frac, canon_fits, frac_add, frac_sub, frac_mul, frac_div, frac_eq, frac_wf,
    frac_zero, frac_one, frac_is_zero, lemma_frac_add_cong, lemma_frac_sub_cong,
    lemma_frac_mul_cong, lemma_frac_div_cong, lemma_frac_eq_trans, lemma_canon_props,
    lemma_frac_ops_wf, lemma_canon_int, lemma_frac_eq_zero, lemma_frac_div_wf,
};
use crate::func::Func;

verus! {

/// Number of coefficient slots every series carries; `max_pow` is always
/// strictly below it.
pub const DEFAULT_MAX_POW: usize = 30;

/// Failures of the series factory and algebra. Every failure is final; no
/// recovery or default substitution is attempted.
#[derive(Debug, Clone, Copy, PartialEq, Eq, Structural)]
pub enum SeriesError {
    /// A canonical coefficient left the representable `i64` fraction range.
    Overflow,
    /// Division by the zero series.
    ZeroDivisor,
    /// The divisor's leading coefficient vanished while a division step
    /// still needed it.
    ZeroLeadingCoefficient,
    /// A series was requested at a degree outside the coefficient window.
    DegreeTooLarge { requested: usize },
    /// No series rule exists for this tag.
    UnsupportedTag { tag: Func },
}

/// Sum of the first `j` convolution terms of coefficient sequences `a` and
/// `b` at output power `k`: `a[0]*b[k] + a[1]*b[k-1] + ... + a[j-1]*b[k-j+1]`.
pub open spec fn conv_sum(a: Seq<Frac>, b: Seq<Frac>, k: int, j: nat) -> Frac
    decreases j,
{
    if j == 0 {
        frac_zero()
    } else {
        frac_add(conv_sum(a, b, k, (j - 1) as nat), frac_mul(a[j - 1], b[k - (j - 1)]))
    }
}

/// Every partial convolution sum of well-formed coefficients is well formed.
pub proof fn lemma_conv_wf(a: Seq<Frac>, b: Seq<Frac>, k: int, j: nat)
    requires
        a.len() == DEFAULT_MAX_POW,
        b.len() == DEFAULT_MAX_POW,
        forall|i: int| 0 <= i < DEFAULT_MAX_POW ==> frac_wf(#[trigger] a[i]),
        forall|i: int| 0 <= i < DEFAULT_MAX_POW ==> frac_wf(#[trigger] b[i]),
        0 <= k < DEFAULT_MAX_POW,
        j <= k + 1,
    ensures
        frac_wf(conv_sum(a, b, k, j)),
    decreases j,
{
    if j == 0 {
    } else {
        lemma_conv_wf(a, b, k, (j - 1) as nat);
        lemma_frac_ops_wf(a[j - 1], b[k - (j - 1)]);
        lemma_frac_ops_wf(conv_sum(a, b, k, (j - 1) as nat), frac_mul(a[j - 1], b[k - (j - 1)]));
    }
}

/// When the long division returns a quotient, its entries are well formed.
pub proof fn lemma_div_loop_wf(rem: Seq<Frac>, rmax: nat, dvs: Seq<Frac>, dmax: nat, quot: Seq<
    Frac,
>)
    requires
        rem.len() == DEFAULT_MAX_POW,
        dvs.len() == DEFAULT_MAX_POW,
        quot.len() == DEFAULT_MAX_POW,
        rmax < DEFAULT_MAX_POW,
        dmax < DEFAULT_MAX_POW,
        forall|i: int| 0 <= i < DEFAULT_MAX_POW ==> frac_wf(#[trigger] rem[i]),
        forall|i: int| 0 <= i < DEFAULT_MAX_POW ==> frac_wf(#[trigger] dvs[i]),
        forall|i: int| 0 <= i < DEFAULT_MAX_POW ==> frac_wf(#[trigger] quot[i]),
    ensures
        div_loop(rem, rmax, dvs, dmax, quot) matches Option::Some(q) ==> q.len()
            == DEFAULT_MAX_POW && (forall|i: int|
            0 <= i < DEFAULT_MAX_POW ==> frac_wf(#[trigger] q[i])),
    decreases rmax,
{
    if rem[0].n != 0 && rmax != 0 && rmax >= dmax {
        if dvs[dmax as int].n != 0 {
            let t = frac_div(rem[rmax as int], dvs[dmax as int]);
            lemma_frac_div_wf(rem[rmax as int], dvs[dmax as int]);
            let s = (rmax - dmax) as int;
            let rem2 = div_step_rem(rem, t, dvs, s);
            let quot2 = quot.update(s, frac_add(quot[s], t));
            assert forall|i: int| 0 <= i < DEFAULT_MAX_POW implies frac_wf(
                #[trigger] rem2[i],
            ) by {
                if i >= s {
                    lemma_frac_ops_wf(t, dvs[i - s]);
                    lemma_frac_ops_wf(rem[i], frac_mul(t, dvs[i - s]));
                }
            }
            assert forall|i: int| 0 <= i < DEFAULT_MAX_POW implies frac_wf(
                #[trigger] quot2[i],
            ) by {
                if i == s {
                    lemma_frac_ops_wf(quot[s], t);
                }
            }
            lemma_div_loop_wf(rem2, (rmax - 1) as nat, dvs, dmax, quot2);
        }
    }
}

/// The all-zero coefficient window.
pub open spec fn zero_seq() -> Seq<Frac> {
    Seq::new(DEFAULT_MAX_POW as nat, |k: int| frac_zero())
}

/// One long-division step on the remainder: subtract the monomial `t` at
/// degree `s` times the divisor.
pub open spec fn div_step_rem(rem: Seq<Frac>, t: Frac, dvs: Seq<Frac>, s: int) -> Seq<Frac> {
    Seq::new(
        DEFAULT_MAX_POW as nat,
        |k: int|
            if k >= s {
                frac_sub(rem[k], frac_mul(t, dvs[k - s]))
            } else {
                rem[k]
            },
    )
}

/// Polynomial long division, one iteration per recursive step: while the
/// remainder's constant coefficient is nonzero, its degree tag is nonzero
/// and at least the divisor's, divide the leading terms, add the monomial
/// quotient term, subtract its product with the divisor, and decrement the
/// remainder's degree tag by exactly one. `None` when a step meets a
/// divisor whose leading coefficient is zero.
pub open spec fn div_loop(rem: Seq<Frac>, rmax: nat, dvs: Seq<Frac>, dmax: nat, quot: Seq<Frac>) -> Option<
    Seq<Frac>,
>
    decreases rmax,
{
    if rem[0].n != 0 && rmax != 0 && rmax >= dmax {
        if dvs[dmax as int].n == 0 {
            Option::None
        } else {
            let t = frac_div(rem[rmax as int], dvs[dmax as int]);
            let s = rmax - dmax;
            div_loop(
                div_step_rem(rem, t, dvs, s as int),
                (rmax - 1) as nat,
                dvs,
                dmax,
                quot.update(s as int, frac_add(quot[s as int], t)),
            )
        }
    } else {
        Option::Some(quot)
    }
}

/// Factorial.
pub open spec fn fact(k: nat) -> nat
    decreases k,
{
    if k == 0 {
        1
    } else {
        k * fact((k - 1) as nat)
    }
}

pub proof fn lemma_fact_pos(k: nat)
    ensures
        fact(k) >= 1,
    decreases k,
{
    if k > 0 {
        lemma_fact_pos((k - 1) as nat);
        assert(k * fact((k - 1) as nat) >= 1) by (nonlinear_arith)
            requires
                k >= 1,
                fact((k - 1) as nat) >= 1,
        {
        }
    }
}

pub proof fn lemma_fact_mono(a: nat, b: nat)
    requires
        a <= b,
    ensures
        fact(a) <= fact(b),
    decreases b,
{
    if a < b {
        lemma_fact_mono(a, (b - 1) as nat);
        lemma_fact_pos((b - 1) as nat);
        assert(fact((b - 1) as nat) <= b * fact((b - 1) as nat)) by (nonlinear_arith)
            requires
                b >= 1,
                fact((b - 1) as nat) >= 1,
        {
        }
    }
}

/// Powers of two, used to bound binomial coefficients.
pub open spec fn two_pow(n: nat) -> nat
    decreases n,
{
    if n == 0 {
        1
    } else {
        2 * two_pow((n - 1) as nat)
    }
}

pub proof fn lemma_two_pow_pos(n: nat)
    ensures
        two_pow(n) >= 1,
    decreases n,
{
    if n > 0 {
        lemma_two_pow_pos((n - 1) as nat);
    }
}

pub proof fn lemma_two_pow_mono(a: nat, b: nat)
    requires
        a <= b,
    ensures
        two_pow(a) <= two_pow(b),
    decreases b,
{
    if a < b {
        lemma_two_pow_mono(a, (b - 1) as nat);
        lemma_two_pow_pos((b - 1) as nat);
    }
}

/// Binomial coefficient by Pascal's rule.
pub open spec fn binom(n: nat, k: nat) -> nat
    decreases n,
{
    if k == 0 {
        1
    } else if k > n {
        0
    } else {
        binom((n - 1) as nat, (k - 1) as nat) + binom((n - 1) as nat, k)
    }
}

pub proof fn lemma_binom_self(n: nat)
    ensures
        binom(n, n) == 1,
    decreases n,
{
    if n > 0 {
        lemma_binom_self((n - 1) as nat);
        assert(binom((n - 1) as nat, n) == 0);
    }
}

pub proof fn lemma_binom_le_two_pow(n: nat, k: nat)
    ensures
        binom(n, k) <= two_pow(n),
    decreases n,
{
    if k == 0 {
        lemma_two_pow_pos(n);
    } else if k > n {
    } else {
        lemma_binom_le_two_pow((n - 1) as nat, (k - 1) as nat);
        lemma_binom_le_two_pow((n - 1) as nat, k);
    }
}

/// Repeated product of a fraction with itself.
pub open spec fn pow_frac(a: Frac, e: nat) -> Frac
    decreases e,
{
    if e == 0 {
        frac_one()
    } else {
        frac_mul(pow_frac(a, (e - 1) as nat), a)
    }
}

pub proof fn lemma_pow_frac_wf(a: Frac, e: nat)
    requires
        frac_wf(a),
    ensures
        frac_wf(pow_frac(a, e)),
    decreases e,
{
    if e > 0 {
        lemma_pow_frac_wf(a, (e - 1) as nat);
        lemma_frac_ops_wf(pow_frac(a, (e - 1) as nat), a);
    }
}

pub proof fn lemma_pow_frac_cong(a: Frac, a2: Frac, e: nat)
    requires
        frac_wf(a),
        frac_wf(a2),
        frac_eq(a, a2),
    ensures
        frac_eq(pow_frac(a, e), pow_frac(a2, e)),
    decreases e,
{
    if e > 0 {
        lemma_pow_frac_cong(a, a2, (e - 1) as nat);
        lemma_pow_frac_wf(a, (e - 1) as nat);
        lemma_pow_frac_wf(a2, (e - 1) as nat);
        lemma_frac_mul_cong(pow_frac(a, (e - 1) as nat), pow_frac(a2, (e - 1) as nat), a, a2);
    }
}

/// Whether the series factory has a rule for this tag.
pub open spec fn supported_tag(f: Func) -> bool {
    f matches (Func::Sin | Func::Cos | Func::Tg | Func::Ln | Func::Exp)
}

/// Closed-form Maclaurin coefficient at power `k`, truncated at `max_p`.
pub open spec fn mac_coef(fun: Func, max_p: nat, k: int) -> Frac {
    if 0 <= k <= max_p {
        match fun {
            Func::Exp => Frac { n: 1, d: fact(k as nat) as int },
            Func::Sin => if k % 2 == 1 {
                Frac {
                    n: if ((k - 1) / 2) % 2 == 0 {
                        1
                    } else {
                        -1
                    },
                    d: fact(k as nat) as int,
                }
            } else {
                frac_zero()
            },
            Func::Cos => if k % 2 == 0 {
                Frac {
                    n: if (k / 2) % 2 == 0 {
                        1
                    } else {
                        -1
                    },
                    d: fact(k as nat) as int,
                }
            } else {
                frac_zero()
            },
            Func::Ln => if k == 0 {
                frac_zero()
            } else {
                Frac {
                    n: if k % 2 == 1 {
                        1
                    } else {
                        -1
                    },
                    d: k,
                }
            },
            _ => frac_zero(),
        }
    } else {
        frac_zero()
    }
}

/// The full Maclaurin coefficient window for a closed-form tag.
pub open spec fn mac_seq(fun: Func, max_p: nat) -> Seq<Frac> {
    Seq::new(DEFAULT_MAX_POW as nat, |k: int| mac_coef(fun, max_p, k))
}

/// Every closed-form Maclaurin coefficient is well formed.
pub proof fn lemma_mac_seq_wf(fun: Func, max_p: nat)
    ensures
        forall|k: int| 0 <= k < DEFAULT_MAX_POW ==> frac_wf(#[trigger] mac_seq(fun, max_p)[k]),
{
    assert forall|k: int| 0 <= k < DEFAULT_MAX_POW implies frac_wf(
        #[trigger] mac_seq(fun, max_p)[k],
    ) by {
        if 0 <= k <= max_p {
            lemma_fact_pos(k as nat);
        }
    }
}

/// The tangent's coefficient window: sine's series divided by cosine's
/// through the long-division operator.
pub open spec fn tan_base(max_p: nat) -> Option<Seq<Frac>> {
    div_loop(mac_seq(Func::Sin, max_p), max_p, mac_seq(Func::Cos, max_p), max_p, zero_seq())
}

/// Negated expansion offset, as re-centering substitutes `x - a` for `x`.
pub open spec fn neg_frac(a: Frac) -> Frac {
    Frac { n: -a.n, d: a.d }
}

/// Contribution redistributed into power `j` by the Maclaurin coefficients
/// at powers `j+1 ..= p`: each adds `b[q] * C(q, q-j) * a^(q-j)`.
pub open spec fn shift_tail(b: Seq<Frac>, a: Frac, j: int, p: int) -> Frac
    decreases p - j,
{
    if p <= j {
        frac_zero()
    } else {
        frac_add(
            shift_tail(b, a, j, p - 1),
            frac_mul(
                b[p],
                frac_mul(
                    Frac { n: binom(p as nat, (p - j) as nat) as int, d: 1 },
                    pow_frac(a, (p - j) as nat),
                ),
            ),
        )
    }
}

pub proof fn lemma_shift_tail_wf(b: Seq<Frac>, a: Frac, j: int, p: int)
    requires
        b.len() == DEFAULT_MAX_POW,
        forall|i: int| 0 <= i < DEFAULT_MAX_POW ==> frac_wf(#[trigger] b[i]),
        frac_wf(a),
        0 <= j,
        p < DEFAULT_MAX_POW,
    ensures
        frac_wf(shift_tail(b, a, j, p)),
    decreases p - j,
{
    if p > j {
        lemma_shift_tail_wf(b, a, j, p - 1);
        let e = (p - j) as nat;
        lemma_pow_frac_wf(a, e);
        let bf = Frac { n: binom(p as nat, e) as int, d: 1 };
        lemma_frac_ops_wf(bf, pow_frac(a, e));
        lemma_frac_ops_wf(b[p], frac_mul(bf, pow_frac(a, e)));
        lemma_frac_ops_wf(
            shift_tail(b, a, j, p - 1),
            frac_mul(b[p], frac_mul(bf, pow_frac(a, e))),
        );
    }
}

/// Equal coefficient windows and equal offsets give equal re-centering
/// contributions.
pub proof fn lemma_shift_tail_cong(b1: Seq<Frac>, b2: Seq<Frac>, a1: Frac, a2: Frac, j: int, p: int)
    requires
        b1.len() == DEFAULT_MAX_POW,
        b2.len() == DEFAULT_MAX_POW,
        forall|i: int| 0 <= i < DEFAULT_MAX_POW ==> frac_wf(#[trigger] b1[i]),
        forall|i: int| 0 <= i < DEFAULT_MAX_POW ==> frac_wf(#[trigger] b2[i]),
        forall|i: int| 0 <= i < DEFAULT_MAX_POW ==> frac_eq(#[trigger] b1[i], b2[i]),
        frac_wf(a1),
        frac_wf(a2),
        frac_eq(a1, a2),
        0 <= j,
        p < DEFAULT_MAX_POW,
    ensures
        frac_eq(shift_tail(b1, a1, j, p), shift_tail(b2, a2, j, p)),
    decreases p - j,
{
    if p > j {
        lemma_shift_tail_cong(b1, b2, a1, a2, j, p - 1);
        lemma_shift_tail_wf(b1, a1, j, p - 1);
        lemma_shift_tail_wf(b2, a2, j, p - 1);
        let e = (p - j) as nat;
        let bf = Frac { n: binom(p as nat, e) as int, d: 1 };
        lemma_pow_frac_wf(a1, e);
        lemma_pow_frac_wf(a2, e);
        lemma_pow_frac_cong(a1, a2, e);
        lemma_frac_mul_cong(bf, bf, pow_frac(a1, e), pow_frac(a2, e));
        lemma_frac_ops_wf(bf, pow_frac(a1, e));
        lemma_frac_ops_wf(bf, pow_frac(a2, e));
        lemma_frac_mul_cong(b1[p], b2[p], frac_mul(bf, pow_frac(a1, e)), frac_mul(bf, pow_frac(a2, e)));
        lemma_frac_ops_wf(b1[p], frac_mul(bf, pow_frac(a1, e)));
        lemma_frac_ops_wf(b2[p], frac_mul(bf, pow_frac(a2, e)));
        lemma_frac_add_cong(
            shift_tail(b1, a1, j, p - 1),
            shift_tail(b2, a2, j, p - 1),
            frac_mul(b1[p], frac_mul(bf, pow_frac(a1, e))),
            frac_mul(b2[p], frac_mul(bf, pow_frac(a2, e))),
        );
    }
}

/// Integer coefficients of small magnitude: under this bound every ring
/// operation below is guaranteed to stay inside the scalar representation.
pub open spec fn small_int_coefs(s: Seq<Frac>) -> bool {
    forall|k: int|
        0 <= k < DEFAULT_MAX_POW ==> (#[trigger] s[k]).d == 1 && -0x10000000 <= s[k].n
            <= 0x10000000
}

/// Truncated power series: 30 rational coefficients indexed by power, and
/// the highest degree still considered semantically valid.
pub struct TsPoly {
    pub coefs: Vec<Rat>,
    pub max_pow: usize,
}

impl TsPoly {
    /// Structural invariant: exactly 30 well-formed slots, valid degree tag.
    pub open spec fn wf(self) -> bool {
        &&& self.coefs.len() == DEFAULT_MAX_POW
        &&& self.max_pow < DEFAULT_MAX_POW
        &&& forall|i: int| 0 <= i < DEFAULT_MAX_POW ==> (#[trigger] self.coefs[i]).wf()
    }

    /// Mathematical coefficient sequence of this series.
    pub open spec fn fseq(self) -> Seq<Frac> {
        self.coefs@.map_values(|r: Rat| r.frac())
    }

    /// The all-zero series tagged with the given degree.
    pub fn zeros(max_p: usize) -> (r: TsPoly)
        requires
            max_p < DEFAULT_MAX_POW,
        ensures
            r.wf(),
            r.max_pow == max_p,
            forall|i: int| 0 <= i < DEFAULT_MAX_POW ==> r.fseq()[i] == frac_zero(),
    {
        let mut coefs: Vec<Rat> = Vec::new();
        let mut i: usize = 0;
        while i < DEFAULT_MAX_POW
            invariant
                i <= DEFAULT_MAX_POW,
                coefs.len() == i,
                forall|j: int| 0 <= j < i ==> (#[trigger] coefs[j]).wf() && coefs[j].frac()
                    == frac_zero(),
            decreases DEFAULT_MAX_POW - i,
        {
            coefs.push(Rat::zero());
            i += 1;
        }
        TsPoly { coefs, max_pow: max_p }
    }

    /// Leading coefficient: the entry at the series' valid degree.
    pub fn lead(&self) -> (r: Rat)
        requires
            self.wf(),
        ensures
            r == self.coefs[self.max_pow as int],
    {
        self.coefs[self.max_pow]
    }

    /// Zero out every coefficient above `max`; entries at or below it stay.
    pub fn truncate(&mut self, max: usize)
        requires
            old(self).wf(),
        ensures
            final(self).wf(),
            final(self).max_pow == old(self).max_pow,
            forall|i: int| 0 <= i < DEFAULT_MAX_POW && i <= max ==> final(self).fseq()[i] == old(
                self,
            ).fseq()[i],
            forall|i: int| 0 <= i < DEFAULT_MAX_POW && i > max ==> final(self).fseq()[i]
                == frac_zero(),
    {
        if max >= DEFAULT_MAX_POW - 1 {
            return ;
        }
        let mut i: usize = max + 1;
        while i < DEFAULT_MAX_POW
            invariant
                max + 1 <= i <= DEFAULT_MAX_POW,
                self.coefs.len() == DEFAULT_MAX_POW,
                self.max_pow == old(self).max_pow,
                old(self).wf(),
                forall|j: int| 0 <= j <= max ==> self.coefs[j] == old(self).coefs[j],
                forall|j: int| max < j < i ==> (#[trigger] self.coefs[j]).wf() && self.coefs[
                    j
                ].frac() == frac_zero(),
                forall|j: int| i <= j < DEFAULT_MAX_POW ==> self.coefs[j] == old(self).coefs[j],
            decreases DEFAULT_MAX_POW - i,
        {
            self.coefs[i] = Rat::zero();
            i += 1;
        }
    }

    /// Elementwise sum over all 30 slots; the result keeps the larger
    /// degree tag. Fails exactly when some canonical coefficient of the sum
    /// does not fit the scalar representation.
    pub fn add(&self, rhs: &TsPoly) -> (r: Result<TsPoly, SeriesError>)
        requires
            self.wf(),
            rhs.wf(),
        ensures
            r matches Ok(c) ==> {
                &&& c.wf()
                &&& c.max_pow == (if self.max_pow > rhs.max_pow {
                    self.max_pow
                } else {
                    rhs.max_pow
                })
                &&& forall|k: int|
                    0 <= k < DEFAULT_MAX_POW ==> #[trigger] c.fseq()[k] == canon_frac(
                        frac_add(self.fseq()[k], rhs.fseq()[k]),
                    ) && frac_eq(c.fseq()[k], frac_add(self.fseq()[k], rhs.fseq()[k]))
            },
            r is Ok <==> (forall|k: int|
                0 <= k < DEFAULT_MAX_POW ==> canon_fits(
                    #[trigger] frac_add(self.fseq()[k], rhs.fseq()[k]),
                )),
            r matches Err(e) ==> e == SeriesError::Overflow,
    {
        let mut out: Vec<Rat> = Vec::new();
        let mut k: usize = 0;
        while k < DEFAULT_MAX_POW
            invariant
                self.wf(),
                rhs.wf(),
                k <= DEFAULT_MAX_POW,
                out.len() == k,
                forall|i: int|
                    0 <= i < k ==> (#[trigger] out[i]).wf() && out[i].frac() == canon_frac(
                        frac_add(self.fseq()[i], rhs.fseq()[i]),
                    ) && frac_eq(out[i].frac(), frac_add(self.fseq()[i], rhs.fseq()[i])),
                forall|i: int|
                    0 <= i < k ==> canon_fits(#[trigger] frac_add(self.fseq()[i], rhs.fseq()[i])),
            decreases DEFAULT_MAX_POW - k,
        {
            match self.coefs[k].add(&rhs.coefs[k]) {
                Option::Some(c) => {
                    out.push(c);
                },
                Option::None => {
                    proof {
                        assert(self.fseq()[k as int] == self.coefs[k as int].frac());
                        assert(rhs.fseq()[k as int] == rhs.coefs[k as int].frac());
                        assert(!canon_fits(frac_add(self.fseq()[k as int], rhs.fseq()[k as int])));
                    }
                    return Err(SeriesError::Overflow);
                },
            }
            k += 1;
        }
        let mp = if self.max_pow > rhs.max_pow {
            self.max_pow
        } else {
            rhs.max_pow
        };
        Ok(TsPoly { coefs: out, max_pow: mp })
    }

    /// Elementwise difference over all 30 slots; the result keeps the larger
    /// degree tag. Fails exactly when some canonical coefficient of the
    /// difference does not fit the scalar representation.
    pub fn sub(&self, rhs: &TsPoly) -> (r: Result<TsPoly, SeriesError>)
        requires
            self.wf(),
            rhs.wf(),
        ensures
            r matches Ok(c) ==> {
                &&& c.wf()
                &&& c.max_pow == (if self.max_pow > rhs.max_pow {
                    self.max_pow
                } else {
                    rhs.max_pow
                })
                &&& forall|k: int|
                    0 <= k < DEFAULT_MAX_POW ==> #[trigger] c.fseq()[k] == canon_frac(
                        frac_sub(self.fseq()[k], rhs.fseq()[k]),
                    ) && frac_eq(c.fseq()[k], frac_sub(self.fseq()[k], rhs.fseq()[k]))
            },
            r is Ok <==> (forall|k: int|
                0 <= k < DEFAULT_MAX_POW ==> canon_fits(
                    #[trigger] frac_sub(self.fseq()[k], rhs.fseq()[k]),
                )),
            r matches Err(e) ==> e == SeriesError::Overflow,
    {
        let mut out: Vec<Rat> = Vec::new();
        let mut k: usize = 0;
        while k < DEFAULT_MAX_POW
            invariant
                self.wf(),
                rhs.wf(),
                k <= DEFAULT_MAX_POW,
                out.len() == k,
                forall|i: int|
                    0 <= i < k ==> (#[trigger] out[i]).wf() && out[i].frac() == canon_frac(
                        frac_sub(self.fseq()[i], rhs.fseq()[i]),
                    ) && frac_eq(out[i].frac(), frac_sub(self.fseq()[i], rhs.fseq()[i])),
                forall|i: int|
                    0 <= i < k ==> canon_fits(#[trigger] frac_sub(self.fseq()[i], rhs.fseq()[i])),
            decreases DEFAULT_MAX_POW - k,
        {
            match self.coefs[k].sub(&rhs.coefs[k]) {
                Option::Some(c) => {
                    out.push(c);
                },
                Option::None => {
                    proof {
                        assert(self.fseq()[k as int] == self.coefs[k as int].frac());
                        assert(rhs.fseq()[k as int] == rhs.coefs[k as int].frac());
                        assert(!canon_fits(frac_sub(self.fseq()[k as int], rhs.fseq()[k as int])));
                    }
                    return Err(SeriesError::Overflow);
                },
            }
            k += 1;
        }
        let mp = if self.max_pow > rhs.max_pow {
            self.max_pow
        } else {
            rhs.max_pow
        };
        Ok(TsPoly { coefs: out, max_pow: mp })
    }

    /// Convolution product: every source index pair `(i, j)` with
    /// `i + j < 30` contributes `a[i]*b[j]` to result index `i + j`; pairs
    /// at or above the window are silently dropped. The degree tag is the
    /// operands' sum, capped at the window's top. Small integer
    /// coefficients never fail.
    pub fn mul(&self, rhs: &TsPoly) -> (r: Result<TsPoly, SeriesError>)
        requires
            self.wf(),
            rhs.wf(),
        ensures
            r matches Ok(c) ==> {
                &&& c.wf()
                &&& c.max_pow as int == (if self.max_pow + rhs.max_pow < DEFAULT_MAX_POW {
                    self.max_pow + rhs.max_pow
                } else {
                    DEFAULT_MAX_POW - 1
                })
                &&& forall|k: int|
                    0 <= k < DEFAULT_MAX_POW ==> frac_eq(
                        #[trigger] c.fseq()[k],
                        conv_sum(self.fseq(), rhs.fseq(), k, (k + 1) as nat),
                    )
            },
            r matches Err(e) ==> e == SeriesError::Overflow,
            small_int_coefs(self.fseq()) && small_int_coefs(rhs.fseq()) ==> r is Ok,
    {
        let ghost small = small_int_coefs(self.fseq()) && small_int_coefs(rhs.fseq());
        let mut out: Vec<Rat> = Vec::new();
        let mut k: usize = 0;
        while k < DEFAULT_MAX_POW
            invariant
                self.wf(),
                rhs.wf(),
                small == (small_int_coefs(self.fseq()) && small_int_coefs(rhs.fseq())),
                k <= DEFAULT_MAX_POW,
                out.len() == k,
                forall|i: int|
                    0 <= i < k ==> (#[trigger] out[i]).wf() && frac_eq(
                        out[i].frac(),
                        conv_sum(self.fseq(), rhs.fseq(), i, (i + 1) as nat),
                    ),
            decreases DEFAULT_MAX_POW - k,
        {
            let mut acc = Rat::zero();
            let mut i: usize = 0;
            while i <= k
                invariant
                    self.wf(),
                    rhs.wf(),
                    small == (small_int_coefs(self.fseq()) && small_int_coefs(rhs.fseq())),
                    k < DEFAULT_MAX_POW,
                    i <= k + 1,
                    acc.wf(),
                    frac_eq(acc.frac(), conv_sum(self.fseq(), rhs.fseq(), k as int, i as nat)),
                    small ==> acc.den == 1 && -0x100000000000000 * (i as int) <= acc.num as int
                        <= 0x100000000000000 * (i as int),
                decreases k + 1 - i,
            {
                proof {
                    assert(self.fseq()[i as int] == self.coefs[i as int].frac());
                    assert(rhs.fseq()[k - i] == rhs.coefs[k - i].frac());
                }
                let ghost fa = self.fseq()[i as int];
                let ghost fb = rhs.fseq()[k - i];
                proof {
                    if small {
                        lemma_canon_int(fa.n * fb.n);
                        assert(-0x100000000000000 <= fa.n * fb.n <= 0x100000000000000)
                            by (nonlinear_arith)
                            requires
                                -0x10000000 <= fa.n <= 0x10000000,
                                -0x10000000 <= fb.n <= 0x10000000,
                        {
                        }
                        assert(fa.d * fb.d == 1) by (nonlinear_arith)
                            requires
                                fa.d == 1,
                                fb.d == 1,
                        {
                        }
                        assert(frac_mul(fa, fb) == (Frac { n: fa.n * fb.n, d: 1 }));
                        assert(canon_fits(frac_mul(fa, fb)));
                    }
                }
                let t = match self.coefs[i].mul(&rhs.coefs[k - i]) {
                    Option::Some(t) => t,
                    Option::None => {
                        proof {
                            assert(!small);
                        }
                        return Err(SeriesError::Overflow);
                    },
                };
                proof {
                    if small {
                        lemma_canon_int(fa.n * fb.n);
                        assert(t.frac() == (Frac { n: fa.n * fb.n, d: 1 }));
                        lemma_canon_int(acc.frac().n + t.frac().n);
                        assert(acc.frac().n * t.frac().d == acc.frac().n && t.frac().n
                            * acc.frac().d == t.frac().n && acc.frac().d * t.frac().d == 1)
                            by (nonlinear_arith)
                            requires
                                t.frac().d == 1,
                                acc.frac().d == 1,
                        {
                        }
                        assert(frac_add(acc.frac(), t.frac()) == (Frac {
                            n: acc.num as int + t.num as int,
                            d: 1,
                        }));
                        assert(canon_fits(frac_add(acc.frac(), t.frac())));
                    }
                }
                let acc2 = match acc.add(&t) {
                    Option::Some(a) => a,
                    Option::None => {
                        proof {
                            assert(!small);
                        }
                        return Err(SeriesError::Overflow);
                    },
                };
                proof {
                    let a = self.fseq();
                    let b = rhs.fseq();
                    let cs_i = conv_sum(a, b, k as int, i as nat);
                    let m = frac_mul(fa, fb);
                    lemma_conv_wf(a, b, k as int, i as nat);
                    lemma_conv_wf(a, b, k as int, (i + 1) as nat);
                    lemma_frac_ops_wf(fa, fb);
                    lemma_frac_ops_wf(acc.frac(), t.frac());
                    lemma_frac_add_cong(acc.frac(), cs_i, t.frac(), m);
                    assert(conv_sum(a, b, k as int, (i + 1) as nat) == frac_add(cs_i, m));
                    lemma_frac_eq_trans(
                        acc2.frac(),
                        frac_add(acc.frac(), t.frac()),
                        frac_add(cs_i, m),
                    );
                }
                acc = acc2;
                i += 1;
            }
            out.push(acc);
            k += 1;
        }
        let s = self.max_pow + rhs.max_pow;
        let mp = if s < DEFAULT_MAX_POW {
            s
        } else {
            DEFAULT_MAX_POW - 1
        };
        Ok(TsPoly { coefs: out, max_pow: mp })
    }

    /// Polynomial long division, following `div_loop` step for step.
    /// Rejects the zero series as a divisor; reports a divisor whose
    /// leading coefficient vanishes at a step that needs it.
    #[verifier::loop_isolation(false)]
    pub fn div(&self, rhs: &TsPoly) -> (r: Result<TsPoly, SeriesError>)
        requires
            self.wf(),
            rhs.wf(),
        ensures
            (rhs.max_pow == 0 && frac_is_zero(rhs.fseq()[0])) <==> (r matches Err(e) && e
                == SeriesError::ZeroDivisor),
            r matches Ok(c) ==> {
                &&& c.wf()
                &&& c.max_pow as int == (if self.max_pow >= rhs.max_pow {
                    self.max_pow - rhs.max_pow
                } else {
                    0
                })
                &&& div_loop(
                    self.fseq(),
                    self.max_pow as nat,
                    rhs.fseq(),
                    rhs.max_pow as nat,
                    zero_seq(),
                ) matches Option::Some(q) && (forall|k: int|
                    0 <= k < DEFAULT_MAX_POW ==> frac_eq(#[trigger] c.fseq()[k], q[k]))
            },
            r matches Err(e) ==> (e == SeriesError::ZeroDivisor || e == SeriesError::Overflow || e
                == SeriesError::ZeroLeadingCoefficient),
            (r matches Err(e) && e == SeriesError::ZeroLeadingCoefficient) ==> div_loop(
                self.fseq(),
                self.max_pow as nat,
                rhs.fseq(),
                rhs.max_pow as nat,
                zero_seq(),
            ) is None,
            !(rhs.max_pow == 0 && frac_is_zero(rhs.fseq()[0])) && (frac_is_zero(self.fseq()[0])
                || self.max_pow == 0 || self.max_pow < rhs.max_pow) ==> r is Ok,
    {
        proof {
            assert(rhs.fseq()[0] == rhs.coefs[0].frac());
        }
        if rhs.max_pow == 0 && rhs.coefs[0].is_zero() {
            return Err(SeriesError::ZeroDivisor);
        }
        let dmax = rhs.max_pow;
        let mut quot: Vec<Rat> = Vec::new();
        let mut rem: Vec<Rat> = Vec::new();
        let mut j: usize = 0;
        while j < DEFAULT_MAX_POW
            invariant
                self.wf(),
                j <= DEFAULT_MAX_POW,
                quot.len() == j,
                rem.len() == j,
                forall|i: int|
                    0 <= i < j ==> (#[trigger] quot[i]).wf() && quot[i].frac() == frac_zero(),
                forall|i: int| 0 <= i < j ==> #[trigger] rem[i] == self.coefs[i],
            decreases DEFAULT_MAX_POW - j,
        {
            quot.push(Rat::zero());
            rem.push(self.coefs[j]);
            j += 1;
        }
        let mut rmax: usize = self.max_pow;
        let qmax: usize = if self.max_pow >= dmax {
            self.max_pow - dmax
        } else {
            0
        };
        let ghost dseq = rhs.fseq();
        let ghost orig = div_loop(self.fseq(), self.max_pow as nat, dseq, dmax as nat, zero_seq());
        let ghost mut rem_s = self.fseq();
        let ghost mut quot_s = zero_seq();
        proof {
            assert(rem_s =~= rem@.map_values(|x: Rat| x.frac()));
            assert(quot_s =~= quot@.map_values(|x: Rat| x.frac()));
        }
        if rem[0].is_zero() || rmax == 0 || rmax < dmax {
            // No division step applies; the quotient is the zero window.
            proof {
                assert(self.fseq()[0] == self.coefs[0].frac());
                assert(div_loop(rem_s, rmax as nat, dseq, dmax as nat, quot_s) == Option::Some(
                    quot_s,
                ));
                assert(orig == Option::Some(quot_s));
                assert forall|k: int| 0 <= k < DEFAULT_MAX_POW implies frac_eq(
                    (#[trigger] quot[k]).frac(),
                    quot_s[k],
                ) by {
                }
            }
            return Ok(TsPoly { coefs: quot, max_pow: qmax });
        }
        while !rem[0].is_zero() && rmax != 0 && rmax >= dmax
            invariant
                rhs.wf(),
                rem.len() == DEFAULT_MAX_POW,
                quot.len() == DEFAULT_MAX_POW,
                rmax < DEFAULT_MAX_POW,
                dmax == rhs.max_pow,
                dseq == rhs.fseq(),
                rem_s.len() == DEFAULT_MAX_POW,
                quot_s.len() == DEFAULT_MAX_POW,
                forall|i: int| 0 <= i < DEFAULT_MAX_POW ==> (#[trigger] rem[i]).wf(),
                forall|i: int| 0 <= i < DEFAULT_MAX_POW ==> (#[trigger] quot[i]).wf(),
                forall|i: int| 0 <= i < DEFAULT_MAX_POW ==> frac_wf(#[trigger] rem_s[i]),
                forall|i: int| 0 <= i < DEFAULT_MAX_POW ==> frac_wf(#[trigger] quot_s[i]),
                forall|i: int|
                    0 <= i < DEFAULT_MAX_POW ==> frac_eq((#[trigger] rem[i]).frac(), rem_s[i]),
                forall|i: int|
                    0 <= i < DEFAULT_MAX_POW ==> frac_eq((#[trigger] quot[i]).frac(), quot_s[i]),
                div_loop(rem_s, rmax as nat, dseq, dmax as nat, quot_s) == orig,
            decreases rmax,
        {
            proof {
                lemma_frac_eq_zero(rem[0].frac(), rem_s[0]);
            }
            let dlead = rhs.coefs[dmax];
            proof {
                assert(dseq[dmax as int] == dlead.frac());
            }
            if dlead.is_zero() {
                proof {
                    assert(div_loop(rem_s, rmax as nat, dseq, dmax as nat, quot_s) is None);
                }
                return Err(SeriesError::ZeroLeadingCoefficient);
            }
            let t = match rem[rmax].div(&dlead) {
                Option::Some(t) => t,
                Option::None => {
                    return Err(SeriesError::Overflow);
                },
            };
            let ghost t_s = frac_div(rem_s[rmax as int], dseq[dmax as int]);
            proof {
                assert(frac_eq(rem[rmax as int].frac(), rem_s[rmax as int]));
                lemma_frac_div_cong(
                    rem[rmax as int].frac(),
                    rem_s[rmax as int],
                    dlead.frac(),
                    dseq[dmax as int],
                );
                lemma_frac_eq_trans(
                    t.frac(),
                    frac_div(rem[rmax as int].frac(), dlead.frac()),
                    t_s,
                );
            }
            let s = rmax - dmax;
            let qnew = match quot[s].add(&t) {
                Option::Some(v) => v,
                Option::None => {
                    return Err(SeriesError::Overflow);
                },
            };
            proof {
                lemma_frac_ops_wf(quot[s as int].frac(), t.frac());
                lemma_frac_add_cong(quot[s as int].frac(), quot_s[s as int], t.frac(), t_s);
                lemma_frac_ops_wf(quot_s[s as int], t_s);
                lemma_frac_eq_trans(
                    qnew.frac(),
                    frac_add(quot[s as int].frac(), t.frac()),
                    frac_add(quot_s[s as int], t_s),
                );
            }
            quot[s] = qnew;
            let ghost rem_s2 = div_step_rem(rem_s, t_s, dseq, s as int);
            let ghost rem0 = rem@;
            let mut k: usize = s;
            while k < DEFAULT_MAX_POW
                invariant
                    rhs.wf(),
                    s <= k <= DEFAULT_MAX_POW,
                    s + dmax < DEFAULT_MAX_POW,
                    dseq == rhs.fseq(),
                    rem.len() == DEFAULT_MAX_POW,
                    rem0.len() == DEFAULT_MAX_POW,
                    rem_s.len() == DEFAULT_MAX_POW,
                    frac_wf(t_s),
                    t.wf(),
                    frac_eq(t.frac(), t_s),
                    rem_s2 == div_step_rem(rem_s, t_s, dseq, s as int),
                    forall|i: int| 0 <= i < DEFAULT_MAX_POW ==> frac_wf(#[trigger] rem_s[i]),
                    forall|i: int| 0 <= i < DEFAULT_MAX_POW ==> (#[trigger] rem0[i]).wf(),
                    forall|i: int|
                        0 <= i < DEFAULT_MAX_POW ==> frac_eq((#[trigger] rem0[i]).frac(), rem_s[i]),
                    forall|i: int| 0 <= i < DEFAULT_MAX_POW ==> (#[trigger] rem[i]).wf(),
                    forall|i: int|
                        s <= i < k ==> frac_eq((rem[i]).frac(), #[trigger] rem_s2[i]) && frac_wf(
                            rem_s2[i],
                        ),
                    forall|i: int|
                        (0 <= i < s || k <= i < DEFAULT_MAX_POW) ==> #[trigger] rem[i] == rem0[i],
                decreases DEFAULT_MAX_POW - k,
            {
                let p = match t.mul(&rhs.coefs[k - s]) {
                    Option::Some(p) => p,
                    Option::None => {
                        return Err(SeriesError::Overflow);
                    },
                };
                let nv = match rem[k].sub(&p) {
                    Option::Some(v) => v,
                    Option::None => {
                        return Err(SeriesError::Overflow);
                    },
                };
                proof {
                    let kk = k as int;
                    let ss = s as int;
                    assert(dseq[kk - ss] == rhs.coefs[kk - ss].frac());
                    lemma_frac_mul_cong(t.frac(), t_s, rhs.coefs[kk - ss].frac(), dseq[kk - ss]);
                    lemma_frac_ops_wf(t.frac(), rhs.coefs[kk - ss].frac());
                    lemma_frac_ops_wf(t_s, dseq[kk - ss]);
                    lemma_frac_eq_trans(
                        p.frac(),
                        frac_mul(t.frac(), rhs.coefs[kk - ss].frac()),
                        frac_mul(t_s, dseq[kk - ss]),
                    );
                    assert(frac_eq(rem[kk].frac(), rem_s[kk]));
                    lemma_frac_sub_cong(
                        rem[kk].frac(),
                        rem_s[kk],
                        p.frac(),
                        frac_mul(t_s, dseq[kk - ss]),
                    );
                    lemma_frac_ops_wf(rem[kk].frac(), p.frac());
                    lemma_frac_ops_wf(rem_s[kk], frac_mul(t_s, dseq[kk - ss]));
                    lemma_frac_eq_trans(
                        nv.frac(),
                        frac_sub(rem[kk].frac(), p.frac()),
                        frac_sub(rem_s[kk], frac_mul(t_s, dseq[kk - ss])),
                    );
                    assert(rem_s2[kk] == frac_sub(rem_s[kk], frac_mul(t_s, dseq[kk - ss])));
                }
                rem[k] = nv;
                k += 1;
            }
            proof {
                assert(k == DEFAULT_MAX_POW);
                assert forall|i: int| 0 <= i < DEFAULT_MAX_POW implies frac_wf(
                    #[trigger] rem_s2[i],
                ) && frac_eq(rem[i].frac(), rem_s2[i]) by {
                    if i < s {
                        assert(rem[i] == rem0[i]);
                        assert(rem_s2[i] == rem_s[i]);
                    } else {
                        assert(frac_eq((rem[i]).frac(), rem_s2[i]) && frac_wf(rem_s2[i]));
                    }
                }
                rem_s = rem_s2;
                quot_s = quot_s.update(s as int, frac_add(quot_s[s as int], t_s));
                assert(div_loop(rem_s, (rmax - 1) as nat, dseq, dmax as nat, quot_s) == orig);
                assert forall|i: int| 0 <= i < DEFAULT_MAX_POW implies frac_eq(
                    (#[trigger] quot[i]).frac(),
                    quot_s[i],
                ) && frac_wf(quot_s[i]) by {
                }
            }
            rmax -= 1;
        }
        proof {
            lemma_frac_eq_zero(rem[0].frac(), rem_s[0]);
            assert(div_loop(rem_s, rmax as nat, dseq, dmax as nat, quot_s) == Option::Some(quot_s));
            assert(orig == Option::Some(quot_s));
        }
        Ok(TsPoly { coefs: quot, max_pow: qmax })
    }

    /// Binomial coefficient `C(n, k)` by Pascal's rule; the window bound
    /// keeps every entry comfortably inside an `i64`.
    #[verifier::loop_isolation(false)]
    fn binom_exec(n: usize, k: usize) -> (r: i64)
        requires
            n < DEFAULT_MAX_POW,
        ensures
            r >= 0,
            r as nat == binom(n as nat, k as nat),
    {
        if k > n {
            return 0;
        }
        let mut row: Vec<i64> = Vec::new();
        row.push(1);
        let mut m: usize = 0;
        while m < n
            invariant
                m <= n < DEFAULT_MAX_POW,
                row.len() == m + 1,
                forall|t: int|
                    0 <= t <= m ==> 0 <= #[trigger] row[t] && row[t] as nat == binom(
                        m as nat,
                        t as nat,
                    ),
            decreases n - m,
        {
            let mut nr: Vec<i64> = Vec::new();
            nr.push(1);
            let mut i: usize = 1;
            while i <= m
                invariant
                    m <= n < DEFAULT_MAX_POW,
                    row.len() == m + 1,
                    1 <= i <= m + 1,
                    nr.len() == i,
                    forall|t: int|
                        0 <= t <= m ==> 0 <= #[trigger] row[t] && row[t] as nat == binom(
                            m as nat,
                            t as nat,
                        ),
                    forall|t: int|
                        0 <= t < i ==> 0 <= #[trigger] nr[t] && nr[t] as nat == binom(
                            (m + 1) as nat,
                            t as nat,
                        ),
                decreases m + 1 - i,
            {
                proof {
                    lemma_binom_le_two_pow(m as nat, (i - 1) as nat);
                    lemma_binom_le_two_pow(m as nat, i as nat);
                    lemma_two_pow_mono(m as nat, 28);
                    assert(two_pow(28) == 0x10000000) by {
                        reveal_with_fuel(two_pow, 29);
                    }
                }
                let v = row[i - 1] + row[i];
                proof {
                    assert(binom((m + 1) as nat, i as nat) == binom(m as nat, (i - 1) as nat)
                        + binom(m as nat, i as nat));
                }
                nr.push(v);
                i += 1;
            }
            nr.push(1);
            proof {
                lemma_binom_self((m + 1) as nat);
            }
            row = nr;
            m += 1;
        }
        row[k]
    }

    /// Closed-form Maclaurin window for the exponential, sine, cosine and
    /// natural-log tags. Fails exactly when a needed factorial denominator
    /// leaves the scalar range.
    #[verifier::loop_isolation(false)]
    fn generate_closed(fun: Func, max_p: usize) -> (r: Result<TsPoly, SeriesError>)
        requires
            max_p < DEFAULT_MAX_POW,
            fun matches (Func::Sin | Func::Cos | Func::Ln | Func::Exp),
        ensures
            r matches Ok(p) ==> p.wf() && p.max_pow == max_p && (forall|k: int|
                0 <= k < DEFAULT_MAX_POW ==> #[trigger] p.fseq()[k] == mac_coef(
                    fun,
                    max_p as nat,
                    k,
                )),
            r is Ok <==> (fun matches Func::Ln || fact(max_p as nat) <= i64::MAX),
            r matches Err(e) ==> e == SeriesError::Overflow,
    {
        let is_ln = match fun {
            Func::Ln => true,
            _ => false,
        };
        let mut out: Vec<Rat> = Vec::new();
        let mut fact_val: i64 = 1;
        let mut k: usize = 0;
        while k <= max_p
            invariant
                max_p < DEFAULT_MAX_POW,
                fun matches (Func::Sin | Func::Cos | Func::Ln | Func::Exp),
                is_ln == (fun matches Func::Ln),
                k <= max_p + 1,
                out.len() == k,
                fact_val >= 1,
                !is_ln ==> fact_val as nat == fact(
                    (if k <= max_p {
                        k
                    } else {
                        max_p
                    }) as nat,
                ),
                forall|i: int|
                    0 <= i < k ==> (#[trigger] out[i]).wf() && out[i].frac() == mac_coef(
                        fun,
                        max_p as nat,
                        i,
                    ),
            decreases max_p + 1 - k,
        {
            let c: Rat = match fun {
                Func::Exp => Rat { num: 1, den: fact_val },
                Func::Sin => {
                    if k % 2 == 1 {
                        let num: i64 = if ((k - 1) / 2) % 2 == 0 {
                            1
                        } else {
                            -1
                        };
                        Rat { num, den: fact_val }
                    } else {
                        Rat::zero()
                    }
                },
                Func::Cos => {
                    if k % 2 == 0 {
                        let num: i64 = if (k / 2) % 2 == 0 {
                            1
                        } else {
                            -1
                        };
                        Rat { num, den: fact_val }
                    } else {
                        Rat::zero()
                    }
                },
                _ => {
                    if k == 0 {
                        Rat::zero()
                    } else {
                        let num: i64 = if k % 2 == 1 {
                            1
                        } else {
                            -1
                        };
                        Rat { num, den: k as i64 }
                    }
                },
            };
            proof {
                assert(c.frac() == mac_coef(fun, max_p as nat, k as int));
            }
            out.push(c);
            if !is_ln && k < max_p {
                let kk = k + 1;
                let lim = i64::MAX / (kk as i64);
                if fact_val > lim {
                    proof {
                        vstd::arithmetic::div_mod::lemma_fundamental_div_mod(
                            i64::MAX as int,
                            kk as int,
                        );
                        assert((kk as int) * (fact_val as int) > i64::MAX) by (nonlinear_arith)
                            requires
                                fact_val as int > (i64::MAX as int) / (kk as int),
                                i64::MAX as int == (kk as int) * ((i64::MAX as int) / (kk as int))
                                    + (i64::MAX as int) % (kk as int),
                                0 <= (i64::MAX as int) % (kk as int) < kk as int,
                                kk as int >= 1,
                        {
                        }
                        assert(fact(kk as nat) > i64::MAX);
                        lemma_fact_mono(kk as nat, max_p as nat);
                    }
                    return Err(SeriesError::Overflow);
                }
                proof {
                    vstd::arithmetic::div_mod::lemma_fundamental_div_mod(
                        i64::MAX as int,
                        kk as int,
                    );
                    assert((fact_val as int) * (kk as int) <= i64::MAX) by (nonlinear_arith)
                        requires
                            fact_val as int <= (i64::MAX as int) / (kk as int),
                            i64::MAX as int == (kk as int) * ((i64::MAX as int) / (kk as int)) + (
                            i64::MAX as int) % (kk as int),
                            0 <= (i64::MAX as int) % (kk as int) < kk as int,
                            kk as int >= 1,
                            fact_val >= 1,
                    {
                    }
                    assert((fact_val as int) * (kk as int) >= 1) by (nonlinear_arith)
                        requires
                            fact_val as int >= 1,
                            kk as int >= 1,
                    {
                    }
                }
                proof {
                    assert(fact(kk as nat) == (kk as nat) * fact(k as nat));
                    assert((fact_val as int) * (kk as int) == (kk as int) * (fact_val as int))
                        by (nonlinear_arith)
                    {
                    }
                }
                fact_val = fact_val * (kk as i64);
            }
            k += 1;
        }
        while k < DEFAULT_MAX_POW
            invariant
                max_p < DEFAULT_MAX_POW,
                fun matches (Func::Sin | Func::Cos | Func::Ln | Func::Exp),
                is_ln == (fun matches Func::Ln),
                max_p < k <= DEFAULT_MAX_POW,
                out.len() == k,
                !is_ln ==> fact_val as nat == fact(max_p as nat),
                fact_val >= 1,
                forall|i: int|
                    0 <= i < k ==> (#[trigger] out[i]).wf() && out[i].frac() == mac_coef(
                        fun,
                        max_p as nat,
                        i,
                    ),
            decreases DEFAULT_MAX_POW - k,
        {
            out.push(Rat::zero());
            k += 1;
        }
        Ok(TsPoly { coefs: out, max_pow: max_p })
    }

    /// Re-center a series: redistribute each coefficient through the
    /// binomial expansion of `(x + a)^p`, where `a` is the negated offset.
    #[verifier::loop_isolation(false)]
    fn taylor_shift(p: &TsPoly, a: &Rat) -> (r: Result<TsPoly, SeriesError>)
        requires
            p.wf(),
            a.wf(),
        ensures
            r matches Ok(c) ==> c.wf() && c.max_pow == p.max_pow && (forall|j: int|
                0 <= j < DEFAULT_MAX_POW ==> frac_eq(
                    #[trigger] c.fseq()[j],
                    frac_add(
                        p.fseq()[j],
                        shift_tail(p.fseq(), a.frac(), j, (DEFAULT_MAX_POW - 1) as int),
                    ),
                )),
            r matches Err(e) ==> e == SeriesError::Overflow,
    {
        let mut out: Vec<Rat> = Vec::new();
        let mut j: usize = 0;
        while j < DEFAULT_MAX_POW
            invariant
                p.wf(),
                a.wf(),
                j <= DEFAULT_MAX_POW,
                out.len() == j,
                forall|i: int|
                    0 <= i < j ==> (#[trigger] out[i]).wf() && frac_eq(
                        out[i].frac(),
                        frac_add(
                            p.fseq()[i],
                            shift_tail(p.fseq(), a.frac(), i, (DEFAULT_MAX_POW - 1) as int),
                        ),
                    ),
            decreases DEFAULT_MAX_POW - j,
        {
            let mut acc = Rat::zero();
            let mut apow = Rat::one();
            let mut pp: usize = j + 1;
            while pp < DEFAULT_MAX_POW
                invariant
                    p.wf(),
                    a.wf(),
                    j < DEFAULT_MAX_POW,
                    j + 1 <= pp <= DEFAULT_MAX_POW,
                    acc.wf(),
                    apow.wf(),
                    frac_eq(apow.frac(), pow_frac(a.frac(), (pp - 1 - j) as nat)),
                    frac_eq(acc.frac(), shift_tail(p.fseq(), a.frac(), j as int, pp - 1)),
                decreases DEFAULT_MAX_POW - pp,
            {
                let ghost e = (pp - j) as nat;
                let apow2 = match apow.mul(a) {
                    Option::Some(v) => v,
                    Option::None => {
                        return Err(SeriesError::Overflow);
                    },
                };
                proof {
                    lemma_pow_frac_wf(a.frac(), (e - 1) as nat);
                    lemma_pow_frac_wf(a.frac(), e);
                    lemma_frac_mul_cong(
                        apow.frac(),
                        pow_frac(a.frac(), (e - 1) as nat),
                        a.frac(),
                        a.frac(),
                    );
                    lemma_frac_ops_wf(apow.frac(), a.frac());
                    lemma_frac_eq_trans(
                        apow2.frac(),
                        frac_mul(apow.frac(), a.frac()),
                        pow_frac(a.frac(), e),
                    );
                }
                let bin = Rat::from_int(Self::binom_exec(pp, pp - j));
                let m1 = match bin.mul(&apow2) {
                    Option::Some(v) => v,
                    Option::None => {
                        return Err(SeriesError::Overflow);
                    },
                };
                let term = match p.coefs[pp].mul(&m1) {
                    Option::Some(v) => v,
                    Option::None => {
                        return Err(SeriesError::Overflow);
                    },
                };
                let acc2 = match acc.add(&term) {
                    Option::Some(v) => v,
                    Option::None => {
                        return Err(SeriesError::Overflow);
                    },
                };
                proof {
                    let af = a.frac();
                    let bseq = p.fseq();
                    let ppi = pp as int;
                    let ji = j as int;
                    let bf = Frac { n: binom(ppi as nat, e) as int, d: 1 };
                    assert(bin.frac() == bf);
                    assert(bseq[ppi] == p.coefs[ppi].frac());
                    lemma_pow_frac_wf(af, e);
                    lemma_frac_mul_cong(bin.frac(), bf, apow2.frac(), pow_frac(af, e));
                    lemma_frac_ops_wf(bin.frac(), apow2.frac());
                    lemma_frac_ops_wf(bf, pow_frac(af, e));
                    lemma_frac_eq_trans(
                        m1.frac(),
                        frac_mul(bin.frac(), apow2.frac()),
                        frac_mul(bf, pow_frac(af, e)),
                    );
                    lemma_frac_mul_cong(
                        p.coefs[ppi].frac(),
                        bseq[ppi],
                        m1.frac(),
                        frac_mul(bf, pow_frac(af, e)),
                    );
                    lemma_frac_ops_wf(p.coefs[ppi].frac(), m1.frac());
                    lemma_frac_ops_wf(bseq[ppi], frac_mul(bf, pow_frac(af, e)));
                    lemma_frac_eq_trans(
                        term.frac(),
                        frac_mul(p.coefs[ppi].frac(), m1.frac()),
                        frac_mul(bseq[ppi], frac_mul(bf, pow_frac(af, e))),
                    );
                    lemma_shift_tail_wf(bseq, af, ji, ppi - 1);
                    lemma_shift_tail_wf(bseq, af, ji, ppi);
                    lemma_frac_add_cong(
                        acc.frac(),
                        shift_tail(bseq, af, ji, ppi - 1),
                        term.frac(),
                        frac_mul(bseq[ppi], frac_mul(bf, pow_frac(af, e))),
                    );
                    lemma_frac_ops_wf(acc.frac(), term.frac());
                    lemma_frac_eq_trans(
                        acc2.frac(),
                        frac_add(acc.frac(), term.frac()),
                        shift_tail(bseq, af, ji, ppi),
                    );
                }
                acc = acc2;
                apow = apow2;
                pp += 1;
            }
            let nv = match p.coefs[j].add(&acc) {
                Option::Some(v) => v,
                Option::None => {
                    return Err(SeriesError::Overflow);
                },
            };
            proof {
                let bseq = p.fseq();
                let af = a.frac();
                let ji = j as int;
                let top = (DEFAULT_MAX_POW - 1) as int;
                assert(bseq[ji] == p.coefs[ji].frac());
                lemma_shift_tail_wf(bseq, af, ji, top);
                lemma_frac_add_cong(
                    p.coefs[ji].frac(),
                    bseq[ji],
                    acc.frac(),
                    shift_tail(bseq, af, ji, top),
                );
                lemma_frac_ops_wf(p.coefs[ji].frac(), acc.frac());
                lemma_frac_ops_wf(bseq[ji], shift_tail(bseq, af, ji, top));
                lemma_frac_eq_trans(
                    nv.frac(),
                    frac_add(p.coefs[ji].frac(), acc.frac()),
                    frac_add(bseq[ji], shift_tail(bseq, af, ji, top)),
                );
            }
            out.push(nv);
            j += 1;
        }
        Ok(TsPoly { coefs: out, max_pow: p.max_pow })
    }

    /// Taylor polynomial for an elementary-function tag about offset `a`,
    /// truncated at degree `max_p`. The Maclaurin window follows the
    /// closed-form rules (`mac_coef`); the tangent divides sine's window by
    /// cosine's; a nonzero offset re-centers through the binomial shift.
    /// A degree outside the window and a tag without a rule are rejected,
    /// each reported with the offending value.
    ///
    /// Note that the derived tangent window is all zero: sine's constant
    /// coefficient is zero, and a long-division step runs only while the
    /// remainder's constant coefficient is nonzero, so no step ever fires.
    /// That is the literal consequence of the division rule, kept as the
    /// stated behaviour rather than corrected.
    #[verifier::loop_isolation(false)]
    pub fn from_func(fun: Func, offset: Rat, max_p: usize) -> (r: Result<TsPoly, SeriesError>)
        requires
            offset.wf(),
        ensures
            max_p >= DEFAULT_MAX_POW <==> (r matches Err(e) && e == (
            SeriesError::DegreeTooLarge { requested: max_p })),
            max_p < DEFAULT_MAX_POW ==> ((r matches Err(e) && e == (SeriesError::UnsupportedTag {
                tag: fun,
            })) <==> !supported_tag(fun)),
            r matches Ok(p) ==> p.wf() && p.max_pow == max_p,
            r matches Ok(p) ==> (fun != Func::Tg && frac_is_zero(offset.frac()) ==> (forall|k: int|
                0 <= k < DEFAULT_MAX_POW ==> frac_eq(
                    #[trigger] p.fseq()[k],
                    mac_seq(fun, max_p as nat)[k],
                ))),
            r matches Ok(p) ==> (fun == Func::Tg && frac_is_zero(offset.frac()) ==> ({
                &&& tan_base(max_p as nat) matches Option::Some(q)
                &&& forall|k: int|
                    0 <= k < DEFAULT_MAX_POW ==> frac_eq(
                        #[trigger] p.fseq()[k],
                        tan_base(max_p as nat)->Some_0[k],
                    )
            })),
            r matches Ok(p) ==> (fun != Func::Tg && !frac_is_zero(offset.frac()) ==> (forall|
                k: int,
            |
                0 <= k < DEFAULT_MAX_POW ==> frac_eq(
                    #[trigger] p.fseq()[k],
                    frac_add(
                        mac_seq(fun, max_p as nat)[k],
                        shift_tail(
                            mac_seq(fun, max_p as nat),
                            neg_frac(offset.frac()),
                            k,
                            (DEFAULT_MAX_POW - 1) as int,
                        ),
                    ),
                ))),
            r matches Ok(p) ==> (fun == Func::Tg && !frac_is_zero(offset.frac()) ==> ({
                &&& tan_base(max_p as nat) matches Option::Some(q)
                &&& forall|k: int|
                    0 <= k < DEFAULT_MAX_POW ==> frac_eq(
                        #[trigger] p.fseq()[k],
                        frac_add(
                            tan_base(max_p as nat)->Some_0[k],
                            shift_tail(
                                tan_base(max_p as nat)->Some_0,
                                neg_frac(offset.frac()),
                                k,
                                (DEFAULT_MAX_POW - 1) as int,
                            ),
                        ),
                    )
            })),
            supported_tag(fun) && max_p <= 20 && frac_is_zero(offset.frac()) && max_p
                < DEFAULT_MAX_POW ==> r is Ok,
            r matches Err(e) ==> (e == (SeriesError::DegreeTooLarge { requested: max_p }) || e
                == (SeriesError::UnsupportedTag { tag: fun }) || e == SeriesError::Overflow || e
                == SeriesError::ZeroLeadingCoefficient),
    {
        if max_p >= DEFAULT_MAX_POW {
            return Err(SeriesError::DegreeTooLarge { requested: max_p });
        }
        proof {
            if max_p <= 20 {
                lemma_fact_mono(max_p as nat, 20);
                assert(fact(20) == 2432902008176640000) by {
                    reveal_with_fuel(fact, 21);
                }
            }
        }
        let base: TsPoly = match fun {
            Func::Sin | Func::Cos | Func::Ln | Func::Exp => {
                match Self::generate_closed(fun, max_p) {
                    Ok(p) => p,
                    Err(e) => {
                        return Err(e);
                    },
                }
            },
            Func::Tg => {
                let sp = match Self::generate_closed(Func::Sin, max_p) {
                    Ok(p) => p,
                    Err(e) => {
                        return Err(e);
                    },
                };
                let cp = match Self::generate_closed(Func::Cos, max_p) {
                    Ok(p) => p,
                    Err(e) => {
                        return Err(e);
                    },
                };
                proof {
                    assert(sp.fseq() =~= mac_seq(Func::Sin, max_p as nat));
                    assert(cp.fseq() =~= mac_seq(Func::Cos, max_p as nat));
                    // The cosine window's constant coefficient is one, so the
                    // division below never sees the zero series; the sine
                    // window's constant coefficient is zero, so no division
                    // step applies and the quotient is owed.
                    assert(cp.fseq()[0] == (Frac { n: 1, d: fact(0) as int }));
                    assert(!frac_is_zero(cp.fseq()[0]));
                    assert(sp.fseq()[0] == mac_coef(Func::Sin, max_p as nat, 0));
                    assert(frac_is_zero(sp.fseq()[0]));
                }
                let q = match sp.div(&cp) {
                    Ok(q) => q,
                    Err(e) => {
                        return Err(e);
                    },
                };
                let b = TsPoly { coefs: q.coefs, max_pow: max_p };
                proof {
                    assert(tan_base(max_p as nat) == div_loop(
                        sp.fseq(),
                        sp.max_pow as nat,
                        cp.fseq(),
                        cp.max_pow as nat,
                        zero_seq(),
                    ));
                    assert(tan_base(max_p as nat) is Some);
                    assert(b.fseq() =~= q.fseq());
                    assert(forall|k: int|
                        0 <= k < DEFAULT_MAX_POW ==> frac_eq(
                            #[trigger] b.fseq()[k],
                            tan_base(max_p as nat)->Some_0[k],
                        ));
                }
                b
            },
            _ => {
                return Err(SeriesError::UnsupportedTag { tag: fun });
            },
        };
        let ghost base_cls: Seq<Frac> = if fun == Func::Tg {
            tan_base(max_p as nat)->Some_0
        } else {
            mac_seq(fun, max_p as nat)
        };
        proof {
            assert(base.wf());
            assert(base.max_pow == max_p);
            assert forall|k: int| 0 <= k < DEFAULT_MAX_POW implies frac_eq(
                #[trigger] base.fseq()[k],
                base_cls[k],
            ) by {
                if fun != Func::Tg {
                    assert(base.fseq()[k] == mac_coef(fun, max_p as nat, k));
                    assert(base_cls[k] == mac_coef(fun, max_p as nat, k));
                }
            }
            assert(base_cls.len() == DEFAULT_MAX_POW);
            lemma_mac_seq_wf(fun, max_p as nat);
            if fun == Func::Tg {
                lemma_mac_seq_wf(Func::Sin, max_p as nat);
                lemma_mac_seq_wf(Func::Cos, max_p as nat);
                lemma_div_loop_wf(
                    mac_seq(Func::Sin, max_p as nat),
                    max_p as nat,
                    mac_seq(Func::Cos, max_p as nat),
                    max_p as nat,
                    zero_seq(),
                );
            }
            assert(forall|k: int| 0 <= k < DEFAULT_MAX_POW ==> frac_wf(#[trigger] base_cls[k]));
        }
        if offset.is_zero() {
            return Ok(base);
        }
        let negoff = match Rat::zero().sub(&offset) {
            Option::Some(v) => v,
            Option::None => {
                return Err(SeriesError::Overflow);
            },
        };
        proof {
            assert(frac_eq(negoff.frac(), neg_frac(offset.frac()))) by {
                assert(frac_eq(negoff.frac(), frac_sub(frac_zero(), offset.frac())));
                assert(frac_sub(frac_zero(), offset.frac()).d == 1 * offset.frac().d);
                assert(frac_eq(frac_sub(frac_zero(), offset.frac()), neg_frac(offset.frac())))
                    by (nonlinear_arith)
                    requires
                        offset.frac().d > 0,
                {
                }
                lemma_frac_ops_wf(frac_zero(), offset.frac());
                lemma_frac_eq_trans(
                    negoff.frac(),
                    frac_sub(frac_zero(), offset.frac()),
                    neg_frac(offset.frac()),
                );
            }
        }
        let shifted = match Self::taylor_shift(&base, &negoff) {
            Ok(p) => p,
            Err(e) => {
                return Err(e);
            },
        };
        proof {
            let top = (DEFAULT_MAX_POW - 1) as int;
            let nf = neg_frac(offset.frac());
            assert(frac_wf(nf));
            assert forall|k: int| 0 <= k < DEFAULT_MAX_POW implies frac_eq(
                #[trigger] shifted.fseq()[k],
                frac_add(base_cls[k], shift_tail(base_cls, nf, k, top)),
            ) by {
                lemma_shift_tail_cong(base.fseq(), base_cls, negoff.frac(), nf, k, top);
                lemma_shift_tail_wf(base.fseq(), negoff.frac(), k, top);
                lemma_shift_tail_wf(base_cls, nf, k, top);
                lemma_frac_add_cong(
                    base.fseq()[k],
                    base_cls[k],
                    shift_tail(base.fseq(), negoff.frac(), k, top),
                    shift_tail(base_cls, nf, k, top),
                );
                lemma_frac_ops_wf(base.fseq()[k], shift_tail(base.fseq(), negoff.frac(), k, top));
                lemma_frac_ops_wf(base_cls[k], shift_tail(base_cls, nf, k, top));
                lemma_frac_eq_trans(
                    shifted.fseq()[k],
                    frac_add(base.fseq()[k], shift_tail(base.fseq(), negoff.frac(), k, top)),
                    frac_add(base_cls[k], shift_tail(base_cls, nf, k, top)),
                );
            }
        }
        Ok(shifted)
    }
}

} // verus!
