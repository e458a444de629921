//! Exact complex amplitudes.
//!
//! An `Amplitude` stores the Gaussian-integer numerator of one complex
//! amplitude; the enclosing state carries a register-wide denominator of
//! `sqrt(2)^scale`. The ghost type `Cpx` is the mathematical value of a
//! numerator, and the lemmas here are the complex-arithmetic facts behind
//! the norm-preservation theorem for unitary gates.

use vstd::prelude::*;
use vstd::arithmetic::power2::pow2;
use vstd::arithmetic::mul::{
    lemma_mul_is_associative,
    lemma_mul_is_commutative,
    lemma_mul_is_distributive_add,
    lemma_mul_is_distributive_add_other_way,
    lemma_mul_is_distributive_sub,
    lemma_mul_is_distributive_sub_other_way,
    lemma_mul_unary_negation,
};

verus! {

/// A mathematical Gaussian integer: a complex number with integer real and
/// imaginary parts.
pub ghost struct Cpx {
    pub re: int,
    pub im: int,
}

/// The complex number zero.
pub open spec fn czero() -> Cpx {
    Cpx { re: 0, im: 0 }
}

/// Complex addition.
pub open spec fn cadd(x: Cpx, y: Cpx) -> Cpx {
    Cpx { re: x.re + y.re, im: x.im + y.im }
}

/// Complex multiplication.
pub open spec fn cmul(x: Cpx, y: Cpx) -> Cpx {
    Cpx { re: x.re * y.re - x.im * y.im, im: x.re * y.im + x.im * y.re }
}

/// Complex conjugation.
pub open spec fn cconj(x: Cpx) -> Cpx {
    Cpx { re: x.re, im: -x.im }
}

/// The squared magnitude `|x|^2`, a nonnegative integer.
pub open spec fn cnormsq(x: Cpx) -> int {
    x.re * x.re + x.im * x.im
}

/// The real inner product of two complex numbers, `Re(conj(x) * y)`.
pub open spec fn cdot(x: Cpx, y: Cpx) -> int {
    x.re * y.re + x.im * y.im
}

/// One stored amplitude numerator: a Gaussian integer in machine words.
#[derive(Clone, Copy, Debug, PartialEq, Eq, Structural)]
pub struct Amplitude {
    pub re: i64,
    pub im: i64,
}

impl View for Amplitude {
    type V = Cpx;

    open spec fn view(&self) -> Cpx {
        Cpx { re: self.re as int, im: self.im as int }
    }
}

/// The mathematical values of a sequence of stored amplitudes.
pub open spec fn views(s: Seq<Amplitude>) -> Seq<Cpx> {
    s.map_values(|a: Amplitude| a@)
}

/// The total Born weight of an amplitude vector: the sum of the squared
/// magnitudes of its entries.
pub open spec fn total_weight(s: Seq<Cpx>) -> int
    decreases s.len(),
{
    if s.len() == 0 {
        0
    } else {
        total_weight(s.drop_last()) + cnormsq(s.last())
    }
}

pub proof fn lemma_cnormsq_nonneg(x: Cpx)
    ensures
        cnormsq(x) >= 0,
{
    assert(x.re * x.re >= 0) by (nonlinear_arith);
    assert(x.im * x.im >= 0) by (nonlinear_arith);
}

/// `|x + y|^2 == |x|^2 + |y|^2 + 2 * Re(conj(x) * y)`.
pub proof fn lemma_cnormsq_add(x: Cpx, y: Cpx)
    ensures
        cnormsq(cadd(x, y)) == cnormsq(x) + cnormsq(y) + 2 * cdot(x, y),
{
    assert((x.re + y.re) * (x.re + y.re) + (x.im + y.im) * (x.im + y.im) == x.re * x.re + x.im
        * x.im + y.re * y.re + y.im * y.im + 2 * (x.re * y.re + x.im * y.im))
        by (nonlinear_arith);
}

/// Complex multiplication is commutative.
pub proof fn lemma_cmul_comm(x: Cpx, y: Cpx)
    ensures
        cmul(x, y) == cmul(y, x),
{
}

/// Complex multiplication is associative.
pub proof fn lemma_cmul_assoc(x: Cpx, y: Cpx, z: Cpx)
    ensures
        cmul(cmul(x, y), z) == cmul(x, cmul(y, z)),
{
    lemma_mul_is_distributive_sub_other_way(z.re, x.re * y.re, x.im * y.im);
    lemma_mul_is_distributive_add_other_way(z.im, x.re * y.im, x.im * y.re);
    lemma_mul_is_distributive_sub_other_way(z.im, x.re * y.re, x.im * y.im);
    lemma_mul_is_distributive_add_other_way(z.re, x.re * y.im, x.im * y.re);
    lemma_mul_is_distributive_sub(x.re, y.re * z.re, y.im * z.im);
    lemma_mul_is_distributive_add(x.im, y.re * z.im, y.im * z.re);
    lemma_mul_is_distributive_add(x.re, y.re * z.im, y.im * z.re);
    lemma_mul_is_distributive_sub(x.im, y.re * z.re, y.im * z.im);
    lemma_mul_is_associative(x.re, y.re, z.re);
    lemma_mul_is_associative(x.re, y.re, z.im);
    lemma_mul_is_associative(x.re, y.im, z.re);
    lemma_mul_is_associative(x.re, y.im, z.im);
    lemma_mul_is_associative(x.im, y.re, z.re);
    lemma_mul_is_associative(x.im, y.re, z.im);
    lemma_mul_is_associative(x.im, y.im, z.re);
    lemma_mul_is_associative(x.im, y.im, z.im);
}

/// Conjugation distributes over multiplication.
pub proof fn lemma_cconj_mul(x: Cpx, y: Cpx)
    ensures
        cconj(cmul(x, y)) == cmul(cconj(x), cconj(y)),
{
    lemma_mul_unary_negation(x.re, y.im);
    lemma_mul_unary_negation(x.im, y.re);
    lemma_mul_unary_negation(x.im, y.im);
    lemma_mul_unary_negation(-x.im, y.im);
    assert((-x.im) * (-y.im) == x.im * y.im);
}

/// Rearranging a product of four factors: `(x y)(z w) == (x z)(y w)`.
pub proof fn lemma_cmul_exchange(x: Cpx, y: Cpx, z: Cpx, w: Cpx)
    ensures
        cmul(cmul(x, y), cmul(z, w)) == cmul(cmul(x, z), cmul(y, w)),
{
    lemma_cmul_assoc(x, y, cmul(z, w));
    // y (z w) == z (y w)
    lemma_cmul_assoc(y, z, w);
    lemma_cmul_comm(y, z);
    lemma_cmul_assoc(z, y, w);
    assert(cmul(y, cmul(z, w)) == cmul(z, cmul(y, w)));
    lemma_cmul_assoc(x, z, cmul(y, w));
}

/// `x * conj(x)` is the real number `|x|^2`.
pub proof fn lemma_cnormsq_as_cmul(x: Cpx)
    ensures
        cmul(x, cconj(x)) == (Cpx { re: cnormsq(x), im: 0 }),
{
    lemma_mul_unary_negation(x.im, x.im);
    lemma_mul_unary_negation(x.re, x.im);
    lemma_mul_is_commutative(x.im, x.re);
}

/// `|x * y|^2 == |x|^2 * |y|^2`.
pub proof fn lemma_cnormsq_mul(x: Cpx, y: Cpx)
    ensures
        cnormsq(cmul(x, y)) == cnormsq(x) * cnormsq(y),
{
    let p = cmul(x, y);
    lemma_cnormsq_as_cmul(p);
    lemma_cconj_mul(x, y);
    lemma_cmul_exchange(x, y, cconj(x), cconj(y));
    lemma_cnormsq_as_cmul(x);
    lemma_cnormsq_as_cmul(y);
    assert(cmul(p, cconj(p)) == cmul(
        Cpx { re: cnormsq(x), im: 0 },
        Cpx { re: cnormsq(y), im: 0 },
    ));
}

/// The real inner product is the real part of `conj(x) * y`.
pub proof fn lemma_cdot_as_re(x: Cpx, y: Cpx)
    ensures
        cdot(x, y) == cmul(cconj(x), y).re,
{
    lemma_mul_unary_negation(x.im, y.im);
}

/// The inner product of two products factors through conjugates:
/// `Re(conj(g a) * (h b)) == Re((conj(g) h) * (conj(a) b))`.
pub proof fn lemma_cdot_mul(g: Cpx, a: Cpx, h: Cpx, b: Cpx)
    ensures
        cdot(cmul(g, a), cmul(h, b)) == cmul(cmul(cconj(g), h), cmul(cconj(a), b)).re,
{
    lemma_cdot_as_re(cmul(g, a), cmul(h, b));
    lemma_cconj_mul(g, a);
    lemma_cmul_exchange(cconj(g), cconj(a), h, b);
    assert(cmul(cconj(cmul(g, a)), cmul(h, b)) == cmul(cmul(cconj(g), h), cmul(cconj(a), b)));
}

/// Multiplication distributes over addition on the left factor.
pub proof fn lemma_cmul_add_left(u: Cpx, v: Cpx, z: Cpx)
    ensures
        cmul(cadd(u, v), z) == cadd(cmul(u, z), cmul(v, z)),
{
    assert((u.re + v.re) * z.re - (u.im + v.im) * z.im == (u.re * z.re - u.im * z.im) + (v.re * z.re
        - v.im * z.im)) by (nonlinear_arith);
    assert((u.re + v.re) * z.im + (u.im + v.im) * z.re == (u.re * z.im + u.im * z.re) + (v.re * z.im
        + v.im * z.re)) by (nonlinear_arith);
}

/// The two columns of a unitary pair of rows carry the whole weight:
/// if the 2x2 matrix `[[e00, e01], [e10, e11]]` has orthogonal columns of
/// squared norm `pow2(s)`, then applying it to any pair of amplitudes
/// scales the pair's total weight by exactly `pow2(s)`.
pub proof fn lemma_unitary_pair_weight(
    e00: Cpx,
    e01: Cpx,
    e10: Cpx,
    e11: Cpx,
    s: nat,
    a0: Cpx,
    a1: Cpx,
)
    requires
        cnormsq(e00) + cnormsq(e10) == pow2(s),
        cnormsq(e01) + cnormsq(e11) == pow2(s),
        cadd(cmul(cconj(e00), e01), cmul(cconj(e10), e11)) == czero(),
    ensures
        cnormsq(cadd(cmul(e00, a0), cmul(e01, a1))) + cnormsq(cadd(cmul(e10, a0), cmul(e11, a1)))
            == pow2(s) * (cnormsq(a0) + cnormsq(a1)),
{
    let p = cmul(e00, a0);
    let q = cmul(e01, a1);
    let r = cmul(e10, a0);
    let t = cmul(e11, a1);
    lemma_cnormsq_add(p, q);
    lemma_cnormsq_add(r, t);
    lemma_cnormsq_mul(e00, a0);
    lemma_cnormsq_mul(e01, a1);
    lemma_cnormsq_mul(e10, a0);
    lemma_cnormsq_mul(e11, a1);
    // The cross terms cancel by column orthogonality.
    let u = cmul(cconj(e00), e01);
    let v = cmul(cconj(e10), e11);
    let z = cmul(cconj(a0), a1);
    lemma_cdot_mul(e00, a0, e01, a1);
    lemma_cdot_mul(e10, a0, e11, a1);
    lemma_cmul_add_left(u, v, z);
    assert(cmul(cadd(u, v), z) == czero());
    assert(cdot(p, q) + cdot(r, t) == 0);
    // Group the squared-norm terms by column.
    assert((cnormsq(e00) * cnormsq(a0)) + (cnormsq(e10) * cnormsq(a0)) == pow2(s) * cnormsq(a0))
        by (nonlinear_arith)
        requires
            cnormsq(e00) + cnormsq(e10) == pow2(s),
    ;
    assert((cnormsq(e01) * cnormsq(a1)) + (cnormsq(e11) * cnormsq(a1)) == pow2(s) * cnormsq(a1))
        by (nonlinear_arith)
        requires
            cnormsq(e01) + cnormsq(e11) == pow2(s),
    ;
    assert(pow2(s) * cnormsq(a0) + pow2(s) * cnormsq(a1) == pow2(s) * (cnormsq(a0) + cnormsq(a1)))
        by (nonlinear_arith);
}

/// The total weight of a vector splits at any cut point.
pub proof fn lemma_total_weight_split(s: Seq<Cpx>, i: int)
    requires
        0 <= i <= s.len(),
    ensures
        total_weight(s) == total_weight(s.take(i)) + total_weight(s.skip(i)),
    decreases s.len() - i,
{
    if i == s.len() {
        assert(s.take(i) =~= s);
        assert(s.skip(i) =~= Seq::<Cpx>::empty());
    } else {
        lemma_total_weight_split(s.drop_last(), i);
        assert(s.drop_last().take(i) =~= s.take(i));
        assert(s.skip(i).len() > 0);
        assert(s.skip(i).last() == s.last());
        assert(s.skip(i).drop_last() =~= s.drop_last().skip(i));
    }
}

pub proof fn lemma_total_weight_nonneg(s: Seq<Cpx>)
    ensures
        total_weight(s) >= 0,
    decreases s.len(),
{
    if s.len() > 0 {
        lemma_total_weight_nonneg(s.drop_last());
        lemma_cnormsq_nonneg(s.last());
    }
}

/// Replacing one entry changes the total weight by the weight difference.
pub proof fn lemma_total_weight_update(s: Seq<Cpx>, i: int, x: Cpx)
    requires
        0 <= i < s.len(),
    ensures
        total_weight(s.update(i, x)) == total_weight(s) - cnormsq(s[i]) + cnormsq(x),
    decreases s.len(),
{
    if i == s.len() - 1 {
        assert(s.update(i, x).drop_last() =~= s.drop_last());
        assert(s.update(i, x).last() == x);
    } else {
        lemma_total_weight_update(s.drop_last(), i, x);
        assert(s.update(i, x).drop_last() =~= s.drop_last().update(i, x));
        assert(s.update(i, x).last() == s.last());
    }
}

/// No single entry outweighs the whole vector.
pub proof fn lemma_element_weight_le_total(s: Seq<Cpx>, i: int)
    requires
        0 <= i < s.len(),
    ensures
        cnormsq(s[i]) <= total_weight(s),
    decreases s.len(),
{
    lemma_cnormsq_nonneg(s.last());
    if i == s.len() - 1 {
        lemma_total_weight_nonneg(s.drop_last());
    } else {
        lemma_element_weight_le_total(s.drop_last(), i);
        assert(s.drop_last()[i] == s[i]);
    }
}

/// An integer whose square is at most `pow2(62)` lies within `pow2(31)`.
pub proof fn lemma_sq_root_bound(v: int)
    requires
        v * v <= 0x4000_0000_0000_0000,
    ensures
        -0x8000_0000 <= v <= 0x8000_0000,
{
    assert(v > 0x8000_0000 ==> v * v > 0x4000_0000_0000_0000) by (nonlinear_arith);
    assert(v < -0x8000_0000 ==> v * v > 0x4000_0000_0000_0000) by (nonlinear_arith);
}

/// Component and product bounds used to rule out machine overflow when a
/// gate entry multiplies an amplitude: if `|e|^2 <= pow2(s)`,
/// `|a|^2 <= pow2(k)` and `s + k <= 62`, every component product is within
/// `pow2(31)`.
pub proof fn lemma_product_bound(e: Cpx, a: Cpx, s: nat, k: nat)
    requires
        cnormsq(e) <= pow2(s),
        cnormsq(a) <= pow2(k),
        s + k <= 62,
    ensures
        -0x8000_0000 <= e.re * a.re <= 0x8000_0000,
        -0x8000_0000 <= e.re * a.im <= 0x8000_0000,
        -0x8000_0000 <= e.im * a.re <= 0x8000_0000,
        -0x8000_0000 <= e.im * a.im <= 0x8000_0000,
{
    vstd::arithmetic::power2::lemma_pow2_adds(s, k);
    if s + k < 62 {
        vstd::arithmetic::power2::lemma_pow2_strictly_increases((s + k) as nat, 62);
    }
    assert(pow2(62) == 0x4000_0000_0000_0000) by {
        vstd::arithmetic::power2::lemma2_to64_rest();
    }
    assert(pow2(s) * pow2(k) <= 0x4000_0000_0000_0000);
    lemma_cnormsq_nonneg(e);
    lemma_cnormsq_nonneg(a);
    let lim = (pow2(s) * pow2(k)) as int;
    assert(e.re * e.re <= cnormsq(e) && e.im * e.im <= cnormsq(e)) by (nonlinear_arith);
    assert(a.re * a.re <= cnormsq(a) && a.im * a.im <= cnormsq(a)) by (nonlinear_arith);
    lemma_prod_sq_bound(e.re, a.re, pow2(s) as int, pow2(k) as int);
    lemma_prod_sq_bound(e.re, a.im, pow2(s) as int, pow2(k) as int);
    lemma_prod_sq_bound(e.im, a.re, pow2(s) as int, pow2(k) as int);
    lemma_prod_sq_bound(e.im, a.im, pow2(s) as int, pow2(k) as int);
    lemma_sq_root_bound(e.re * a.re);
    lemma_sq_root_bound(e.re * a.im);
    lemma_sq_root_bound(e.im * a.re);
    lemma_sq_root_bound(e.im * a.im);
}

/// The square of a product of bounded factors is bounded by the product of
/// the bounds.
proof fn lemma_prod_sq_bound(x: int, y: int, bx: int, by_: int)
    requires
        x * x <= bx,
        y * y <= by_,
        bx >= 0,
        by_ >= 0,
        bx * by_ <= 0x4000_0000_0000_0000,
    ensures
        (x * y) * (x * y) <= 0x4000_0000_0000_0000,
{
    assert((x * y) * (x * y) == (x * x) * (y * y)) by (nonlinear_arith);
    assert(x * x >= 0 && y * y >= 0) by (nonlinear_arith);
    assert((x * x) * (y * y) <= bx * by_) by (nonlinear_arith)
        requires
            0 <= x * x <= bx,
            0 <= y * y <= by_,
    ;
}

} // verus!
