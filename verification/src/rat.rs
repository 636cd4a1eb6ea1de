//! Exact rational scalars.
//!
//! Every scalar of the kernel is a fraction of two 64-bit integers, kept in
//! lowest terms with a positive denominator. Specifications speak about the
//! mathematical value through the ghost type [`Qv`], an integer numerator over
//! a positive integer denominator, compared with cross multiplication so that
//! the statements are independent of the chosen representative.

use vstd::arithmetic::div_mod::{
    lemma_div_non_zero, lemma_fundamental_div_mod, lemma_fundamental_div_mod_converse,
};
use vstd::prelude::*;

verus! {

/// Mathematical value of a rational number: `num / den`. Spec-level only;
/// a `Qv` built by the spec operators below is not reduced to lowest terms.
pub ghost struct Qv {
    pub num: int,
    pub den: int,
}

pub open spec fn q_make(num: int, den: int) -> Qv {
    Qv { num, den }
}

/// A well-formed rational value keeps its denominator positive.
pub open spec fn q_wf(q: Qv) -> bool {
    q.den > 0
}

/// Equality of the represented fractions, by cross multiplication.
pub open spec fn q_eq(a: Qv, b: Qv) -> bool {
    a.num * b.den == b.num * a.den
}

/// Strict order of the represented fractions; meaningful for well-formed values.
pub open spec fn q_lt(a: Qv, b: Qv) -> bool {
    a.num * b.den < b.num * a.den
}

pub open spec fn q_le(a: Qv, b: Qv) -> bool {
    a.num * b.den <= b.num * a.den
}

pub open spec fn q_zero() -> Qv {
    q_make(0, 1)
}

pub open spec fn q_one() -> Qv {
    q_make(1, 1)
}

pub open spec fn q_int(n: int) -> Qv {
    q_make(n, 1)
}

pub open spec fn q_add(a: Qv, b: Qv) -> Qv {
    q_make(a.num * b.den + b.num * a.den, a.den * b.den)
}

pub open spec fn q_neg(a: Qv) -> Qv {
    q_make(-a.num, a.den)
}

pub open spec fn q_sub(a: Qv, b: Qv) -> Qv {
    q_add(a, q_neg(b))
}

pub open spec fn q_mul(a: Qv, b: Qv) -> Qv {
    q_make(a.num * b.num, a.den * b.den)
}

/// Division keeps the denominator positive by moving the divisor's sign into
/// the numerator. Meaningful only when `b.num != 0`.
pub open spec fn q_div(a: Qv, b: Qv) -> Qv {
    if b.num >= 0 {
        q_make(a.num * b.den, a.den * b.num)
    } else {
        q_make(-(a.num * b.den), -(a.den * b.num))
    }
}

pub open spec fn abs_i(n: int) -> nat {
    if n >= 0 {
        n as nat
    } else {
        (-n) as nat
    }
}

/// Greatest common divisor, by Euclid's recurrence.
pub open spec fn gcd(a: nat, b: nat) -> nat
    decreases b,
{
    if b == 0 {
        a
    } else {
        gcd(b, a % b)
    }
}

/// `d` divides `n` exactly.
pub open spec fn divides(d: nat, n: nat) -> bool {
    exists|k: nat| n == #[trigger] (d * k)
}

/// The reduced form of a well-formed rational value: numerator and
/// denominator divided by their greatest common divisor.
pub open spec fn q_norm(q: Qv) -> Qv {
    let g = gcd(abs_i(q.num), abs_i(q.den)) as int;
    if q.num >= 0 {
        q_make(q.num / g, q.den / g)
    } else {
        q_make(-((abs_i(q.num) as int) / g), q.den / g)
    }
}

pub open spec fn i64_max() -> int {
    0x7fff_ffff_ffff_ffff
}

/// The value fits the executable representation: a numerator in
/// `[-i64::MAX, i64::MAX]` over a denominator in `[1, i64::MAX]`.
pub open spec fn q_fits(q: Qv) -> bool {
    &&& -i64_max() <= q.num <= i64_max()
    &&& 1 <= q.den <= i64_max()
}

/// The exact value `q`, once reduced to lowest terms, fits the executable
/// representation. Every checked operation below succeeds exactly when this
/// holds of its exact result.
pub open spec fn q_ok(q: Qv) -> bool {
    q_fits(q_norm(q))
}

// ---------------------------------------------------------------------------
// Facts about gcd and reduction.
// ---------------------------------------------------------------------------

pub proof fn lemma_gcd_pos(a: nat, b: nat)
    requires
        a > 0 || b > 0,
    ensures
        gcd(a, b) >= 1,
    decreases b,
{
    if b > 0 {
        lemma_gcd_pos(b, a % b);
    }
}

pub proof fn lemma_gcd_divides(a: nat, b: nat)
    ensures
        divides(gcd(a, b), a),
        divides(gcd(a, b), b),
    decreases b,
{
    let g = gcd(a, b);
    if b == 0 {
        assert(a == g * 1) by (nonlinear_arith)
            requires
                g == a,
        ;
        assert(b == g * 0) by (nonlinear_arith)
            requires
                b == 0,
        ;
    } else {
        lemma_gcd_divides(b, a % b);
        let k1 = choose|k: nat| b == #[trigger] (g * k);
        let k2 = choose|k: nat| a % b == #[trigger] (g * k);
        let q = (a as int) / (b as int);
        lemma_fundamental_div_mod(a as int, b as int);
        assert(q >= 0) by {
            vstd::arithmetic::div_mod::lemma_div_pos_is_pos(a as int, b as int);
        }
        assert(a == g * ((k1 * q + k2) as nat)) by (nonlinear_arith)
            requires
                a == b * q + (a % b),
                b == g * k1,
                a % b == g * k2,
                q >= 0,
        ;
    }
}

pub proof fn lemma_divides_le(d: nat, n: nat)
    requires
        divides(d, n),
        n > 0,
    ensures
        0 < d <= n,
{
    let k = choose|k: nat| n == #[trigger] (d * k);
    assert(0 < d && d <= n) by (nonlinear_arith)
        requires
            n == d * k,
            n > 0,
    ;
}

pub proof fn lemma_div_exact(n: nat, d: nat)
    requires
        divides(d, n),
        d > 0,
    ensures
        d * (n / d) == n,
{
    let k = choose|k: nat| n == #[trigger] (d * k);
    assert(n == k * d + 0) by (nonlinear_arith)
        requires
            n == d * k,
    ;
    lemma_fundamental_div_mod_converse(n as int, d as int, k as int, 0);
}

/// Reduction keeps the represented value and keeps well-formedness.
pub proof fn lemma_q_norm(q: Qv)
    requires
        q_wf(q),
    ensures
        q_wf(q_norm(q)),
        q_eq(q_norm(q), q),
{
    let na = abs_i(q.num);
    let da = abs_i(q.den);
    let g = gcd(na, da);
    lemma_gcd_pos(na, da);
    lemma_gcd_divides(na, da);
    lemma_div_exact(na, g);
    lemma_div_exact(da, g);
    lemma_divides_le(g, da);
    lemma_div_non_zero(da as int, g as int);
    let qn = (na / g) as int;
    let qd = (da / g) as int;
    if q.num >= 0 {
        assert(qn * q.den == q.num * qd) by (nonlinear_arith)
            requires
                q.num == (g as int) * qn,
                q.den == (g as int) * qd,
        ;
    } else {
        assert((-qn) * q.den == q.num * qd) by (nonlinear_arith)
            requires
                q.num == -((g as int) * qn),
                q.den == (g as int) * qd,
        ;
    }
}

// ---------------------------------------------------------------------------
// The executable scalar.
// ---------------------------------------------------------------------------

/// An exact rational scalar: `num / den` with `den > 0`, kept in lowest terms
/// by every constructor and operation.
#[derive(Clone, Copy, Debug)]
pub struct Rat {
    pub num: i64,
    pub den: i64,
}

impl View for Rat {
    type V = Qv;

    open spec fn view(&self) -> Qv {
        q_make(self.num as int, self.den as int)
    }
}

impl Rat {
    /// Well-formed: positive denominator, and a numerator whose negation
    /// still fits, so that negation can never overflow.
    pub open spec fn wf(&self) -> bool {
        q_fits(self@)
    }

    pub fn zero() -> (r: Rat)
        ensures
            r.wf(),
            r@ == q_zero(),
    {
        Rat { num: 0, den: 1 }
    }

    pub fn one() -> (r: Rat)
        ensures
            r.wf(),
            r@ == q_one(),
    {
        Rat { num: 1, den: 1 }
    }

    pub fn from_int(n: i64) -> (r: Rat)
        requires
            -i64_max() <= n,
        ensures
            r.wf(),
            r@ == q_int(n as int),
    {
        Rat { num: n, den: 1 }
    }

    /// Builds the fraction `num / den`, reduced; `None` when `den` is zero or
    /// the reduced fraction does not fit 64 bits.
    pub fn new(num: i64, den: i64) -> (r: Option<Rat>)
        ensures
            r matches Some(v) ==> v.wf() && v@ == q_norm(q_signed(num as int, den as int))
                && q_eq(v@, q_make(num as int, den as int)),
            r is Some <==> den != 0 && q_ok(q_signed(num as int, den as int)),
    {
        if den == 0 {
            return None;
        }
        let n128 = num as i128;
        let d128 = den as i128;
        let (n, d) = if d128 < 0 {
            (-n128, -d128)
        } else {
            (n128, d128)
        };
        let r = mk_rat(n, d);
        proof {
            lemma_q_signed(num as int, den as int);
            if r is Some {
                let v = r->0;
                lemma_q_norm(q_signed(num as int, den as int));
                lemma_q_eq_trans(
                    v@,
                    q_signed(num as int, den as int),
                    q_make(num as int, den as int),
                );
            }
        }
        r
    }

    pub fn is_zero(&self) -> (r: bool)
        requires
            self.wf(),
        ensures
            r <==> q_eq(self@, q_zero()),
    {
        self.num == 0
    }

    pub fn neg(&self) -> (r: Rat)
        requires
            self.wf(),
        ensures
            r.wf(),
            r@ == q_neg(self@),
    {
        Rat { num: -self.num, den: self.den }
    }

    pub fn checked_add(&self, other: &Rat) -> (r: Option<Rat>)
        requires
            self.wf(),
            other.wf(),
        ensures
            r matches Some(v) ==> v.wf() && v@ == q_norm(q_add(self@, other@))
                && q_eq(v@, q_add(self@, other@)),
            r is Some <==> q_ok(q_add(self@, other@)),
    {
        proof {
            lemma_prod_bounds(self.num as int, other.den as int);
            lemma_prod_bounds(other.num as int, self.den as int);
            lemma_prod_bounds(self.den as int, other.den as int);
            lemma_den_prod_pos(self.den as int, other.den as int);
            if mk_rat_ok(q_add(self@, other@)) {
                lemma_q_norm(q_add(self@, other@));
            }
        }
        let n = (self.num as i128) * (other.den as i128) + (other.num as i128) * (self.den as i128);
        let d = (self.den as i128) * (other.den as i128);
        mk_rat(n, d)
    }

    pub fn checked_sub(&self, other: &Rat) -> (r: Option<Rat>)
        requires
            self.wf(),
            other.wf(),
        ensures
            r matches Some(v) ==> v.wf() && v@ == q_norm(q_sub(self@, other@))
                && q_eq(v@, q_sub(self@, other@)),
            r is Some <==> q_ok(q_sub(self@, other@)),
    {
        self.checked_add(&other.neg())
    }

    pub fn checked_mul(&self, other: &Rat) -> (r: Option<Rat>)
        requires
            self.wf(),
            other.wf(),
        ensures
            r matches Some(v) ==> v.wf() && v@ == q_norm(q_mul(self@, other@))
                && q_eq(v@, q_mul(self@, other@)),
            r is Some <==> q_ok(q_mul(self@, other@)),
    {
        proof {
            lemma_prod_bounds(self.num as int, other.num as int);
            lemma_prod_bounds(self.den as int, other.den as int);
            lemma_den_prod_pos(self.den as int, other.den as int);
            if mk_rat_ok(q_mul(self@, other@)) {
                lemma_q_norm(q_mul(self@, other@));
            }
        }
        let n = (self.num as i128) * (other.num as i128);
        let d = (self.den as i128) * (other.den as i128);
        mk_rat(n, d)
    }

    /// `None` exactly when the divisor is zero or the reduced quotient does
    /// not fit 64 bits.
    pub fn checked_div(&self, other: &Rat) -> (r: Option<Rat>)
        requires
            self.wf(),
            other.wf(),
        ensures
            r matches Some(v) ==> v.wf() && v@ == q_norm(q_div(self@, other@))
                && q_eq(v@, q_div(self@, other@)),
            r is Some <==> other@.num != 0 && q_ok(q_div(self@, other@)),
    {
        if self.num == 0 {
            // The exact quotient is zero; only a zero divisor can fail.
            if other.num == 0 {
                return None;
            }
            proof {
                lemma_den_sign(self.den as int, other.num as int);
                assert(self@.num * other@.den == 0 && -(self@.num * other@.den) == 0)
                    by (nonlinear_arith)
                    requires
                        self@.num == 0,
                ;
                assert(q_div(self@, other@).num == 0);
                assert(q_wf(q_div(self@, other@)));
                lemma_q_norm_zero(q_div(self@, other@));
                assert(q_norm(q_div(self@, other@)) == q_make(0, 1));
            }
            return Some(Rat { num: 0, den: 1 });
        }
        proof {
            lemma_prod_bounds(self.num as int, other.den as int);
            lemma_prod_bounds(self.den as int, other.num as int);
            if other@.num != 0 {
                lemma_den_sign(self.den as int, other.num as int);
                if mk_rat_ok(q_div(self@, other@)) {
                    lemma_q_norm(q_div(self@, other@));
                }
            }
        }
        if other.num == 0 {
            return None;
        }
        let n0 = (self.num as i128) * (other.den as i128);
        let d0 = (self.den as i128) * (other.num as i128);
        if other.num > 0 {
            mk_rat(n0, d0)
        } else {
            mk_rat(-n0, -d0)
        }
    }

    pub fn lt(&self, other: &Rat) -> (r: bool)
        requires
            self.wf(),
            other.wf(),
        ensures
            r <==> q_lt(self@, other@),
    {
        proof {
            lemma_prod_bounds(self.num as int, other.den as int);
            lemma_prod_bounds(other.num as int, self.den as int);
        }
        (self.num as i128) * (other.den as i128) < (other.num as i128) * (self.den as i128)
    }

    pub fn le(&self, other: &Rat) -> (r: bool)
        requires
            self.wf(),
            other.wf(),
        ensures
            r <==> q_le(self@, other@),
    {
        proof {
            lemma_prod_bounds(self.num as int, other.den as int);
            lemma_prod_bounds(other.num as int, self.den as int);
        }
        (self.num as i128) * (other.den as i128) <= (other.num as i128) * (self.den as i128)
    }

    pub fn eq_rat(&self, other: &Rat) -> (r: bool)
        requires
            self.wf(),
            other.wf(),
        ensures
            r <==> q_eq(self@, other@),
    {
        proof {
            lemma_prod_bounds(self.num as int, other.den as int);
            lemma_prod_bounds(other.num as int, self.den as int);
        }
        (self.num as i128) * (other.den as i128) == (other.num as i128) * (self.den as i128)
    }
}

// ---------------------------------------------------------------------------
// Algebraic facts about the spec operators, all stated modulo `q_eq`.
// ---------------------------------------------------------------------------

pub proof fn lemma_q_add_wf(a: Qv, b: Qv)
    requires
        q_wf(a),
        q_wf(b),
    ensures
        q_wf(q_add(a, b)),
        q_wf(q_sub(a, b)),
        q_wf(q_mul(a, b)),
{
    assert(a.den * b.den > 0) by (nonlinear_arith)
        requires
            a.den > 0,
            b.den > 0,
    ;
}

pub proof fn lemma_q_div_wf(a: Qv, b: Qv)
    requires
        q_wf(a),
        q_wf(b),
        b.num != 0,
    ensures
        q_wf(q_div(a, b)),
{
    assert((b.num > 0 ==> a.den * b.num > 0) && (b.num < 0 ==> -(a.den * b.num) > 0))
        by (nonlinear_arith)
        requires
            a.den > 0,
            b.num != 0,
    ;
}

/// Addition respects `q_eq` in both arguments.
pub proof fn lemma_q_add_congr(a: Qv, a2: Qv, b: Qv, b2: Qv)
    requires
        q_eq(a, a2),
        q_eq(b, b2),
    ensures
        q_eq(q_add(a, b), q_add(a2, b2)),
{
    assert((a.num * b.den) * (a2.den * b2.den) == (a2.num * b2.den) * (a.den * b.den))
        by (nonlinear_arith)
        requires
            a.num * a2.den == a2.num * a.den,
    ;
    assert((b.num * a.den) * (a2.den * b2.den) == (b2.num * a2.den) * (a.den * b.den))
        by (nonlinear_arith)
        requires
            b.num * b2.den == b2.num * b.den,
    ;
    assert((a.num * b.den + b.num * a.den) * (a2.den * b2.den) == (a.num * b.den) * (a2.den
        * b2.den) + (b.num * a.den) * (a2.den * b2.den)) by (nonlinear_arith);
    assert((a2.num * b2.den + b2.num * a2.den) * (a.den * b.den) == (a2.num * b2.den) * (a.den
        * b.den) + (b2.num * a2.den) * (a.den * b.den)) by (nonlinear_arith);
}

/// Multiplication respects `q_eq` in both arguments.
pub proof fn lemma_q_mul_congr(a: Qv, a2: Qv, b: Qv, b2: Qv)
    requires
        q_eq(a, a2),
        q_eq(b, b2),
    ensures
        q_eq(q_mul(a, b), q_mul(a2, b2)),
{
    assert((a.num * b.num) * (a2.den * b2.den) == (a2.num * b2.num) * (a.den * b.den))
        by (nonlinear_arith)
        requires
            a.num * a2.den == a2.num * a.den,
            b.num * b2.den == b2.num * b.den,
    ;
}

pub proof fn lemma_q_neg_congr(a: Qv, a2: Qv)
    requires
        q_eq(a, a2),
    ensures
        q_eq(q_neg(a), q_neg(a2)),
{
    assert((-a.num) * a2.den == (-a2.num) * a.den) by (nonlinear_arith)
        requires
            a.num * a2.den == a2.num * a.den,
    ;
}

/// Subtraction respects `q_eq` in both arguments.
pub proof fn lemma_q_sub_congr(a: Qv, a2: Qv, b: Qv, b2: Qv)
    requires
        q_eq(a, a2),
        q_eq(b, b2),
    ensures
        q_eq(q_sub(a, b), q_sub(a2, b2)),
{
    lemma_q_neg_congr(b, b2);
    lemma_q_add_congr(a, a2, q_neg(b), q_neg(b2));
}

/// The strict order respects `q_eq` on well-formed values.
pub proof fn lemma_q_lt_congr(a: Qv, a2: Qv, b: Qv, b2: Qv)
    requires
        q_wf(a),
        q_wf(a2),
        q_wf(b),
        q_wf(b2),
        q_eq(a, a2),
        q_eq(b, b2),
    ensures
        q_lt(a, b) <==> q_lt(a2, b2),
        q_le(a, b) <==> q_le(a2, b2),
{
    assert((a.num * b.den < b.num * a.den <==> a2.num * b2.den < b2.num * a2.den) && (a.num * b.den
        <= b.num * a.den <==> a2.num * b2.den <= b2.num * a2.den)) by (nonlinear_arith)
        requires
            a.den > 0,
            a2.den > 0,
            b.den > 0,
            b2.den > 0,
            a.num * a2.den == a2.num * a.den,
            b.num * b2.den == b2.num * b.den,
    ;
}

pub proof fn lemma_q_add_comm(a: Qv, b: Qv)
    ensures
        q_eq(q_add(a, b), q_add(b, a)),
{
    assert((a.num * b.den + b.num * a.den) * (b.den * a.den) == (b.num * a.den + a.num * b.den) * (
    a.den * b.den)) by (nonlinear_arith);
}

pub proof fn lemma_q_add_assoc(a: Qv, b: Qv, c: Qv)
    ensures
        q_eq(q_add(q_add(a, b), c), q_add(a, q_add(b, c))),
{
    assert((a.num * b.den + b.num * a.den) * c.den == a.num * b.den * c.den + b.num * a.den
        * c.den) by (nonlinear_arith);
    assert(c.num * (a.den * b.den) == c.num * a.den * b.den) by (nonlinear_arith);
    assert(a.num * (b.den * c.den) == a.num * b.den * c.den) by (nonlinear_arith);
    assert((b.num * c.den + c.num * b.den) * a.den == b.num * a.den * c.den + c.num * a.den
        * b.den) by (nonlinear_arith);
    assert(a.den * (b.den * c.den) == (a.den * b.den) * c.den) by (nonlinear_arith);
}

pub proof fn lemma_q_add_zero(a: Qv)
    ensures
        q_eq(q_add(a, q_zero()), a),
        q_eq(q_add(q_zero(), a), a),
{
    assert((a.num * 1 + 0 * a.den) * a.den == a.num * (a.den * 1)) by (nonlinear_arith);
    assert((0 * a.den + a.num * 1) * a.den == a.num * (1 * a.den)) by (nonlinear_arith);
}

pub proof fn lemma_q_mul_assoc(a: Qv, b: Qv, c: Qv)
    ensures
        q_eq(q_mul(q_mul(a, b), c), q_mul(a, q_mul(b, c))),
{
    assert(((a.num * b.num) * c.num) * (a.den * (b.den * c.den)) == ((a.num * (b.num * c.num)) * ((
    a.den * b.den) * c.den))) by (nonlinear_arith);
}

/// Multiplication distributes over addition.
pub proof fn lemma_q_mul_distrib(k: Qv, a: Qv, b: Qv)
    ensures
        q_eq(q_mul(k, q_add(a, b)), q_add(q_mul(k, a), q_mul(k, b))),
{
    let xl = k.num * (a.num * b.den + b.num * a.den);
    let xe = k.num * a.num * b.den + k.num * b.num * a.den;
    assert(xl == xe) by (nonlinear_arith)
        requires
            xl == k.num * (a.num * b.den + b.num * a.den),
            xe == k.num * a.num * b.den + k.num * b.num * a.den,
    ;
    assert((k.num * a.num) * (k.den * b.den) + (k.num * b.num) * (k.den * a.den) == k.den * xe)
        by (nonlinear_arith)
        requires
            xe == k.num * a.num * b.den + k.num * b.num * a.den,
    ;
    assert(xl * ((k.den * a.den) * (k.den * b.den)) == (k.den * xl) * (k.den * (a.den * b.den)))
        by (nonlinear_arith);
}

/// A square is never negative.
pub proof fn lemma_q_sq_nonneg(a: Qv)
    requires
        q_wf(a),
    ensures
        q_le(q_zero(), q_mul(a, a)),
{
    assert(0 * (a.den * a.den) <= (a.num * a.num) * 1) by (nonlinear_arith);
}

/// A square is zero exactly when the value is zero.
pub proof fn lemma_q_sq_zero_iff(a: Qv)
    requires
        q_wf(a),
    ensures
        q_eq(q_mul(a, a), q_zero()) <==> q_eq(a, q_zero()),
{
    assert(((a.num * a.num) * 1 == 0 * (a.den * a.den)) <==> (a.num * 1 == 0 * a.den))
        by (nonlinear_arith);
}

/// A sum of non-negative values is non-negative, and is zero only when both
/// summands are zero.
pub proof fn lemma_q_nonneg_add(a: Qv, b: Qv)
    requires
        q_wf(a),
        q_wf(b),
        q_le(q_zero(), a),
        q_le(q_zero(), b),
    ensures
        q_le(q_zero(), q_add(a, b)),
        q_eq(q_add(a, b), q_zero()) ==> q_eq(a, q_zero()) && q_eq(b, q_zero()),
{
    assert(0 * (a.den * b.den) <= (a.num * b.den + b.num * a.den) * 1 && (((a.num * b.den + b.num
        * a.den) * 1 == 0 * (a.den * b.den)) ==> (a.num * 1 == 0 * a.den && b.num * 1 == 0
        * b.den))) by (nonlinear_arith)
        requires
            a.den > 0,
            b.den > 0,
            0 * a.den <= a.num * 1,
            0 * b.den <= b.num * 1,
    ;
}

/// Sign-normalized fraction: the variant of `num / den` with a positive
/// denominator (meaningful when `den != 0`).
pub open spec fn q_signed(num: int, den: int) -> Qv {
    if den < 0 {
        q_make(-num, -den)
    } else {
        q_make(num, den)
    }
}

/// Whether `mk_rat` would succeed on the exact value `q`.
pub open spec fn mk_rat_ok(q: Qv) -> bool {
    q_fits(q_norm(q))
}

/// Cross-multiplication equality is transitive once the middle value has a
/// nonzero denominator.
pub proof fn lemma_q_eq_trans(a: Qv, b: Qv, c: Qv)
    requires
        q_eq(a, b),
        q_eq(b, c),
        b.den != 0,
    ensures
        q_eq(a, c),
{
    assert(a.num * c.den == c.num * a.den) by (nonlinear_arith)
        requires
            a.num * b.den == b.num * a.den,
            b.num * c.den == c.num * b.den,
            b.den != 0,
    ;
}

proof fn lemma_q_signed(num: int, den: int)
    requires
        den != 0,
    ensures
        q_wf(q_signed(num, den)),
        q_eq(q_signed(num, den), q_make(num, den)),
{
    if den < 0 {
        assert((-num) * den == num * (-den)) by (nonlinear_arith);
    }
}

proof fn lemma_q_norm_zero(q: Qv)
    requires
        q_wf(q),
        q.num == 0,
    ensures
        q_norm(q) == q_make(0, 1),
{
    let da = abs_i(q.den);
    assert(gcd(0, da) == gcd(da, 0));
    lemma_div_exact_self(da);
}

proof fn lemma_div_exact_self(d: nat)
    requires
        d > 0,
    ensures
        d / d == 1,
        0nat / d == 0,
{
    lemma_fundamental_div_mod_converse(d as int, d as int, 1, 0);
    lemma_fundamental_div_mod_converse(0, d as int, 0, 0);
}

/// Bound on a product of two values bounded by `i64::MAX` in magnitude.
proof fn lemma_prod_bounds(x: int, y: int)
    requires
        -i64_max() <= x <= i64_max(),
        -i64_max() <= y <= i64_max(),
    ensures
        -(i64_max() * i64_max()) <= x * y <= i64_max() * i64_max(),
    {
    assert(-(i64_max() * i64_max()) <= x * y <= i64_max() * i64_max()) by (nonlinear_arith)
        requires
            -i64_max() <= x <= i64_max(),
            -i64_max() <= y <= i64_max(),
    ;
}

proof fn lemma_den_prod_pos(x: int, y: int)
    requires
        x > 0,
        y > 0,
    ensures
        x * y > 0,
{
    assert(x * y > 0) by (nonlinear_arith)
        requires
            x > 0,
            y > 0,
    ;
}

proof fn lemma_den_sign(d: int, n: int)
    requires
        d > 0,
        n != 0,
    ensures
        n > 0 ==> d * n > 0,
        n < 0 ==> d * n < 0,
{
    assert((n > 0 ==> d * n > 0) && (n < 0 ==> d * n < 0)) by (nonlinear_arith)
        requires
            d > 0,
            n != 0,
    ;
}

fn gcd_u128(a: u128, b: u128) -> (g: u128)
    ensures
        g == gcd(a as nat, b as nat),
    {
    let mut x: u128 = a;
    let mut y: u128 = b;
    while y != 0
        invariant
            gcd(x as nat, y as nat) == gcd(a as nat, b as nat),
        decreases y,
    {
        let r = x % y;
        x = y;
        y = r;
    }
    x
}

/// Reduces `num / den` (with `den > 0`) to lowest terms; `None` exactly when
/// the reduced fraction does not fit the 64-bit representation.
fn mk_rat(num: i128, den: i128) -> (r: Option<Rat>)
    requires
        0 < den,
        num > i128::MIN,
    ensures
        r matches Some(v) ==> v.wf() && v@ == q_norm(q_make(num as int, den as int)),
        r is Some <==> q_fits(q_norm(q_make(num as int, den as int))),
{
    let neg = num < 0;
    let nabs: u128 = if neg {
        (-num) as u128
    } else {
        num as u128
    };
    let dabs: u128 = den as u128;
    let g = gcd_u128(nabs, dabs);
    proof {
        lemma_gcd_pos(nabs as nat, dabs as nat);
        lemma_gcd_divides(nabs as nat, dabs as nat);
        lemma_divides_le(g as nat, dabs as nat);
        lemma_div_non_zero(dabs as int, g as int);
    }
    let rn = nabs / g;
    let rd = dabs / g;
    if rn <= 0x7fff_ffff_ffff_ffff && rd <= 0x7fff_ffff_ffff_ffff {
        let n64: i64 = if neg {
            -(rn as i64)
        } else {
            rn as i64
        };
        Some(Rat { num: n64, den: rd as i64 })
    } else {
        None
    }
}

} // verus!
